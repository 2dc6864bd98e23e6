//! Why an assignment phase partitions the point set: every point ends up in
//! the member list of exactly one cluster.

use crate::assignment::{
    assigned_to, assignment, lemma_assigned_are_members, lemma_assigned_to_none,
    lemma_assigned_to_push, members_of,
};
use crate::cluster::{centroid_of, lemma_centroid_by_content, Cluster};
use crate::point::{lemma_nearest_exists, Point};
use vstd::multiset::Multiset;
use vstd::prelude::*;
use vstd::seq_lib::to_multiset_build;

verus! {

/// The member lists of a sequence of clusters, in order.
pub open spec fn memberships(clusters: Seq<Cluster>) -> Seq<Seq<Point>> {
    Seq::new(clusters.len(), |j: int| clusters[j].members())
}

/// All the points of all the lists, each counted as often as it occurs.
pub open spec fn all_members(groups: Seq<Seq<Point>>) -> Multiset<Point>
    decreases groups.len(),
{
    if groups.len() == 0 {
        Multiset::empty()
    } else {
        all_members(groups.drop_last()).add(groups.last().to_multiset())
    }
}

/// The points that a run of decisions carries, in order.
pub open spec fn decided_points(ds: Seq<(Point, int)>) -> Seq<Point> {
    Seq::new(ds.len(), |i: int| ds[i].0)
}

/// The member lists that the decisions `ds` give to `k` clusters that were
/// empty.
pub open spec fn placed(ds: Seq<(Point, int)>, k: int) -> Seq<Seq<Point>> {
    Seq::new(k as nat, |j: int| assigned_to(ds, j))
}

/// The member lists of `centroids.len()` clusters after an assignment phase
/// over `points`.
pub open spec fn memberships_of(points: Seq<Point>, centroids: Seq<Point>) -> Seq<Seq<Point>> {
    Seq::new(centroids.len(), |j: int| members_of(points, centroids, j))
}

/// An empty list holds no points.
pub proof fn lemma_empty_list_holds_nothing(list: Seq<Point>)
    requires
        list.len() == 0,
    ensures
        list.to_multiset() == Multiset::<Point>::empty(),
{
    list.to_multiset_ensures();
    assert forall|p: Point| list.to_multiset().count(p) == 0 by {
        assert(!list.contains(p));
    }
    assert(list.to_multiset() =~= Multiset::<Point>::empty());
}

/// Lists without points hold no points.
pub proof fn lemma_all_members_of_empty_lists(groups: Seq<Seq<Point>>)
    requires
        forall|j: int| 0 <= j < groups.len() ==> (#[trigger] groups[j]).len() == 0,
    ensures
        all_members(groups) == Multiset::<Point>::empty(),
    decreases groups.len(),
{
    if groups.len() > 0 {
        lemma_all_members_of_empty_lists(groups.drop_last());
        lemma_empty_list_holds_nothing(groups.last());
        assert(all_members(groups) =~= Multiset::<Point>::empty());
    }
}

/// One more point in one list is one more point in the whole.
pub proof fn lemma_all_members_grow(groups: Seq<Seq<Point>>, j: int, p: Point)
    requires
        0 <= j < groups.len(),
    ensures
        all_members(groups.update(j, groups[j].push(p))) == all_members(groups).insert(p),
    decreases groups.len(),
{
    let grown = groups.update(j, groups[j].push(p));
    let last = groups.len() - 1;
    if j == last {
        assert(grown.drop_last() =~= groups.drop_last());
        to_multiset_build(groups[j], p);
        assert(all_members(grown) =~= all_members(groups).insert(p));
    } else {
        lemma_all_members_grow(groups.drop_last(), j, p);
        assert(grown.drop_last() =~= groups.drop_last().update(j, groups[j].push(p)));
        assert(grown.last() == groups.last());
        assert(all_members(grown) =~= all_members(groups).insert(p));
    }
}

/// Whatever the order of the decisions, placing them into `k` empty
/// clusters puts every decided point into exactly one member list: taken
/// together, the lists hold the decided points, each as often as it was
/// decided.
pub proof fn lemma_placing_partitions(ds: Seq<(Point, int)>, k: int)
    requires
        forall|i: int| 0 <= i < ds.len() ==> 0 <= (#[trigger] ds[i]).1 < k,
    ensures
        all_members(placed(ds, k)) == decided_points(ds).to_multiset(),
    decreases ds.len(),
{
    if ds.len() == 0 {
        assert forall|j: int| 0 <= j < placed(ds, k).len() implies (#[trigger] placed(
            ds,
            k,
        )[j]).len() == 0 by {
            assert(ds =~= Seq::<(Point, int)>::empty());
            lemma_assigned_to_none(j);
        }
        lemma_all_members_of_empty_lists(placed(ds, k));
        lemma_empty_list_holds_nothing(decided_points(ds));
    } else {
        let front = ds.drop_last();
        let d = ds.last();
        lemma_placing_partitions(front, k);
        assert(ds =~= front.push(d));
        assert(placed(ds, k) =~= placed(front, k).update(d.1, placed(front, k)[d.1].push(d.0))) by {
            assert forall|j: int| 0 <= j < k implies placed(ds, k)[j] == placed(front, k).update(
                d.1,
                placed(front, k)[d.1].push(d.0),
            )[j] by {
                lemma_assigned_to_push(front, d, j);
            }
        }
        lemma_all_members_grow(placed(front, k), d.1, d.0);
        assert(decided_points(ds) =~= decided_points(front).push(d.0));
        to_multiset_build(decided_points(front), d.0);
    }
}

/// After an assignment phase the member lists partition the point set:
/// taken together they hold every point of `points` exactly as often as
/// `points` does, so none is left out and none is in two lists.
pub proof fn lemma_partition_complete(points: Seq<Point>, centroids: Seq<Point>)
    requires
        centroids.len() >= 1,
    ensures
        all_members(memberships_of(points, centroids)) == points.to_multiset(),
{
    let ds = assignment(points, centroids);
    let k = centroids.len() as int;
    assert forall|i: int| 0 <= i < ds.len() implies 0 <= (#[trigger] ds[i]).1 < k by {
        lemma_nearest_exists(points[i], centroids);
    }
    lemma_placing_partitions(ds, k);
    assert(decided_points(ds) =~= points);
    assert(placed(ds, k) =~= memberships_of(points, centroids)) by {
        assert forall|j: int| 0 <= j < k implies placed(ds, k)[j] == memberships_of(
            points,
            centroids,
        )[j] by {
            lemma_assigned_are_members(points, centroids, j);
        }
    }
}

/// How often the decisions send `p` to cluster `j` is how often cluster
/// `j` gets `p`.
pub proof fn lemma_assigned_count(ds: Seq<(Point, int)>, j: int, p: Point)
    ensures
        assigned_to(ds, j).to_multiset().count(p) == ds.to_multiset().count((p, j)),
    decreases ds.len(),
{
    if ds.len() == 0 {
        assert(ds =~= Seq::<(Point, int)>::empty());
        lemma_assigned_to_none(j);
        lemma_empty_list_holds_nothing(assigned_to(ds, j));
        ds.to_multiset_ensures();
        assert(!ds.contains((p, j)));
    } else {
        let front = ds.drop_last();
        let d = ds.last();
        assert(ds =~= front.push(d));
        lemma_assigned_count(front, j, p);
        lemma_assigned_to_push(front, d, j);
        to_multiset_build(front, d);
        if d.1 == j {
            to_multiset_build(assigned_to(front, j), d.0);
        }
    }
}

/// The order in which the decisions arrive does not change which points a
/// cluster gets, nor how often: only the order of its member list.
pub proof fn lemma_arrival_order_keeps_members(
    a: Seq<(Point, int)>,
    b: Seq<(Point, int)>,
    j: int,
)
    requires
        a.to_multiset() == b.to_multiset(),
    ensures
        assigned_to(a, j).to_multiset() == assigned_to(b, j).to_multiset(),
{
    assert forall|p: Point|
        assigned_to(a, j).to_multiset().count(p) == assigned_to(b, j).to_multiset().count(p) by {
        lemma_assigned_count(a, j, p);
        lemma_assigned_count(b, j, p);
    }
    assert(assigned_to(a, j).to_multiset() =~= assigned_to(b, j).to_multiset());
}

/// The order in which the decisions arrive does not change where a
/// centroid moves.
pub proof fn lemma_arrival_order_keeps_centroid(
    a: Seq<(Point, int)>,
    b: Seq<(Point, int)>,
    j: int,
    prior: Point,
)
    requires
        a.to_multiset() == b.to_multiset(),
    ensures
        centroid_of(assigned_to(a, j), prior) == centroid_of(assigned_to(b, j), prior),
{
    lemma_arrival_order_keeps_members(a, b, j);
    lemma_centroid_by_content(assigned_to(a, j), assigned_to(b, j), prior);
}

} // verus!
