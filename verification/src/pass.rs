//! One pass of the loop: the points are assigned, the decisions are placed,
//! and the centroids are moved. The total movement of the centroids is what
//! the loop tests against `EPSILON`.

use crate::assignment::{
    assign_points, assigned_to, assignment, clear_all, decisions, lemma_assigned_are_members,
    members_of, place_assignments,
};
use crate::cluster::{centroid_of, centroids, Cluster};
use crate::partition::{
    all_members, decided_points, lemma_arrival_order_keeps_centroid, lemma_partition_complete,
    lemma_placing_partitions, memberships, memberships_of, placed,
};
use crate::point::{
    lemma_nearest_exists, lemma_squared_distance_metric, spec_squared_distance, Point,
};
use vstd::prelude::*;

verus! {

/// The largest total movement of the centroids at which a pass counts as
/// converged. Every squared distance on the lattice is a whole number, so
/// with any threshold below 1 the loop ends exactly when no centroid has
/// moved.
pub const EPSILON: u128 = 0;

/// The sum, over the first `n` indices, of the squared distance between
/// `before[j]` and `after[j]`.
pub open spec fn change_upto(before: Seq<Point>, after: Seq<Point>, n: nat) -> int
    decreases n,
{
    if n == 0 {
        0
    } else {
        change_upto(before, after, (n - 1) as nat) + spec_squared_distance(
            before[n - 1],
            after[n - 1],
        )
    }
}

/// How far the centroids moved from `before` to `after`: the sum of the
/// squared distances, cluster by cluster.
pub open spec fn total_change(before: Seq<Point>, after: Seq<Point>) -> int {
    change_upto(before, after, before.len())
}

/// A total as the loop holds it: exact up to `u128::MAX`, which stands for
/// everything above.
pub open spec fn saturated(total: int) -> u128 {
    if total > u128::MAX {
        u128::MAX
    } else {
        total as u128
    }
}

/// The centroids that the clusters get when each is moved to the mean of
/// its members.
pub open spec fn recentred(clusters: Seq<Cluster>) -> Seq<Point> {
    Seq::new(clusters.len(), |j: int| centroid_of(clusters[j].members(), clusters[j].centroid))
}

/// The centroids after one pass over `points` that began with `centroids`.
pub open spec fn next_centroids(points: Seq<Point>, centroids: Seq<Point>) -> Seq<Point> {
    Seq::new(
        centroids.len(),
        |j: int| centroid_of(members_of(points, centroids, j), centroids[j]),
    )
}

/// The centroids after the decisions `ds` were placed into clusters that
/// began with the centroids `start`, and every centroid was moved.
pub open spec fn moved_by(ds: Seq<(Point, int)>, start: Seq<Point>) -> Seq<Point> {
    Seq::new(start.len(), |j: int| centroid_of(assigned_to(ds, j), start[j]))
}

/// A partial sum of squared distances is never negative.
pub proof fn lemma_change_nonnegative(before: Seq<Point>, after: Seq<Point>, n: nat)
    ensures
        change_upto(before, after, n) >= 0,
    decreases n,
{
    if n > 0 {
        lemma_change_nonnegative(before, after, (n - 1) as nat);
        lemma_squared_distance_metric(before[n - 1], after[n - 1]);
    }
}

/// Placing the decisions of an assignment phase in the order of the points
/// gives each cluster its members, and moving the centroids then gives the
/// centroids of the next pass.
pub proof fn lemma_in_order_pass(points: Seq<Point>, start: Seq<Point>)
    requires
        start.len() >= 1,
    ensures
        placed(assignment(points, start), start.len() as int) == memberships_of(points, start),
        moved_by(assignment(points, start), start) == next_centroids(points, start),
        decided_points(assignment(points, start)) == points,
        all_members(memberships_of(points, start)) == points.to_multiset(),
{
    let ds = assignment(points, start);
    let k = start.len() as int;
    assert forall|j: int| 0 <= j < k implies assigned_to(ds, j) == members_of(points, start, j) by {
        lemma_assigned_are_members(points, start, j);
    }
    assert(placed(ds, k) =~= memberships_of(points, start));
    assert(moved_by(ds, start) =~= next_centroids(points, start));
    assert(decided_points(ds) =~= points);
    lemma_partition_complete(points, start);
}

/// A pass whose decisions arrive in any order moves the centroids as the
/// pass in the order of the points does, and its member lists partition
/// the points all the same.
pub proof fn lemma_pass_in_any_order(points: Seq<Point>, start: Seq<Point>, ds: Seq<(Point, int)>)
    requires
        start.len() >= 1,
        ds.to_multiset() == assignment(points, start).to_multiset(),
    ensures
        moved_by(ds, start) == next_centroids(points, start),
        all_members(placed(ds, start.len() as int)) == points.to_multiset(),
{
    let in_order = assignment(points, start);
    let k = start.len() as int;
    assert(moved_by(ds, start) =~= next_centroids(points, start)) by {
        assert forall|j: int| 0 <= j < k implies moved_by(ds, start)[j] == next_centroids(
            points,
            start,
        )[j] by {
            lemma_arrival_order_keeps_centroid(ds, in_order, j, start[j]);
            lemma_assigned_are_members(points, start, j);
        }
    }
    ds.to_multiset_ensures();
    in_order.to_multiset_ensures();
    assert forall|i: int| 0 <= i < ds.len() implies 0 <= (#[trigger] ds[i]).1 < k by {
        assert(ds.contains(ds[i]));
        assert(ds.to_multiset().count(ds[i]) > 0);
        assert(in_order.contains(ds[i]));
        let at = choose|at: int| 0 <= at < in_order.len() && in_order[at] == ds[i];
        lemma_nearest_exists(points[at], start);
    }
    lemma_placing_partitions(ds, k);
    lemma_points_by_content(ds, in_order);
    assert(decided_points(in_order) =~= points);
}

/// Decisions that are the same but for their order carry the same points.
pub proof fn lemma_points_by_content(a: Seq<(Point, int)>, b: Seq<(Point, int)>)
    requires
        a.to_multiset() == b.to_multiset(),
    ensures
        decided_points(a).to_multiset() == decided_points(b).to_multiset(),
    decreases a.len(),
{
    a.to_multiset_ensures();
    b.to_multiset_ensures();
    if a.len() == 0 {
        assert(b.len() == 0);
        assert(decided_points(a) =~= decided_points(b));
    } else {
        let d = a.last();
        let front = a.drop_last();
        assert(a =~= front.push(d));
        front.to_multiset_ensures();
        assert(a.contains(d));
        assert(a.to_multiset().count(d) > 0);
        assert(b.to_multiset().count(d) > 0);
        assert(b.contains(d));
        let i = choose|i: int| 0 <= i < b.len() && b[i] == d;
        let rest = b.remove(i);
        assert(front.to_multiset() =~= a.to_multiset().remove(d));
        assert(rest.to_multiset() =~= b.to_multiset().remove(d));
        lemma_points_by_content(front, rest);
        assert(decided_points(a) =~= decided_points(front).push(d.0));
        decided_points(front).to_multiset_ensures();
        assert(decided_points(rest) =~= decided_points(b).remove(i));
        decided_points(b).to_multiset_ensures();
        assert(decided_points(b).to_multiset() =~= decided_points(rest).to_multiset().insert(d.0));
    }
}

/// Whether `change`, as a pass returned it, ends the loop.
pub fn has_converged(change: u128) -> (done: bool)
    ensures
        done == (change <= EPSILON),
{
    change <= EPSILON
}

/// Moves every centroid to the mean of its members and returns the total
/// of the squared distances moved, held at `u128::MAX` where it would
/// exceed it. Clusters without members stay where they are and add nothing.
pub fn recompute_centroids(clusters: &mut Vec<Cluster>) -> (change: u128)
    ensures
        final(clusters).len() == old(clusters).len(),
        memberships(final(clusters)@) == memberships(old(clusters)@),
        centroids(final(clusters)@) == recentred(old(clusters)@),
        change == saturated(total_change(centroids(old(clusters)@), recentred(old(clusters)@))),
{
    let ghost before = clusters@;
    let ghost from = centroids(before);
    let ghost to = recentred(before);
    let mut change: u128 = 0;
    let mut j: usize = 0;
    while j < clusters.len()
        invariant
            j <= clusters.len(),
            clusters.len() == before.len(),
            from == centroids(before),
            to == recentred(before),
            forall|k: int| 0 <= k < j ==> (#[trigger] clusters[k]).centroid == to[k],
            forall|k: int| j <= k < clusters.len() ==> #[trigger] clusters[k] == before[k],
            memberships(clusters@) =~= memberships(before),
            change == saturated(change_upto(from, to, j as nat)),
        decreases clusters.len() - j,
    {
        let moved: u128 = clusters[j].set_centroid();
        proof {
            lemma_change_nonnegative(from, to, j as nat);
        }
        change = change.saturating_add(moved);
        j += 1;
    }
    proof {
        assert(centroids(clusters@) =~= to);
    }
    change
}

/// The second half of a pass, for decisions that arrive in any order: every
/// member list is emptied, each arrived point is appended to the list of
/// the cluster that its decision names, and every centroid is then moved to
/// the mean of its members. Returns the total movement of the centroids,
/// held at `u128::MAX` where it would exceed it.
///
/// Taken together, the member lists afterwards hold the arrived points,
/// each exactly as often as it arrived.
pub fn collect_pass<'a>(clusters: &mut Vec<Cluster<'a>>, arrivals: &Vec<(&'a Point, usize)>) -> (change:
    u128)
    requires
        forall|i: int| 0 <= i < arrivals.len() ==> (#[trigger] arrivals[i]).1 < old(clusters).len(),
    ensures
        final(clusters).len() == old(clusters).len(),
        memberships(final(clusters)@) == placed(
            decisions(arrivals@),
            old(clusters).len() as int,
        ),
        centroids(final(clusters)@) == moved_by(decisions(arrivals@), centroids(old(clusters)@)),
        change == saturated(
            total_change(centroids(old(clusters)@), centroids(final(clusters)@)),
        ),
        all_members(memberships(final(clusters)@)) == decided_points(
            decisions(arrivals@),
        ).to_multiset(),
{
    let ghost start = centroids(clusters@);
    let ghost ds = decisions(arrivals@);
    let ghost k = clusters.len() as int;
    clear_all(clusters);
    place_assignments(clusters, arrivals);
    proof {
        assert(memberships(clusters@) =~= placed(ds, k)) by {
            assert forall|j: int| 0 <= j < k implies memberships(clusters@)[j] == placed(ds, k)[j] by {
                assert(Seq::<Point>::empty() + assigned_to(ds, j) =~= assigned_to(ds, j));
            }
        }
        assert(recentred(clusters@) =~= moved_by(ds, start)) by {
            assert forall|j: int| 0 <= j < k implies recentred(clusters@)[j] == moved_by(
                ds,
                start,
            )[j] by {
                assert(clusters[j].members() == memberships(clusters@)[j]);
                assert(clusters[j].centroid == centroids(clusters@)[j]);
            }
        }
        lemma_placing_partitions(ds, k);
    }
    recompute_centroids(clusters)
}

/// One pass: every member list is emptied, every point is given to the
/// cluster with the nearest centroid, and every centroid is then moved to
/// the mean of its members. Returns the total movement of the centroids,
/// held at `u128::MAX` where it would exceed it.
///
/// The member lists afterwards partition `points`, and neither they nor the
/// new centroids depend on `num_threads`.
pub fn iterate<'a>(points: &'a Vec<Point>, clusters: &mut Vec<Cluster<'a>>, num_threads: usize) -> (change:
    u128)
    requires
        old(clusters).len() >= 1,
        num_threads >= 1,
    ensures
        final(clusters).len() == old(clusters).len(),
        memberships(final(clusters)@) == memberships_of(points@, centroids(old(clusters)@)),
        centroids(final(clusters)@) == next_centroids(points@, centroids(old(clusters)@)),
        change == saturated(
            total_change(centroids(old(clusters)@), centroids(final(clusters)@)),
        ),
        all_members(memberships(final(clusters)@)) == points@.to_multiset(),
{
    let ghost start = centroids(clusters@);
    let arrivals: Vec<(&'a Point, usize)> = assign_points(points, clusters, num_threads);
    proof {
        lemma_in_order_pass(points@, start);
    }
    collect_pass(clusters, &arrivals)
}

} // verus!
