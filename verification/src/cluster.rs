//! A cluster: a centroid and the points currently assigned to it.

use crate::point::{spec_squared_distance, within, Point};
use rand::rngs::StdRng;
use vstd::prelude::*;

verus! {

/// A centroid with its members. The members are references into the point
/// set that is being clustered; the list is rebuilt on every pass.
#[derive(Debug)]
pub struct Cluster<'a> {
    pub centroid: Point,
    pub points: Vec<&'a Point>,
}

/// The points behind a sequence of references.
pub open spec fn pointees(refs: Seq<&Point>) -> Seq<Point> {
    Seq::new(refs.len(), |i: int| *refs[i])
}

/// The centroids of a sequence of clusters, in order.
pub open spec fn centroids(clusters: Seq<Cluster>) -> Seq<Point> {
    Seq::new(clusters.len(), |j: int| clusters[j].centroid)
}

/// The sum of the `x` coordinates of `ps`.
pub open spec fn sum_x(ps: Seq<Point>) -> int
    decreases ps.len(),
{
    if ps.len() == 0 {
        0
    } else {
        sum_x(ps.drop_last()) + ps.last().x
    }
}

/// The sum of the `y` coordinates of `ps`.
pub open spec fn sum_y(ps: Seq<Point>) -> int
    decreases ps.len(),
{
    if ps.len() == 0 {
        0
    } else {
        sum_y(ps.drop_last()) + ps.last().y
    }
}

/// `sum / n` rounded toward zero, for a positive `n`.
pub open spec fn mean_toward_zero(sum: int, n: int) -> int {
    if sum >= 0 {
        sum / n
    } else {
        -((-sum) / n)
    }
}

/// The mean `x` coordinate of a non-empty `ps`, rounded toward zero.
pub open spec fn mean_x(ps: Seq<Point>) -> int {
    mean_toward_zero(sum_x(ps), ps.len() as int)
}

/// The mean `y` coordinate of a non-empty `ps`, rounded toward zero.
pub open spec fn mean_y(ps: Seq<Point>) -> int {
    mean_toward_zero(sum_y(ps), ps.len() as int)
}

/// The centroid of a cluster with members `ps` whose centroid was `prior`:
/// the lattice point at the rounded mean of the members, or `prior` itself
/// where there are no members.
pub open spec fn centroid_of(ps: Seq<Point>, prior: Point) -> Point {
    if ps.len() == 0 {
        prior
    } else {
        Point { x: mean_x(ps) as i32, y: mean_y(ps) as i32 }
    }
}

/// Both coordinate sums of `ps` lie within `ps.len()` times the range of a
/// coordinate.
pub proof fn lemma_sums_bounded(ps: Seq<Point>)
    ensures
        ps.len() * i32::MIN <= sum_x(ps) <= ps.len() * i32::MAX,
        ps.len() * i32::MIN <= sum_y(ps) <= ps.len() * i32::MAX,
    decreases ps.len(),
{
    if ps.len() > 0 {
        lemma_sums_bounded(ps.drop_last());
        let n = ps.len() as int;
        assert((n - 1) * i32::MIN + i32::MIN == n * i32::MIN) by (nonlinear_arith);
        assert((n - 1) * i32::MAX + i32::MAX == n * i32::MAX) by (nonlinear_arith);
    }
}

/// A mean rounded toward zero stays between the bounds of what was summed.
pub proof fn lemma_mean_between(sum: int, n: int, low: int, high: int)
    requires
        n > 0,
        low <= 0 <= high,
        n * low <= sum <= n * high,
    ensures
        low <= mean_toward_zero(sum, n) <= high,
{
    if sum >= 0 {
        assert(0 <= sum / n <= high) by (nonlinear_arith)
            requires
                n > 0,
                0 <= sum <= n * high,
        ;
    } else {
        let neg = -sum;
        assert(n * (-low) == -(n * low)) by (nonlinear_arith);
        assert(0 <= neg / n <= -low) by (nonlinear_arith)
            requires
                n > 0,
                0 <= neg <= n * (-low),
        ;
    }
}

/// The rounded mean of a non-empty sequence of points is itself a lattice
/// point with `i32` coordinates, so `centroid_of` loses nothing.
pub proof fn lemma_mean_is_a_point(ps: Seq<Point>)
    requires
        ps.len() > 0,
    ensures
        i32::MIN <= mean_x(ps) <= i32::MAX,
        i32::MIN <= mean_y(ps) <= i32::MAX,
        centroid_of(ps, Point { x: 0, y: 0 }).x == mean_x(ps),
        centroid_of(ps, Point { x: 0, y: 0 }).y == mean_y(ps),
{
    lemma_sums_bounded(ps);
    lemma_mean_between(sum_x(ps), ps.len() as int, i32::MIN as int, i32::MAX as int);
    lemma_mean_between(sum_y(ps), ps.len() as int, i32::MIN as int, i32::MAX as int);
}

/// Taking one point out of a list takes its coordinates out of the sums.
pub proof fn lemma_sums_without(ps: Seq<Point>, i: int)
    requires
        0 <= i < ps.len(),
    ensures
        sum_x(ps) == sum_x(ps.remove(i)) + ps[i].x,
        sum_y(ps) == sum_y(ps.remove(i)) + ps[i].y,
    decreases ps.len(),
{
    let last = ps.len() - 1;
    if i == last {
        assert(ps.remove(i) =~= ps.drop_last());
    } else {
        lemma_sums_without(ps.drop_last(), i);
        assert(ps.remove(i).drop_last() =~= ps.drop_last().remove(i));
        assert(ps.remove(i).last() == ps.last());
    }
}

/// The coordinate sums of a list depend on which points it holds and how
/// often, not on their order.
pub proof fn lemma_sums_by_content(a: Seq<Point>, b: Seq<Point>)
    requires
        a.to_multiset() == b.to_multiset(),
    ensures
        a.len() == b.len(),
        sum_x(a) == sum_x(b),
        sum_y(a) == sum_y(b),
    decreases a.len(),
{
    a.to_multiset_ensures();
    b.to_multiset_ensures();
    if a.len() > 0 {
        let p = a.last();
        let front = a.drop_last();
        assert(a =~= front.push(p));
        front.to_multiset_ensures();
        assert(a.contains(p));
        assert(a.to_multiset().count(p) > 0);
        assert(b.to_multiset().count(p) > 0);
        assert(b.contains(p));
        let i = choose|i: int| 0 <= i < b.len() && b[i] == p;
        let rest = b.remove(i);
        assert(front.to_multiset() =~= a.to_multiset().remove(p));
        assert(rest.to_multiset() =~= b.to_multiset().remove(p));
        lemma_sums_by_content(front, rest);
        lemma_sums_without(b, i);
    }
}

/// The centroid of a cluster depends on which members it has and how often,
/// not on the order in which they were added.
pub proof fn lemma_centroid_by_content(a: Seq<Point>, b: Seq<Point>, prior: Point)
    requires
        a.to_multiset() == b.to_multiset(),
    ensures
        centroid_of(a, prior) == centroid_of(b, prior),
{
    lemma_sums_by_content(a, b);
}

/// A cluster without members keeps its centroid.
pub proof fn lemma_empty_cluster_keeps_centroid(prior: Point)
    ensures
        centroid_of(Seq::<Point>::empty(), prior) == prior,
{
}

impl<'a> Cluster<'a> {
    /// The member points, in the order in which they were added.
    pub open spec fn members(&self) -> Seq<Point> {
        pointees(self.points@)
    }

    /// Empties the member list and leaves the centroid as it is.
    pub fn clear_points(&mut self)
        ensures
            final(self).centroid == old(self).centroid,
            final(self).points@.len() == 0,
            final(self).members() == Seq::<Point>::empty(),
    {
        self.points.clear();
    }

    /// A cluster without members whose centroid is drawn from `rng` inside
    /// the box `[left, right] x [bottom, top]`.
    pub fn new_random(rng: &mut StdRng, left: i32, right: i32, bottom: i32, top: i32) -> (c: Self)
        requires
            left <= right,
            bottom <= top,
        ensures
            within(c.centroid, left, right, bottom, top),
            c.points@.len() == 0,
            c.members() == Seq::<Point>::empty(),
    {
        Cluster {
            centroid: Point::new_random_within_range(rng, left, right, bottom, top),
            points: Vec::new(),
        }
    }

    /// Moves the centroid to the mean of the members, each coordinate
    /// rounded toward zero, and returns the squared distance between the
    /// centroid before and after. A cluster without members keeps its
    /// centroid and returns 0.
    pub fn set_centroid(&mut self) -> (change: u128)
        ensures
            final(self).points == old(self).points,
            final(self).centroid == centroid_of(old(self).members(), old(self).centroid),
            old(self).members().len() > 0 ==> final(self).centroid.x == mean_x(old(self).members())
                && final(self).centroid.y == mean_y(old(self).members()),
            old(self).members().len() == 0 ==> final(self).centroid == old(self).centroid && change
                == 0,
            change == spec_squared_distance(old(self).centroid, final(self).centroid),
    {
        let n: usize = self.points.len();
        if n == 0 {
            return 0;
        }
        let ghost ps = self.members();
        let mut total_x: i128 = 0;
        let mut total_y: i128 = 0;
        let mut i: usize = 0;
        while i < n
            invariant
                i <= n,
                n == self.points@.len(),
                ps == self.members(),
                total_x == sum_x(ps.take(i as int)),
                total_y == sum_y(ps.take(i as int)),
            decreases n - i,
        {
            let p: &Point = self.points[i];
            proof {
                let next = ps.take(i + 1);
                assert(next.drop_last() =~= ps.take(i as int));
                assert(next.last() == *p);
                lemma_sums_bounded(ps.take(i as int));
                lemma_sums_bounded(next);
                assert(i * i32::MIN >= usize::MAX * i32::MIN) by (nonlinear_arith)
                    requires
                        0 <= i <= usize::MAX,
                ;
                assert(i * i32::MAX <= usize::MAX * i32::MAX) by (nonlinear_arith)
                    requires
                        0 <= i <= usize::MAX,
                ;
            }
            total_x = total_x + p.x as i128;
            total_y = total_y + p.y as i128;
            i += 1;
        }
        proof {
            assert(ps.take(n as int) =~= ps);
            lemma_mean_is_a_point(ps);
        }
        let new_centroid = Point {
            x: (total_x / (n as i128)) as i32,
            y: (total_y / (n as i128)) as i32,
        };
        let change: u128 = Point::squared_distance(&self.centroid, &new_centroid);
        self.centroid = new_centroid;
        change
    }
}

} // verus!
