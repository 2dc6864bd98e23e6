//! Points of the integer lattice, their squared distance, and the search for
//! the nearest of a sequence of centroids.

use crate::cluster::{centroids, Cluster};
use crate::random::draw_in_range;
use rand::rngs::StdRng;
use vstd::prelude::*;

verus! {

/// A point of the plane with integer coordinates. Immutable by convention:
/// the library never changes a point that it was given.
#[derive(Clone, Copy, Debug, PartialEq, Eq, Structural)]
pub struct Point {
    pub x: i32,
    pub y: i32,
}

/// The squared Euclidean distance `(x1 - x2)^2 + (y1 - y2)^2`.
pub open spec fn spec_squared_distance(p1: Point, p2: Point) -> int {
    (p1.x - p2.x) * (p1.x - p2.x) + (p1.y - p2.y) * (p1.y - p2.y)
}

/// Whether `p` lies in the box `[left, right] x [bottom, top]`.
pub open spec fn within(p: Point, left: i32, right: i32, bottom: i32, top: i32) -> bool {
    left <= p.x <= right && bottom <= p.y <= top
}

/// Whether `i` is the first index at which the distance from `p` to
/// `centroids[i]` is the least over the whole sequence.
pub open spec fn is_nearest(p: Point, centroids: Seq<Point>, i: int) -> bool {
    &&& 0 <= i < centroids.len()
    &&& forall|j: int|
        0 <= j < centroids.len() ==> spec_squared_distance(p, centroids[i])
            <= spec_squared_distance(p, #[trigger] centroids[j])
    &&& forall|j: int|
        0 <= j < i ==> spec_squared_distance(p, centroids[i]) < spec_squared_distance(
            p,
            #[trigger] centroids[j],
        )
}

/// The index of the centroid nearest to `p`, the lowest one among equals.
/// Meaningful for a non-empty sequence.
pub open spec fn nearest_index(p: Point, centroids: Seq<Point>) -> int {
    choose|i: int| is_nearest(p, centroids, i)
}

/// At most one index is the first nearest.
pub proof fn lemma_nearest_unique(p: Point, centroids: Seq<Point>, i: int, j: int)
    requires
        is_nearest(p, centroids, i),
        is_nearest(p, centroids, j),
    ensures
        i == j,
{
    if i < j {
        assert(spec_squared_distance(p, centroids[j]) < spec_squared_distance(p, centroids[i]));
    } else if j < i {
        assert(spec_squared_distance(p, centroids[i]) < spec_squared_distance(p, centroids[j]));
    }
}

/// An index known to be the first nearest is `nearest_index`.
pub proof fn lemma_nearest_is(p: Point, centroids: Seq<Point>, i: int)
    requires
        is_nearest(p, centroids, i),
    ensures
        nearest_index(p, centroids) == i,
{
    lemma_nearest_unique(p, centroids, i, nearest_index(p, centroids));
}

/// Every non-empty sequence of centroids has a first nearest index.
pub proof fn lemma_nearest_exists(p: Point, centroids: Seq<Point>)
    requires
        centroids.len() >= 1,
    ensures
        is_nearest(p, centroids, nearest_index(p, centroids)),
    decreases centroids.len(),
{
    if centroids.len() == 1 {
        assert(is_nearest(p, centroids, 0));
    } else {
        let front = centroids.drop_last();
        lemma_nearest_exists(p, front);
        let b = nearest_index(p, front);
        let last = centroids.len() - 1;
        assert forall|j: int| 0 <= j < last implies front[j] == #[trigger] centroids[j] by {}
        assert(front[b] == centroids[b]);
        if spec_squared_distance(p, centroids[last]) < spec_squared_distance(p, centroids[b]) {
            assert(is_nearest(p, centroids, last)) by {
                assert forall|j: int| 0 <= j < centroids.len() implies spec_squared_distance(
                    p,
                    centroids[last],
                ) <= spec_squared_distance(p, #[trigger] centroids[j]) by {
                    if j < last {
                        assert(front[j] == centroids[j]);
                    }
                }
                assert forall|j: int| 0 <= j < last implies spec_squared_distance(
                    p,
                    centroids[last],
                ) < spec_squared_distance(p, #[trigger] centroids[j]) by {
                    assert(front[j] == centroids[j]);
                }
            }
        } else {
            assert(is_nearest(p, centroids, b)) by {
                assert forall|j: int| 0 <= j < centroids.len() implies spec_squared_distance(
                    p,
                    centroids[b],
                ) <= spec_squared_distance(p, #[trigger] centroids[j]) by {
                    if j < last {
                        assert(front[j] == centroids[j]);
                    }
                }
                assert forall|j: int| 0 <= j < b implies spec_squared_distance(p, centroids[b])
                    < spec_squared_distance(p, #[trigger] centroids[j]) by {
                    assert(front[j] == centroids[j]);
                }
            }
        }
    }
}

/// The squared distance is symmetric and never negative, and it is zero
/// exactly between a point and itself.
pub proof fn lemma_squared_distance_metric(p: Point, q: Point)
    ensures
        spec_squared_distance(p, q) == spec_squared_distance(q, p),
        spec_squared_distance(p, q) >= 0,
        spec_squared_distance(p, q) == 0 <==> p == q,
{
    let dx = p.x - q.x;
    let dy = p.y - q.y;
    assert(dx * dx == (-dx) * (-dx)) by (nonlinear_arith);
    assert(dy * dy == (-dy) * (-dy)) by (nonlinear_arith);
    assert(dx * dx >= 0 && (dx * dx == 0 <==> dx == 0)) by (nonlinear_arith);
    assert(dy * dy >= 0 && (dy * dy == 0 <==> dy == 0)) by (nonlinear_arith);
}

/// Of two centroids at the same distance from `p`, the later one is never
/// the nearest: a tie goes to the lower index.
pub proof fn lemma_tie_goes_to_lower_index(p: Point, centroids: Seq<Point>, i: int, j: int)
    requires
        0 <= i < j < centroids.len(),
        spec_squared_distance(p, centroids[i]) == spec_squared_distance(p, centroids[j]),
    ensures
        nearest_index(p, centroids) != j,
{
    lemma_nearest_exists(p, centroids);
    if nearest_index(p, centroids) == j {
        assert(spec_squared_distance(p, centroids[j]) < spec_squared_distance(p, centroids[i]));
    }
}

/// Between two clusters with the same centroid, every point goes to the
/// first.
pub proof fn lemma_identical_pair_picks_first(p: Point, c: Point)
    ensures
        nearest_index(p, seq![c, c]) == 0,
{
    let centroids = seq![c, c];
    lemma_nearest_exists(p, centroids);
    lemma_tie_goes_to_lower_index(p, centroids, 0, 1);
}

impl Point {
    /// Draws a point whose coordinates lie in `[left, right]` and
    /// `[bottom, top]`, each drawn on its own from `rng`.
    pub fn new_random_within_range(
        rng: &mut StdRng,
        left: i32,
        right: i32,
        bottom: i32,
        top: i32,
    ) -> (p: Point)
        requires
            left <= right,
            bottom <= top,
        ensures
            within(p, left, right, bottom, top),
    {
        let x: i32 = draw_in_range(rng, left, right);
        let y: i32 = draw_in_range(rng, bottom, top);
        Point { x, y }
    }

    /// The squared Euclidean distance between two points. It keeps the order
    /// of the true distances and needs no square root.
    pub fn squared_distance(p1: &Point, p2: &Point) -> (d: u128)
        ensures
            d == spec_squared_distance(*p1, *p2),
    {
        let dx: i64 = p1.x as i64 - p2.x as i64;
        let dy: i64 = p1.y as i64 - p2.y as i64;
        assert(0 <= dx * dx <= 0xffff_ffff * 0xffff_ffff) by (nonlinear_arith)
            requires
                -0xffff_ffff <= dx <= 0xffff_ffff,
        ;
        assert(0 <= dy * dy <= 0xffff_ffff * 0xffff_ffff) by (nonlinear_arith)
            requires
                -0xffff_ffff <= dy <= 0xffff_ffff,
        ;
        let sx: i128 = (dx as i128) * (dx as i128);
        let sy: i128 = (dy as i128) * (dy as i128);
        (sx + sy) as u128
    }

    /// The index of the cluster whose centroid is nearest to this point. The
    /// scan runs from the left and replaces its best only on a strictly
    /// smaller distance, so the lowest index wins a tie.
    pub fn find_best_cluster(&self, clusters: &Vec<Cluster>) -> (best: usize)
        requires
            clusters.len() >= 1,
        ensures
            is_nearest(*self, centroids(clusters@), best as int),
            best as int == nearest_index(*self, centroids(clusters@)),
    {
        let mut best_idx: usize = 0;
        let mut best_distance: u128 = Point::squared_distance(self, &clusters[0].centroid);
        let mut i: usize = 1;
        while i < clusters.len()
            invariant
                1 <= i <= clusters.len(),
                best_idx < i,
                best_distance == spec_squared_distance(*self, centroids(clusters@)[best_idx as int]),
                forall|j: int|
                    0 <= j < i ==> best_distance <= spec_squared_distance(
                        *self,
                        #[trigger] centroids(clusters@)[j],
                    ),
                forall|j: int|
                    0 <= j < best_idx ==> best_distance < spec_squared_distance(
                        *self,
                        #[trigger] centroids(clusters@)[j],
                    ),
            decreases clusters.len() - i,
        {
            let current: u128 = Point::squared_distance(self, &clusters[i].centroid);
            if current < best_distance {
                best_distance = current;
                best_idx = i;
            }
            i += 1;
        }
        proof {
            lemma_nearest_is(*self, centroids(clusters@), best_idx as int);
        }
        best_idx
    }
}

} // verus!
