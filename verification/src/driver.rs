//! The convergence loop: clusters are seeded at random, then points are
//! assigned and centroids recomputed, pass after pass, until the centroids
//! stop moving or the cap on the number of passes is reached.

use crate::assignment::{assign_points, decisions};
use crate::cluster::{centroids, Cluster};
use crate::config::{check_parameters, refused_for, valid_parameters, ConfigError};
use crate::partition::{
    all_members, decided_points, lemma_all_members_of_empty_lists, memberships, memberships_of,
    placed,
};
use crate::pass::{
    collect_pass, has_converged, lemma_change_nonnegative, lemma_in_order_pass, moved_by,
    next_centroids, saturated, total_change, EPSILON,
};
use crate::point::{within, Point};
use rand::rngs::StdRng;
use vstd::multiset::Multiset;
use vstd::prelude::*;

verus! {

/// The centroids after `n` passes over `points` that began with `start`.
pub open spec fn centroids_after(points: Seq<Point>, start: Seq<Point>, n: nat) -> Seq<Point>
    decreases n,
{
    if n == 0 {
        start
    } else {
        next_centroids(points, centroids_after(points, start, (n - 1) as nat))
    }
}

/// Whether pass `n`, counted from 1, moves the centroids by no more than
/// `EPSILON` in total.
pub open spec fn settles_in_pass(points: Seq<Point>, start: Seq<Point>, n: nat) -> bool {
    n >= 1 && total_change(
        centroids_after(points, start, (n - 1) as nat),
        centroids_after(points, start, n),
    ) <= EPSILON
}

/// The states of the loop.
#[derive(Clone, Copy, Debug, PartialEq, Eq, Structural)]
pub enum Phase {
    /// Another pass is due.
    Assigning,
    /// The last pass moved the centroids by no more than `EPSILON`.
    Converged,
    /// The cap on the number of passes was reached before any pass
    /// settled.
    IterationLimit,
}

/// The loop between two passes: the clusters, the total movement of the
/// centroids in the last pass, and the count of passes against its cap.
#[derive(Debug)]
pub struct Driver<'a> {
    pub clusters: Vec<Cluster<'a>>,
    pub change: u128,
    pub iterations: usize,
    pub max_iterations: usize,
}

/// What the loop hands back: the clusters as the last pass left them, the
/// number of passes made, and whether the last pass settled.
#[derive(Debug)]
pub struct Clustering<'a> {
    pub clusters: Vec<Cluster<'a>>,
    pub iterations: usize,
    pub converged: bool,
}

/// Whether `out` is what the loop yields for `points` when the centroids
/// begin as `start` and at most `max_iterations` passes are made: the loop
/// stops after the first pass that settles, or at the cap; the centroids are
/// those after that many passes, and the member lists are those of the last
/// pass, which partition `points`.
pub open spec fn follows(
    out: Clustering,
    points: Seq<Point>,
    start: Seq<Point>,
    max_iterations: nat,
) -> bool {
    let n = out.iterations as nat;
    &&& out.clusters@.len() == start.len()
    &&& n <= max_iterations
    &&& forall|m: nat| 1 <= m < n ==> !settles_in_pass(points, start, m)
    &&& out.converged <==> settles_in_pass(points, start, n)
    &&& !out.converged ==> n == max_iterations
    &&& centroids(out.clusters@) == centroids_after(points, start, n)
    &&& n >= 1 ==> memberships(out.clusters@) == memberships_of(
        points,
        centroids_after(points, start, (n - 1) as nat),
    )
    &&& n >= 1 ==> all_members(memberships(out.clusters@)) == points.to_multiset()
}

/// Whether `start` is a seeding of `k` centroids inside the box
/// `[left, right] x [bottom, top]`.
pub open spec fn seeded_within(
    start: Seq<Point>,
    k: nat,
    left: i32,
    right: i32,
    bottom: i32,
    top: i32,
) -> bool {
    &&& start.len() == k
    &&& forall|j: int| 0 <= j < k ==> within(#[trigger] start[j], left, right, bottom, top)
}

/// The loop has one outcome for a point set and a start: two results that
/// follow from the same points and the same starting centroids agree on
/// the number of passes, on whether the last one settled, on the centroids
/// and on the member lists. No number of workers can tell them apart.
pub proof fn lemma_outcome_unique(
    a: Clustering,
    b: Clustering,
    points: Seq<Point>,
    start: Seq<Point>,
    max_iterations: nat,
)
    requires
        follows(a, points, start, max_iterations),
        follows(b, points, start, max_iterations),
    ensures
        a.iterations == b.iterations,
        a.converged == b.converged,
        centroids(a.clusters@) == centroids(b.clusters@),
        a.iterations >= 1 ==> memberships(a.clusters@) == memberships(b.clusters@),
{
    let n = a.iterations as nat;
    let m = b.iterations as nat;
    if n < m {
        assert(!a.converged ==> n == max_iterations);
        assert(a.converged ==> settles_in_pass(points, start, n));
    } else if m < n {
        assert(!b.converged ==> m == max_iterations);
        assert(b.converged ==> settles_in_pass(points, start, m));
    }
}

/// `num_clusters` clusters without members, each with a centroid drawn from
/// `rng` inside the box `[left, right] x [bottom, top]`.
pub fn initial_clusters<'a>(
    rng: &mut StdRng,
    num_clusters: usize,
    left: i32,
    right: i32,
    bottom: i32,
    top: i32,
) -> (clusters: Vec<Cluster<'a>>)
    requires
        left <= right,
        bottom <= top,
    ensures
        seeded_within(centroids(clusters@), num_clusters as nat, left, right, bottom, top),
        forall|j: int| 0 <= j < clusters.len() ==> (#[trigger] clusters[j]).members().len() == 0,
{
    let mut clusters: Vec<Cluster<'a>> = Vec::with_capacity(num_clusters);
    let mut j: usize = 0;
    while j < num_clusters
        invariant
            j <= num_clusters,
            clusters.len() == j,
            left <= right,
            bottom <= top,
            forall|k: int|
                0 <= k < j ==> within((#[trigger] clusters[k]).centroid, left, right, bottom, top)
                    && clusters[k].members().len() == 0,
        decreases num_clusters - j,
    {
        let cluster: Cluster<'a> = Cluster::new_random(rng, left, right, bottom, top);
        clusters.push(cluster);
        j += 1;
    }
    clusters
}

impl<'a> Driver<'a> {
    /// The state of the loop, read off the last change and the count of
    /// passes: converged once a pass moved the centroids by no more than
    /// `EPSILON`, at the limit once the cap is reached without that, and
    /// assigning otherwise.
    pub open spec fn spec_phase(&self) -> Phase {
        if self.change <= EPSILON {
            Phase::Converged
        } else if self.iterations >= self.max_iterations {
            Phase::IterationLimit
        } else {
            Phase::Assigning
        }
    }

    /// Enters the loop with the given clusters. No pass has been made, and
    /// the last change stands at `u128::MAX`, above every threshold.
    pub fn new(clusters: Vec<Cluster<'a>>, max_iterations: usize) -> (driver: Self)
        ensures
            driver.clusters == clusters,
            driver.change == u128::MAX,
            driver.iterations == 0,
            driver.max_iterations == max_iterations,
    {
        Driver { clusters, change: u128::MAX, iterations: 0, max_iterations }
    }

    /// The state the loop is in.
    pub fn phase(&self) -> (phase: Phase)
        ensures
            phase == self.spec_phase(),
    {
        if has_converged(self.change) {
            Phase::Converged
        } else if self.iterations >= self.max_iterations {
            Phase::IterationLimit
        } else {
            Phase::Assigning
        }
    }

    /// Takes in the decisions of one assignment phase, in whatever order
    /// they arrived, as `collect_pass` does, and counts the pass.
    pub fn absorb(&mut self, arrivals: &Vec<(&'a Point, usize)>)
        requires
            old(self).spec_phase() == Phase::Assigning,
            forall|i: int|
                0 <= i < arrivals.len() ==> (#[trigger] arrivals[i]).1 < old(self).clusters.len(),
        ensures
            final(self).clusters.len() == old(self).clusters.len(),
            memberships(final(self).clusters@) == placed(
                decisions(arrivals@),
                old(self).clusters.len() as int,
            ),
            centroids(final(self).clusters@) == moved_by(
                decisions(arrivals@),
                centroids(old(self).clusters@),
            ),
            final(self).change == saturated(
                total_change(centroids(old(self).clusters@), centroids(final(self).clusters@)),
            ),
            all_members(memberships(final(self).clusters@)) == decided_points(
                decisions(arrivals@),
            ).to_multiset(),
            final(self).iterations == old(self).iterations + 1,
            final(self).max_iterations == old(self).max_iterations,
    {
        self.change = collect_pass(&mut self.clusters, arrivals);
        self.iterations = self.iterations + 1;
    }

    /// Leaves the loop with the clusters as they are.
    pub fn finish(self) -> (out: Clustering<'a>)
        ensures
            out.clusters == self.clusters,
            out.iterations == self.iterations,
            out.converged == (self.change <= EPSILON),
    {
        let converged: bool = has_converged(self.change);
        Clustering { clusters: self.clusters, iterations: self.iterations, converged }
    }
}

/// Runs the loop from the given clusters: passes are made until one moves
/// the centroids by no more than `EPSILON` in total, or until
/// `max_iterations` passes have been made. With `max_iterations` 0 the
/// clusters come back as they were.
///
/// The result is a function of the points and the starting centroids alone:
/// `num_threads` has no part in it.
pub fn refine<'a>(
    points: &'a Vec<Point>,
    clusters: Vec<Cluster<'a>>,
    num_threads: usize,
    max_iterations: usize,
) -> (out: Clustering<'a>)
    requires
        clusters.len() >= 1,
        num_threads >= 1,
    ensures
        follows(out, points@, centroids(clusters@), max_iterations as nat),
        out.iterations == 0 ==> out.clusters@ == clusters@,
{
    let ghost initial = clusters@;
    let ghost start = centroids(clusters@);
    let mut driver: Driver<'a> = Driver::new(clusters, max_iterations);
    while driver.phase() == Phase::Assigning
        invariant
            driver.clusters.len() == start.len(),
            start.len() >= 1,
            num_threads >= 1,
            driver.max_iterations == max_iterations,
            driver.iterations <= max_iterations,
            forall|m: nat| 1 <= m < driver.iterations ==> !settles_in_pass(points@, start, m),
            driver.change <= EPSILON <==> settles_in_pass(points@, start, driver.iterations as nat),
            centroids(driver.clusters@) == centroids_after(points@, start, driver.iterations as nat),
            driver.iterations >= 1 ==> memberships(driver.clusters@) == memberships_of(
                points@,
                centroids_after(points@, start, (driver.iterations - 1) as nat),
            ),
            driver.iterations >= 1 ==> all_members(memberships(driver.clusters@))
                == points@.to_multiset(),
            driver.iterations == 0 ==> driver.clusters@ == initial,
        decreases max_iterations - driver.iterations,
    {
        let ghost before = centroids(driver.clusters@);
        let arrivals: Vec<(&'a Point, usize)> = assign_points(points, &driver.clusters, num_threads);
        driver.absorb(&arrivals);
        proof {
            lemma_in_order_pass(points@, before);
            lemma_change_nonnegative(before, centroids(driver.clusters@), before.len());
        }
    }
    driver.finish()
}

/// Clusters `points` into `num_clusters` clusters: the centroids are seeded
/// from `rng` inside the box `[left, right] x [bottom, top]`, and the loop
/// then runs as in `refine`.
pub fn cluster_points<'a>(
    rng: &mut StdRng,
    points: &'a Vec<Point>,
    num_clusters: usize,
    left: i32,
    right: i32,
    bottom: i32,
    top: i32,
    num_threads: usize,
    max_iterations: usize,
) -> (out: Clustering<'a>)
    requires
        valid_parameters(num_clusters, num_threads, left, right, bottom, top),
    ensures
        exists|start: Seq<Point>|
            seeded_within(start, num_clusters as nat, left, right, bottom, top) && #[trigger] follows(
                out,
                points@,
                start,
                max_iterations as nat,
            ),
        out.clusters.len() == num_clusters,
        all_members(memberships(out.clusters@)) == if out.iterations == 0 {
            Multiset::<Point>::empty()
        } else {
            points@.to_multiset()
        },
{
    let clusters: Vec<Cluster<'a>> = initial_clusters(rng, num_clusters, left, right, bottom, top);
    proof {
        lemma_all_members_of_empty_lists(memberships(clusters@));
    }
    let out = refine(points, clusters, num_threads, max_iterations);
    assert(follows(out, points@, centroids(clusters@), max_iterations as nat));
    out
}

/// As `cluster_points`, for parameters that were not tested yet: a set that
/// the loop cannot be entered with is refused before any work is done.
pub fn try_cluster_points<'a>(
    rng: &mut StdRng,
    points: &'a Vec<Point>,
    num_clusters: usize,
    left: i32,
    right: i32,
    bottom: i32,
    top: i32,
    num_threads: usize,
    max_iterations: usize,
) -> (tried: Result<Clustering<'a>, ConfigError>)
    ensures
        tried is Ok <==> valid_parameters(num_clusters, num_threads, left, right, bottom, top),
        tried matches Ok(out) ==> out.clusters.len() == num_clusters && (exists|start: Seq<Point>|
            seeded_within(start, num_clusters as nat, left, right, bottom, top) && #[trigger] follows(
                out,
                points@,
                start,
                max_iterations as nat,
            )) && all_members(memberships(out.clusters@)) == if out.iterations == 0 {
            Multiset::<Point>::empty()
        } else {
            points@.to_multiset()
        },
        tried matches Err(error) ==> refused_for(
            error,
            num_clusters,
            num_threads,
            left,
            right,
            bottom,
            top,
        ) && *final(rng) == *old(rng),
{
    match check_parameters(num_clusters, num_threads, left, right, bottom, top) {
        Err(e) => Err(e),
        Ok(()) => Ok(
            cluster_points(
                rng,
                points,
                num_clusters,
                left,
                right,
                bottom,
                top,
                num_threads,
                max_iterations,
            ),
        ),
    }
}

} // verus!
