//! The assignment phase: the point set is cut into contiguous chunks, every
//! point of a chunk is matched with its nearest centroid, and the decisions
//! are then placed into the clusters.

use crate::cluster::{centroids, Cluster};
use crate::point::{nearest_index, Point};
use vstd::arithmetic::div_mod::lemma_fundamental_div_mod;
use vstd::prelude::*;

verus! {

/// The length of every chunk but the last ones when `n` points are cut into
/// `t` chunks: `n / t`, rounded up.
pub open spec fn spec_chunk_len(n: int, t: int) -> int {
    if n % t == 0 {
        n / t
    } else {
        n / t + 1
    }
}

/// Where chunk `i` of `t` begins among `n` points. Chunk `i` is the range
/// from `chunk_start(n, t, i)` up to `chunk_start(n, t, i + 1)`.
pub open spec fn chunk_start(n: int, t: int, i: int) -> int {
    if i * spec_chunk_len(n, t) < n {
        i * spec_chunk_len(n, t)
    } else {
        n
    }
}

/// The chunks split `0..n` in order and without gaps: the first begins at 0,
/// the last ends at `n`, each begins where the one before ended, and none is
/// longer than `spec_chunk_len(n, t)`.
pub proof fn lemma_chunks_cover(n: int, t: int)
    requires
        n >= 0,
        t >= 1,
    ensures
        spec_chunk_len(n, t) >= 0,
        chunk_start(n, t, 0) == 0,
        chunk_start(n, t, t) == n,
        forall|i: int|
            0 <= i ==> 0 <= #[trigger] chunk_start(n, t, i) <= chunk_start(n, t, i + 1) <= n
                && chunk_start(n, t, i + 1) - chunk_start(n, t, i) <= spec_chunk_len(n, t),
{
    let len = spec_chunk_len(n, t);
    lemma_fundamental_div_mod(n, t);
    assert(0 <= n / t) by (nonlinear_arith)
        requires
            n >= 0,
            t >= 1,
    ;
    assert(t * len >= n) by (nonlinear_arith)
        requires
            n == t * (n / t) + (n % t),
            0 <= n % t < t,
            len == if n % t == 0 {
                n / t
            } else {
                n / t + 1
            },
    ;
    assert(0 * len == 0) by (nonlinear_arith);
    assert forall|i: int| 0 <= i implies 0 <= #[trigger] chunk_start(n, t, i) <= chunk_start(
        n,
        t,
        i + 1,
    ) <= n && chunk_start(n, t, i + 1) - chunk_start(n, t, i) <= len by {
        assert((i + 1) * len == i * len + len) by (nonlinear_arith);
        assert(i * len >= 0) by (nonlinear_arith)
            requires
                i >= 0,
                len >= 0,
        ;
    }
}

/// What the assignment phase decides for `points`: each point, in order,
/// with the index of its nearest centroid.
pub open spec fn assignment(points: Seq<Point>, centroids: Seq<Point>) -> Seq<(Point, int)> {
    Seq::new(points.len(), |i: int| (points[i], nearest_index(points[i], centroids)))
}

/// The decisions of a worker as plain values: the point behind each
/// reference, and the cluster index.
pub open spec fn decisions(out: Seq<(&Point, usize)>) -> Seq<(Point, int)> {
    Seq::new(out.len(), |i: int| (*out[i].0, out[i].1 as int))
}

/// Deciding for `a` followed by `b` is deciding for `a`, then for `b`.
pub proof fn lemma_assignment_concat(a: Seq<Point>, b: Seq<Point>, centroids: Seq<Point>)
    ensures
        assignment(a + b, centroids) == assignment(a, centroids) + assignment(b, centroids),
{
    assert(assignment(a + b, centroids) =~= assignment(a, centroids) + assignment(b, centroids));
}

/// The plain values of two runs of decisions, one after the other.
pub proof fn lemma_decisions_concat(a: Seq<(&Point, usize)>, b: Seq<(&Point, usize)>)
    ensures
        decisions(a + b) == decisions(a) + decisions(b),
{
    assert(decisions(a + b) =~= decisions(a) + decisions(b));
}

/// Whether a decision sends its point to cluster `j`.
pub open spec fn goes_to(j: int) -> spec_fn((Point, int)) -> bool {
    |d: (Point, int)| d.1 == j
}

/// The points that the decisions `ds` send to cluster `j`, in the order of
/// `ds`.
pub open spec fn assigned_to(ds: Seq<(Point, int)>, j: int) -> Seq<Point> {
    ds.filter(goes_to(j)).map_values(|d: (Point, int)| d.0)
}

/// Whether `j` is the index of the centroid nearest to a point.
pub open spec fn nearest_is(centroids: Seq<Point>, j: int) -> spec_fn(Point) -> bool {
    |p: Point| nearest_index(p, centroids) == j
}

/// The points of `points` whose nearest centroid is `centroids[j]`, in the
/// order of `points`: the members of cluster `j` after an assignment phase.
pub open spec fn members_of(points: Seq<Point>, centroids: Seq<Point>, j: int) -> Seq<Point> {
    points.filter(nearest_is(centroids, j))
}

/// No decisions send no points.
pub proof fn lemma_assigned_to_none(j: int)
    ensures
        assigned_to(Seq::<(Point, int)>::empty(), j) == Seq::<Point>::empty(),
{
    reveal(Seq::filter);
    assert(assigned_to(Seq::<(Point, int)>::empty(), j) =~= Seq::<Point>::empty());
}

/// One more decision adds its point to the cluster it names and to no
/// other.
pub proof fn lemma_assigned_to_push(ds: Seq<(Point, int)>, d: (Point, int), j: int)
    ensures
        assigned_to(ds.push(d), j) == if d.1 == j {
            assigned_to(ds, j).push(d.0)
        } else {
            assigned_to(ds, j)
        },
{
    reveal(Seq::filter);
    let more = ds.push(d);
    assert(more.drop_last() =~= ds);
    assert(more.last() == d);
    if d.1 == j {
        assert(more.filter(goes_to(j)) == ds.filter(goes_to(j)).push(d));
        assert(assigned_to(more, j) =~= assigned_to(ds, j).push(d.0));
    } else {
        assert(more.filter(goes_to(j)) == ds.filter(goes_to(j)));
    }
}

/// Placing the decisions of an assignment phase gives cluster `j` exactly
/// the points whose nearest centroid it holds.
pub proof fn lemma_assigned_are_members(points: Seq<Point>, centroids: Seq<Point>, j: int)
    ensures
        assigned_to(assignment(points, centroids), j) == members_of(points, centroids, j),
    decreases points.len(),
{
    reveal(Seq::filter);
    if points.len() == 0 {
        assert(assignment(points, centroids) =~= Seq::<(Point, int)>::empty());
        lemma_assigned_to_none(j);
    } else {
        let front = points.drop_last();
        let p = points.last();
        let d = (p, nearest_index(p, centroids));
        lemma_assigned_are_members(front, centroids, j);
        assert(assignment(points, centroids) =~= assignment(front, centroids).push(d));
        lemma_assigned_to_push(assignment(front, centroids), d, j);
    }
}

/// The length of each chunk when `n` points are shared among `num_threads`
/// workers.
pub fn chunk_len(n: usize, num_threads: usize) -> (len: usize)
    requires
        num_threads >= 1,
    ensures
        len == spec_chunk_len(n as int, num_threads as int),
{
    let whole: usize = n / num_threads;
    if n % num_threads == 0 {
        whole
    } else {
        assert(whole < n) by (nonlinear_arith)
            requires
                whole == n / num_threads,
                n % num_threads != 0,
                num_threads >= 1,
        ;
        whole + 1
    }
}

/// The `num_threads` chunks of `0..n` as pairs of a start and an end, the
/// end not included. The split goes by position alone; chunks at the end
/// may be shorter than the others, or empty.
pub fn chunk_ranges(n: usize, num_threads: usize) -> (ranges: Vec<(usize, usize)>)
    requires
        num_threads >= 1,
    ensures
        ranges.len() == num_threads,
        forall|i: int|
            0 <= i < num_threads ==> (#[trigger] ranges[i]).0 == chunk_start(
                n as int,
                num_threads as int,
                i,
            ) && ranges[i].1 == chunk_start(n as int, num_threads as int, i + 1),
        ranges[0].0 == 0,
        ranges[num_threads - 1].1 == n,
        forall|i: int| 0 <= i < num_threads ==> (#[trigger] ranges[i]).0 <= ranges[i].1 <= n,
{
    let len: usize = chunk_len(n, num_threads);
    let mut ranges: Vec<(usize, usize)> = Vec::new();
    let mut start: usize = 0;
    let mut i: usize = 0;
    proof {
        lemma_chunks_cover(n as int, num_threads as int);
    }
    while i < num_threads
        invariant
            i <= num_threads,
            ranges.len() == i,
            len == spec_chunk_len(n as int, num_threads as int),
            start == chunk_start(n as int, num_threads as int, i as int),
            start <= n,
            forall|k: int|
                0 <= k < i ==> (#[trigger] ranges[k]).0 == chunk_start(
                    n as int,
                    num_threads as int,
                    k,
                ) && ranges[k].1 == chunk_start(n as int, num_threads as int, k + 1),
        decreases num_threads - i,
    {
        let end: usize = if n - start < len {
            n
        } else {
            start + len
        };
        proof {
            assert((i + 1) * len == i * len + len) by (nonlinear_arith);
            assert(i * len >= 0) by (nonlinear_arith);
        }
        ranges.push((start, end));
        start = end;
        i += 1;
    }
    ranges
}

/// The work of one worker: for each point of `points[start..end]`, in
/// order, a reference to it and the index of its nearest cluster. The
/// clusters are only read.
pub fn assign_chunk<'a>(
    points: &'a Vec<Point>,
    start: usize,
    end: usize,
    clusters: &Vec<Cluster>,
) -> (out: Vec<(&'a Point, usize)>)
    requires
        start <= end <= points.len(),
        clusters.len() >= 1,
    ensures
        decisions(out@) == assignment(
            points@.subrange(start as int, end as int),
            centroids(clusters@),
        ),
        forall|i: int| 0 <= i < out.len() ==> (#[trigger] out[i]).1 < clusters.len(),
{
    let mut out: Vec<(&'a Point, usize)> = Vec::new();
    let mut i: usize = start;
    while i < end
        invariant
            start <= i <= end <= points.len(),
            clusters.len() >= 1,
            decisions(out@) == assignment(
                points@.subrange(start as int, i as int),
                centroids(clusters@),
            ),
            forall|k: int| 0 <= k < out.len() ==> (#[trigger] out[k]).1 < clusters.len(),
        decreases end - i,
    {
        let point: &'a Point = &points[i];
        let best: usize = point.find_best_cluster(clusters);
        let ghost before = out@;
        out.push((point, best));
        proof {
            let cs = centroids(clusters@);
            let done = points@.subrange(start as int, i as int);
            let one = seq![*point];
            assert(points@.subrange(start as int, i + 1) =~= done + one);
            lemma_assignment_concat(done, one, cs);
            assert(out@ =~= before + seq![(point, best)]);
            lemma_decisions_concat(before, seq![(point, best)]);
            assert(decisions(seq![(point, best)]) =~= assignment(one, cs));
        }
        i += 1;
    }
    out
}

/// The whole assignment phase, one chunk after the other: for each point of
/// `points`, in order, a reference to it and the index of its nearest
/// cluster. How many chunks the points are cut into has no bearing on what
/// comes out.
pub fn assign_points<'a>(points: &'a Vec<Point>, clusters: &Vec<Cluster>, num_threads: usize) -> (out:
    Vec<(&'a Point, usize)>)
    requires
        clusters.len() >= 1,
        num_threads >= 1,
    ensures
        decisions(out@) == assignment(points@, centroids(clusters@)),
        forall|i: int| 0 <= i < out.len() ==> (#[trigger] out[i]).1 < clusters.len(),
{
    let ranges: Vec<(usize, usize)> = chunk_ranges(points.len(), num_threads);
    let mut out: Vec<(&'a Point, usize)> = Vec::new();
    let mut c: usize = 0;
    let ghost n = points.len() as int;
    let ghost t = num_threads as int;
    proof {
        lemma_chunks_cover(n, t);
        assert(decisions(out@) =~= assignment(points@.take(0), centroids(clusters@)));
    }
    while c < num_threads
        invariant
            c <= num_threads,
            clusters.len() >= 1,
            n == points.len(),
            t == num_threads,
            ranges.len() == num_threads,
            forall|i: int|
                0 <= i < num_threads ==> (#[trigger] ranges[i]).0 == chunk_start(n, t, i)
                    && ranges[i].1 == chunk_start(n, t, i + 1),
            forall|i: int| 0 <= i < num_threads ==> (#[trigger] ranges[i]).0 <= ranges[i].1 <= n,
            decisions(out@) == assignment(
                points@.take(chunk_start(n, t, c as int)),
                centroids(clusters@),
            ),
            forall|k: int| 0 <= k < out.len() ==> (#[trigger] out[k]).1 < clusters.len(),
        decreases num_threads - c,
    {
        let range: (usize, usize) = ranges[c];
        let mut part: Vec<(&'a Point, usize)> = assign_chunk(points, range.0, range.1, clusters);
        let ghost before = out@;
        let ghost added = part@;
        out.append(&mut part);
        proof {
            let cs = centroids(clusters@);
            let lo = chunk_start(n, t, c as int);
            let hi = chunk_start(n, t, c + 1);
            assert(out@ =~= before + added);
            assert(points@.take(hi) =~= points@.take(lo) + points@.subrange(lo, hi));
            lemma_decisions_concat(before, added);
            lemma_assignment_concat(points@.take(lo), points@.subrange(lo, hi), cs);
        }
        c += 1;
    }
    proof {
        assert(points@.take(n) =~= points@);
    }
    out
}

/// Empties the member list of every cluster. The centroids stay.
pub fn clear_all(clusters: &mut Vec<Cluster>)
    ensures
        final(clusters).len() == old(clusters).len(),
        centroids(final(clusters)@) == centroids(old(clusters)@),
        forall|j: int|
            0 <= j < final(clusters).len() ==> (#[trigger] final(clusters)[j]).members()
                == Seq::<Point>::empty(),
{
    let ghost before = clusters@;
    let mut j: usize = 0;
    while j < clusters.len()
        invariant
            j <= clusters.len(),
            clusters.len() == before.len(),
            centroids(clusters@) =~= centroids(before),
            forall|k: int| 0 <= k < j ==> (#[trigger] clusters[k]).members() == Seq::<Point>::empty(),
        decreases clusters.len() - j,
    {
        clusters[j].clear_points();
        j += 1;
    }
}

/// Appends the point of each decision to the member list of the cluster
/// that the decision names, in the order of `assignments`. The decisions may
/// come in any order; no centroid changes.
pub fn place_assignments<'a>(clusters: &mut Vec<Cluster<'a>>, assignments: &Vec<(&'a Point, usize)>)
    requires
        forall|i: int|
            0 <= i < assignments.len() ==> (#[trigger] assignments[i]).1 < old(clusters).len(),
    ensures
        final(clusters).len() == old(clusters).len(),
        centroids(final(clusters)@) == centroids(old(clusters)@),
        forall|j: int|
            0 <= j < final(clusters).len() ==> (#[trigger] final(clusters)[j]).members() == old(
                clusters,
            )[j].members() + assigned_to(decisions(assignments@), j),
{
    let ghost before = clusters@;
    let ghost ds = decisions(assignments@);
    let mut i: usize = 0;
    proof {
        assert(ds.take(0) =~= Seq::<(Point, int)>::empty());
        assert forall|j: int| 0 <= j < clusters.len() implies (#[trigger] clusters[j]).members()
            == before[j].members() + assigned_to(ds.take(0), j) by {
            lemma_assigned_to_none(j);
            assert(before[j].members() + Seq::<Point>::empty() =~= before[j].members());
        }
    }
    while i < assignments.len()
        invariant
            i <= assignments.len(),
            clusters.len() == before.len(),
            ds == decisions(assignments@),
            forall|k: int|
                0 <= k < assignments.len() ==> (#[trigger] assignments[k]).1 < clusters.len(),
            centroids(clusters@) =~= centroids(before),
            forall|j: int|
                0 <= j < clusters.len() ==> (#[trigger] clusters[j]).members() == before[j].members()
                    + assigned_to(ds.take(i as int), j),
        decreases assignments.len() - i,
    {
        let decision: (&'a Point, usize) = assignments[i];
        let ghost earlier = clusters@;
        clusters[decision.1].points.push(decision.0);
        proof {
            let d = (*decision.0, decision.1 as int);
            assert(ds.take(i + 1) =~= ds.take(i as int).push(d));
            assert forall|j: int| 0 <= j < clusters.len() implies (#[trigger] clusters[j]).members()
                == before[j].members() + assigned_to(ds.take(i + 1), j) by {
                lemma_assigned_to_push(ds.take(i as int), d, j);
                if j == decision.1 {
                    assert(clusters[j].members() =~= earlier[j].members().push(d.0));
                    assert(clusters[j].members() =~= before[j].members() + assigned_to(
                        ds.take(i + 1),
                        j,
                    ));
                } else {
                    assert(clusters[j] == earlier[j]);
                }
            }
        }
        i += 1;
    }
    proof {
        assert(ds.take(assignments.len() as int) =~= ds);
    }
}

} // verus!
