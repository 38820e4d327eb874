//! One-dimensional k-means clustering of latencies.
//!
//! Latencies are whole nanoseconds, and so are the centroids: a mean is rounded down.

use vstd::prelude::*;

use crate::order::{
    insert_by, lemma_insert_by, lemma_insert_position, lemma_sort_by, lemma_sort_by_no_duplicates,
    sort_by, sorted_by,
};

verus! {

/// The most rounds of assigning samples and moving centroids.
pub const KMEANS_ITERATIONS: usize = 20;

/// One more than the most centroids that a clustering can have: so many counters of eight
/// bytes fill the address space of a 64-bit machine.
pub const MAX_CENTROIDS: u64 = 0x1000_0000_0000_0000;

/// How far two latencies are apart.
pub open spec fn gap(a: u64, b: u64) -> nat {
    if a >= b {
        (a - b) as nat
    } else {
        (b - a) as nat
    }
}

/// Whether `i` is the nearest of the centers to a value, and the first such.
pub open spec fn is_nearest(value: u64, centers: Seq<u64>, i: int) -> bool {
    &&& 0 <= i < centers.len()
    &&& forall|j: int|
        0 <= j < centers.len() ==> gap(value, centers[i]) <= gap(value, #[trigger] centers[j])
    &&& forall|j: int| 0 <= j < i ==> gap(value, centers[i]) < gap(value, #[trigger] centers[j])
}

/// The index of the nearest center.
pub open spec fn nearest(value: u64, centers: Seq<u64>) -> int {
    choose|i: int| is_nearest(value, centers, i)
}

/// The nearest center of each sample.
pub open spec fn assigned(samples: Seq<u64>, centers: Seq<u64>) -> Seq<usize> {
    Seq::new(samples.len(), |i: int| nearest(samples[i], centers) as usize)
}

/// How many of the first `n` samples are assigned to a center.
pub open spec fn member_count(assignments: Seq<usize>, center: int, n: nat) -> nat
    decreases n,
{
    if n == 0 {
        0
    } else {
        member_count(assignments, center, (n - 1) as nat) + if assignments[n - 1] == center {
            1nat
        } else {
            0nat
        }
    }
}

/// The sum of those of the first `n` samples that are assigned to a center.
pub open spec fn member_sum(samples: Seq<u64>, assignments: Seq<usize>, center: int, n: nat) -> nat
    decreases n,
{
    if n == 0 {
        0
    } else {
        member_sum(samples, assignments, center, (n - 1) as nat) + if assignments[n - 1] == center {
            samples[n - 1] as nat
        } else {
            0nat
        }
    }
}

/// The centers moved to the mean of their samples; a center without samples stays.
pub open spec fn recentered(
    samples: Seq<u64>,
    centers: Seq<u64>,
    assignments: Seq<usize>,
) -> Seq<u64> {
    Seq::new(
        centers.len(),
        |c: int|
            {
                let count = member_count(assignments, c, samples.len());
                if count > 0 {
                    (member_sum(samples, assignments, c, samples.len()) / count) as u64
                } else {
                    centers[c]
                }
            },
    )
}

/// Centers and assignments after up to `rounds` rounds: in each one the samples go to their
/// nearest center and the centers move to the mean of their samples. It ends early when a
/// round assigns every sample as the one before it did.
pub open spec fn lloyd(
    samples: Seq<u64>,
    centers: Seq<u64>,
    assignments: Seq<usize>,
    rounds: nat,
) -> (Seq<u64>, Seq<usize>)
    decreases rounds,
{
    if rounds == 0 {
        (centers, assignments)
    } else {
        let next = assigned(samples, centers);
        let moved = recentered(samples, centers, next);
        if next == assignments {
            (moved, next)
        } else {
            lloyd(samples, moved, next, (rounds - 1) as nat)
        }
    }
}

/// The key that orders latencies.
pub open spec fn latency_key() -> spec_fn(u64) -> int {
    |x: u64| x as int
}

/// The latencies from the lowest to the highest.
pub open spec fn ascending(samples: Seq<u64>) -> Seq<u64> {
    sort_by(samples, latency_key())
}

/// The position of the middle of the `i`-th of `k` equal parts of the range from 0 to
/// `max_idx`, rounded to the nearest whole number, halves up.
pub open spec fn spread_position(i: int, k: int, max_idx: int) -> int {
    ((2 * i + 1) * max_idx + k) / (2 * k)
}

/// The centers to start from: spread evenly over the sorted samples; a single one is the
/// highest sample.
pub open spec fn initial_centers(samples: Seq<u64>, k: nat) -> Seq<u64> {
    let sorted = ascending(samples);
    let max_idx = samples.len() - 1;
    Seq::new(
        k,
        |i: int|
            if k == 1 {
                sorted[max_idx]
            } else {
                sorted[spread_position(i, k as int, max_idx)]
            },
    )
}

/// Whether every center has a sample.
pub open spec fn is_covered(assignments: Seq<usize>, k: nat) -> bool {
    forall|c: int| 0 <= c < k ==> #[trigger] member_count(assignments, c, assignments.len()) > 0
}

/// The centers once those without samples were put back to an even spread of the sorted
/// samples.
pub open spec fn respread(
    samples: Seq<u64>,
    centers: Seq<u64>,
    assignments: Seq<usize>,
) -> Seq<u64> {
    Seq::new(
        centers.len(),
        |c: int|
            if member_count(assignments, c, assignments.len()) == 0 {
                ascending(samples)[spread_position(c, centers.len() as int, samples.len() - 1)]
            } else {
                centers[c]
            },
    )
}

/// The key that orders the indices of latencies by what they stand for.
pub open spec fn value_key(values: Seq<u64>) -> spec_fn(usize) -> int {
    |i: usize| values[i as int] as int
}

/// The indices of latencies, from the lowest latency to the highest; of equal latencies the
/// first comes first.
pub open spec fn ascending_order(values: Seq<u64>) -> Seq<usize> {
    sort_by(indices(values.len()), value_key(values))
}

/// The place of a latency in the order from the lowest to the highest.
pub open spec fn rank(values: Seq<u64>, i: usize) -> int {
    choose|p: int| 0 <= p < values.len() && ascending_order(values)[p] == i
}

/// The rank of the center that is nearest to the `j`-th lowest sample.
pub open spec fn nearest_rank(samples: Seq<u64>, centers: Seq<u64>, j: int) -> int {
    rank(centers, nearest(samples[ascending_order(samples)[j] as int], centers) as usize)
}

/// The rank of the center that the `j`-th lowest sample goes to so that no center is left
/// out. The highest sample goes to the highest center. From there on down each sample goes to
/// the center of the one above it, or to the next lower one: that is so where its nearest
/// center is lower, and where otherwise too few samples were left for the lower centers.
pub open spec fn filled_rank(samples: Seq<u64>, centers: Seq<u64>, j: int) -> int
    decreases samples.len() - j,
{
    if j >= samples.len() - 1 {
        centers.len() - 1
    } else {
        let above = filled_rank(samples, centers, j + 1);
        if above > 0 && (nearest_rank(samples, centers, j) < above || j + 1 <= above) {
            above - 1
        } else {
            above
        }
    }
}

/// The samples assigned so that no center is left out.
pub open spec fn filled(samples: Seq<u64>, centers: Seq<u64>) -> Seq<usize> {
    Seq::new(
        samples.len(),
        |i: int|
            ascending_order(centers)[filled_rank(samples, centers, rank(samples, i as usize))],
    )
}

/// Centers and assignments with empty centers put back to use, if there are any: they go to an
/// even spread of the sorted samples, and each sample goes to its nearest center. Where that
/// leaves a center out though there are samples enough, as between equal centers, the samples
/// are assigned so that none is.
pub open spec fn covered(
    samples: Seq<u64>,
    centers: Seq<u64>,
    assignments: Seq<usize>,
) -> (Seq<u64>, Seq<usize>) {
    if is_covered(assignments, centers.len()) {
        (centers, assignments)
    } else {
        let spread = respread(samples, centers, assignments);
        let near = assigned(samples, spread);
        if is_covered(near, centers.len()) || samples.len() < centers.len() {
            (spread, near)
        } else {
            (spread, filled(samples, spread))
        }
    }
}

/// The sum of the squared gaps of the first `n` samples to their centers.
pub open spec fn inertia(
    samples: Seq<u64>,
    centers: Seq<u64>,
    assignments: Seq<usize>,
    n: nat,
) -> nat
    decreases n,
{
    if n == 0 {
        0
    } else {
        let d = gap(samples[n - 1], centers[assignments[n - 1] as int]);
        inertia(samples, centers, assignments, (n - 1) as nat) + d * d
    }
}

/// The numbers from 0 up to `k`.
pub open spec fn indices(k: nat) -> Seq<usize> {
    Seq::new(k, |i: int| i as usize)
}


/// The result of clustering samples into `k` clusters.
pub struct Clustering {
    /// The centers, from the fastest to the slowest.
    pub centers: Seq<u64>,
    /// The cluster of each sample.
    pub assignments: Seq<usize>,
    /// The sum of the squared gaps of the samples to their centers.
    pub inertia: nat,
}

/// Centers and assignments once the rounds are over and, where there are samples enough, every
/// center was put to use, in the order of the initial centers.
pub open spec fn settled_centers(samples: Seq<u64>, k: nat) -> (Seq<u64>, Seq<usize>) {
    let start = Seq::new(samples.len(), |i: int| 0usize);
    let settled = lloyd(samples, initial_centers(samples, k), start, KMEANS_ITERATIONS as nat);
    covered(samples, settled.0, settled.1)
}

/// The clustering of samples into `k` clusters.
pub open spec fn clustering(samples: Seq<u64>, k: nat) -> Clustering {
    let (centers, assignments) = settled_centers(samples, k);
    Clustering {
        centers: Seq::new(k, |p: int| centers[ascending_order(centers)[p] as int]),
        assignments: Seq::new(
            samples.len(),
            |i: int| rank(centers, assignments[i]) as usize,
        ),
        inertia: inertia(samples, centers, assignments, samples.len()),
    }
}

/// A number, or the largest that 128 bits hold where it is greater.
pub open spec fn capped(x: nat) -> nat {
    if x <= u128::MAX {
        x
    } else {
        u128::MAX as nat
    }
}

/// How badly `k` clusters fit, with a penalty for each cluster.
pub open spec fn score(samples: Seq<u64>, k: nat, penalty: nat) -> nat {
    capped(clustering(samples, k).inertia + k * penalty)
}

/// Whether `k` is the number of clusters, from `lo` to `hi`, with the lowest score, and the
/// smallest such.
pub open spec fn is_best_count(samples: Seq<u64>, lo: nat, hi: nat, penalty: nat, k: nat) -> bool {
    &&& lo <= k <= hi
    &&& forall|j: nat|
        lo <= j <= hi ==> score(samples, k, penalty) <= #[trigger] score(samples, j, penalty)
    &&& forall|j: nat|
        lo <= j < k ==> score(samples, k, penalty) < #[trigger] score(samples, j, penalty)
}

/// Whether some sample is in a cluster.
pub open spec fn has_member(assignments: Seq<usize>, t: int) -> bool {
    exists|i: int| 0 <= i < assignments.len() && #[trigger] assignments[i] == t
}

/// Whether every cluster has a sample.
pub open spec fn is_onto(assignments: Seq<usize>, k: nat) -> bool {
    forall|t: int| 0 <= t < k ==> #[trigger] has_member(assignments, t)
}

/// The larger of two numbers.
pub open spec fn larger(a: nat, b: nat) -> nat {
    if a >= b {
        a
    } else {
        b
    }
}

/// The centers and assignments of the number of clusters with the lowest score, tried from
/// `min_k`, but at least one, to `max_k`; of several the smallest.
pub open spec fn best_clustering(
    samples: Seq<u64>,
    min_k: nat,
    max_k: nat,
    penalty: nat,
) -> (Seq<u64>, Seq<usize>) {
    let lo = larger(min_k, 1);
    let hi = larger(max_k, lo);
    if samples.len() == 0 {
        (Seq::empty(), Seq::empty())
    } else {
        let best = clustering(
            samples,
            choose|k: nat| is_best_count(samples, lo, hi, penalty, k),
        );
        (best.centers, best.assignments)
    }
}

/// Finds the nearest center to a value; of several the first.
pub fn nearest_center_scalar(value: u64, centers: &Vec<u64>) -> (index: usize)
    ensures
        centers@.len() == 0 ==> index == 0,
        centers@.len() > 0 ==> is_nearest(value, centers@, index as int) && index == nearest(
            value,
            centers@,
        ),
{
    if centers.len() == 0 {
        return 0;
    }
    let mut best: usize = 0;
    for i in 1..centers.len()
        invariant
            best < i,
            i >= 1,
            centers@.len() >= 1,
            forall|j: int| 0 <= j < i ==> gap(value, centers@[best as int]) <= gap(value, #[trigger] centers@[j]),
            forall|j: int|
                0 <= j < best ==> gap(value, centers@[best as int]) < gap(value, #[trigger] centers@[j]),
    {
        if distance_of(value, centers[i]) < distance_of(value, centers[best]) {
            best = i;
        }
    }
    proof {
        lemma_nearest_unique(value, centers@, best as int);
    }
    best
}

fn distance_of(a: u64, b: u64) -> (d: u64)
    ensures
        d == gap(a, b),
{
    if a >= b {
        a - b
    } else {
        b - a
    }
}

proof fn lemma_nearest_unique(value: u64, centers: Seq<u64>, i: int)
    requires
        is_nearest(value, centers, i),
    ensures
        nearest(value, centers) == i,
{
    let j = nearest(value, centers);
    assert(is_nearest(value, centers, j));
    if j < i {
        assert(gap(value, centers[i]) < gap(value, centers[j]));
        assert(gap(value, centers[j]) <= gap(value, centers[i]));
    }
    if i < j {
        assert(gap(value, centers[j]) < gap(value, centers[i]));
        assert(gap(value, centers[i]) <= gap(value, centers[j]));
    }
}

fn insert_ascending(sorted: &mut Vec<u64>, x: u64)
    requires
        sorted_by(old(sorted)@, latency_key()),
    ensures
        final(sorted)@ == insert_by(old(sorted)@, x, latency_key()),
        sorted_by(final(sorted)@, latency_key()),
{
    let ghost key = latency_key();
    let mut lo: usize = 0;
    let mut hi: usize = sorted.len();
    while lo < hi
        invariant
            key == latency_key(),
            sorted@ == old(sorted)@,
            sorted_by(sorted@, key),
            lo <= hi <= sorted@.len(),
            lo == 0 || sorted@[lo - 1] <= x,
            forall|i: int| hi <= i < sorted@.len() ==> #[trigger] sorted@[i] > x,
        decreases hi - lo,
    {
        let mid = lo + (hi - lo) / 2;
        if sorted[mid] <= x {
            lo = mid + 1;
        } else {
            proof {
                assert forall|i: int| mid <= i < sorted@.len() implies #[trigger] sorted@[i] > x by {
                    if i > mid {
                        assert(key(sorted@[mid as int]) <= key(sorted@[i]));
                    }
                }
            }
            hi = mid;
        }
    }
    proof {
        lemma_insert_position(sorted@, x, key, lo as int);
        lemma_insert_by(sorted@, x, key);
    }
    sorted.insert(lo, x);
}

/// Sorts latencies, lowest first.
pub fn sort_latencies(samples: &Vec<u64>) -> (sorted: Vec<u64>)
    ensures
        sorted@ == ascending(samples@),
        sorted@.len() == samples@.len(),
{
    let mut sorted: Vec<u64> = Vec::new();
    assert(samples@.take(0) =~= Seq::empty());
    for i in 0..samples.len()
        invariant
            sorted@ == ascending(samples@.take(i as int)),
            sorted_by(sorted@, latency_key()),
    {
        assert(samples@.take(i + 1).drop_last() =~= samples@.take(i as int));
        insert_ascending(&mut sorted, samples[i]);
    }
    assert(samples@.take(samples@.len() as int) =~= samples@);
    proof {
        lemma_sort_by(samples@, latency_key());
    }
    sorted
}

/// The middle of the `i`-th of `k` equal parts of the range from 0 to `max_idx` is rounded to the
/// nearest position: twice `k` times it differs from `(2i + 1) * max_idx` by at most `k`.
pub proof fn lemma_spread_position(i: int, k: int, max_idx: int)
    requires
        0 <= i < k,
        0 <= max_idx,
    ensures
        0 <= spread_position(i, k, max_idx) <= max_idx,
        2 * k * spread_position(i, k, max_idx) <= (2 * i + 1) * max_idx + k < 2 * k * (
        spread_position(i, k, max_idx) + 1),
        0 <= (2 * i + 1) * max_idx + k <= 2 * k * max_idx + k,
{
    let x = (2 * i + 1) * max_idx + k;
    assert(0 <= x <= 2 * k * max_idx + k) by (nonlinear_arith)
        requires
            0 <= i < k,
            0 <= max_idx,
            x == (2 * i + 1) * max_idx + k,
    ;
    assert(2 * k * (x / (2 * k)) <= x < 2 * k * (x / (2 * k) + 1)) by (nonlinear_arith)
        requires
            0 <= x,
            k > 0,
    ;
    assert(0 <= x / (2 * k) <= max_idx) by (nonlinear_arith)
        requires
            0 <= x <= 2 * k * max_idx + k,
            k > 0,
            0 <= max_idx,
    ;
}

fn spread_index(i: usize, k: usize, max_idx: usize) -> (position: usize)
    requires
        i < k,
        k < MAX_CENTROIDS,
    ensures
        position == spread_position(i as int, k as int, max_idx as int),
        position <= max_idx,
{
    proof {
        lemma_spread_position(i as int, k as int, max_idx as int);
        let a = (2 * i + 1) as int;
        let m = max_idx as int;
        assert(0 <= a * m <= 0x2000_0000_0000_0000 * 0xffff_ffff_ffff_ffff) by (nonlinear_arith)
            requires
                0 <= a <= 0x2000_0000_0000_0000,
                0 <= m <= 0xffff_ffff_ffff_ffff,
        ;
    }
    let middle: u128 = (2 * i as u128 + 1) * max_idx as u128 + k as u128;
    (middle / (2 * k as u128)) as usize
}

/// Places `k` centers evenly over the sorted samples.
pub fn initialize_centroids(samples: &Vec<u64>, k: usize) -> (centroids: Vec<u64>)
    requires
        k < MAX_CENTROIDS,
    ensures
        samples@.len() == 0 ==> centroids@ == seq![0u64],
        samples@.len() > 0 ==> centroids@ == initial_centers(samples@, k as nat),
{
    let sorted = sort_latencies(samples);
    let mut centroids: Vec<u64> = Vec::new();
    if sorted.len() == 0 {
        centroids.push(0);
        return centroids;
    }
    let max_idx = sorted.len() - 1;
    for i in 0..k
        invariant
            k < MAX_CENTROIDS,
            samples@.len() > 0,
            sorted@ == ascending(samples@),
            sorted@.len() == samples@.len(),
            max_idx == sorted@.len() - 1,
            centroids@.len() == i,
            forall|j: int| 0 <= j < i ==> centroids@[j] == initial_centers(samples@, k as nat)[j],
    {
        let position = if k == 1 {
            max_idx
        } else {
            spread_index(i, k, max_idx)
        };
        centroids.push(sorted[position]);
    }
    assert(centroids@ =~= initial_centers(samples@, k as nat));
    centroids
}

proof fn lemma_member_sum_bound(samples: Seq<u64>, assignments: Seq<usize>, c: int, n: nat)
    ensures
        member_sum(samples, assignments, c, n) <= member_count(assignments, c, n) * u64::MAX,
        member_count(assignments, c, n) <= n,
        member_count(assignments, c, n) == 0 ==> member_sum(samples, assignments, c, n) == 0,
    decreases n,
{
    if n > 0 {
        lemma_member_sum_bound(samples, assignments, c, (n - 1) as nat);
    }
}

/// Assigns every sample to its nearest center and moves the centers to the mean of their
/// samples; tells whether any assignment changed.
fn kmeans_round(samples: &Vec<u64>, centroids: &mut Vec<u64>, assignments: &mut Vec<usize>) -> (
    changed: bool)
    requires
        old(centroids)@.len() > 0,
        old(assignments)@.len() == samples@.len(),
    ensures
        final(assignments)@ == assigned(samples@, old(centroids)@),
        final(centroids)@ == recentered(samples@, old(centroids)@, final(assignments)@),
        changed == (final(assignments)@ != old(assignments)@),
        forall|i: int|
            0 <= i < samples@.len() ==> #[trigger] final(assignments)@[i] < old(centroids)@.len(),
{
    let ghost centers = centroids@;
    let ghost before = assignments@;
    let ghost next = assigned(samples@, centers);
    let k = centroids.len();
    let mut changed = false;
    let mut sums: Vec<u128> = vec![0u128; k];
    let mut counts: Vec<usize> = vec![0usize; k];
    for i in 0..samples.len()
        invariant
            k == centers.len(),
            k > 0,
            centroids@ == centers,
            next == assigned(samples@, centers),
            assignments@.len() == samples@.len(),
            before.len() == samples@.len(),
            forall|j: int|
                0 <= j < i ==> #[trigger] assignments@[j] == next[j] && assignments@[j] < k,
            forall|j: int| i <= j < samples@.len() ==> #[trigger] assignments@[j] == before[j],
            changed == exists|j: int| 0 <= j < i && next[j] != before[j],
            sums@.len() == k,
            counts@.len() == k,
            forall|c: int|
                0 <= c < k ==> #[trigger] sums@[c] == member_sum(samples@, next, c, i as nat),
            forall|c: int| 0 <= c < k ==> #[trigger] counts@[c] == member_count(next, c, i as nat),
            forall|c: int| 0 <= c < k ==> #[trigger] sums@[c] <= i * 0xffff_ffff_ffff_ffff,
            forall|c: int| 0 <= c < k ==> #[trigger] counts@[c] <= i,
    {
        let sample = samples[i];
        let nearest = nearest_center_scalar(sample, centroids);
        assert(next[i as int] == nearest);
        if assignments[i] != nearest {
            assignments[i] = nearest;
            changed = true;
            assert(next[i as int] != before[i as int]);
        }
        let ghost old_sums = sums@;
        let ghost old_counts = counts@;
        sums[nearest] = sums[nearest] + sample as u128;
        counts[nearest] = counts[nearest] + 1;
        proof {
            assert forall|c: int| 0 <= c < k implies #[trigger] sums@[c] == member_sum(
                samples@,
                next,
                c,
                (i + 1) as nat,
            ) && sums@[c] <= (i + 1) * 0xffff_ffff_ffff_ffff by {
                assert(old_sums[c] == member_sum(samples@, next, c, i as nat));
            }
            assert forall|c: int| 0 <= c < k implies #[trigger] counts@[c] == member_count(
                next,
                c,
                (i + 1) as nat,
            ) && counts@[c] <= i + 1 by {
                assert(old_counts[c] == member_count(next, c, i as nat));
            }
        }
    }
    assert(assignments@ =~= next);
    proof {
        if !changed {
            assert(next =~= before);
        }
    }
    for c in 0..k
        invariant
            k == centers.len(),
            centroids@.len() == k,
            sums@.len() == k,
            counts@.len() == k,
            forall|j: int|
                0 <= j < k ==> #[trigger] sums@[j] == member_sum(samples@, next, j, samples@.len()),
            forall|j: int|
                0 <= j < k ==> #[trigger] counts@[j] == member_count(next, j, samples@.len()),
            forall|j: int|
                0 <= j < c ==> #[trigger] centroids@[j] == recentered(samples@, centers, next)[j],
            forall|j: int| c <= j < k ==> #[trigger] centroids@[j] == centers[j],
    {
        if counts[c] > 0 {
            proof {
                lemma_member_sum_bound(samples@, next, c as int, samples@.len());
                let s = sums@[c as int] as int;
                let n = counts@[c as int] as int;
                assert(0 <= s / n <= 0xffff_ffff_ffff_ffff) by (nonlinear_arith)
                    requires
                        0 <= s <= n * 0xffff_ffff_ffff_ffff,
                        n > 0,
                ;
            }
            centroids[c] = (sums[c] / counts[c] as u128) as u64;
        }
    }
    assert(centroids@ =~= recentered(samples@, centers, next));
    changed
}

/// How many samples each of `k` centers has.
fn count_members(assignments: &Vec<usize>, k: usize) -> (counts: Vec<usize>)
    requires
        forall|i: int| 0 <= i < assignments@.len() ==> #[trigger] assignments@[i] < k,
    ensures
        counts@.len() == k,
        forall|c: int|
            0 <= c < k ==> #[trigger] counts@[c] == member_count(
                assignments@,
                c,
                assignments@.len(),
            ),
{
    let mut counts: Vec<usize> = vec![0usize; k];
    for i in 0..assignments.len()
        invariant
            counts@.len() == k,
            forall|j: int| 0 <= j < assignments@.len() ==> #[trigger] assignments@[j] < k,
            forall|c: int|
                0 <= c < k ==> #[trigger] counts@[c] == member_count(assignments@, c, i as nat),
            forall|c: int| 0 <= c < k ==> #[trigger] counts@[c] <= i,
    {
        let ghost before = counts@;
        let center = assignments[i];
        assert(assignments@[i as int] < k);
        counts[center] = counts[center] + 1;
        proof {
            assert forall|c: int| 0 <= c < k implies #[trigger] counts@[c] == member_count(
                assignments@,
                c,
                (i + 1) as nat,
            ) && counts@[c] <= i + 1 by {
                assert(before[c] == member_count(assignments@, c, i as nat));
            }
        }
    }
    counts
}

proof fn lemma_counts_cover(assignments: Seq<usize>, counts: Seq<usize>)
    requires
        forall|c: int|
            0 <= c < counts.len() ==> #[trigger] counts[c] == member_count(
                assignments,
                c,
                assignments.len(),
            ),
    ensures
        is_covered(assignments, counts.len()) <==> forall|c: int|
            0 <= c < counts.len() ==> #[trigger] counts[c] > 0,
{
    if forall|c: int| 0 <= c < counts.len() ==> #[trigger] counts[c] > 0 {
        assert forall|c: int| 0 <= c < counts.len() implies #[trigger] member_count(
            assignments,
            c,
            assignments.len(),
        ) > 0 by {
            assert(counts[c] > 0);
        }
    }
    if is_covered(assignments, counts.len()) {
        assert forall|c: int| 0 <= c < counts.len() implies #[trigger] counts[c] > 0 by {
            assert(member_count(assignments, c, assignments.len()) > 0);
        }
    }
}

fn all_positive(counts: &Vec<usize>) -> (positive: bool)
    ensures
        positive == forall|c: int| 0 <= c < counts@.len() ==> #[trigger] counts@[c] > 0,
{
    for c in 0..counts.len()
        invariant
            forall|j: int| 0 <= j < c ==> #[trigger] counts@[j] > 0,
    {
        if counts[c] == 0 {
            return false;
        }
    }
    true
}

/// The rank of each center, out of the order of the centers.
fn rank_values(centroids: &Vec<u64>, order: &Vec<usize>) -> (ranks: Vec<usize>)
    requires
        order@ == ascending_order(centroids@),
    ensures
        ranks@.len() == centroids@.len(),
        forall|i: usize|
            i < centroids@.len() ==> ranks@[i as int] == #[trigger] rank(centroids@, i),
        forall|i: int|
            0 <= i < centroids@.len() ==> #[trigger] ranks@[i] < centroids@.len(),
{
    let k = centroids.len();
    proof {
        lemma_ascending_order(centroids@);
    }
    let mut ranks: Vec<usize> = vec![0usize; k];
    for p in 0..k
        invariant
            k == order@.len(),
            ranks@.len() == k,
            order@.no_duplicates(),
            forall|q: int| 0 <= q < k ==> #[trigger] order@[q] < k,
            forall|q: int| 0 <= q < p ==> ranks@[#[trigger] order@[q] as int] == q,
    {
        let i = order[p];
        assert(order@[p as int] < k);
        ranks[i] = p;
    }
    proof {
        assert forall|i: usize| i < centroids@.len() implies ranks@[i as int] == #[trigger] rank(
            centroids@,
            i,
        ) by {
            assert(order@.contains(i));
            let p = choose|p: int| 0 <= p < order@.len() && order@[p] == i;
            assert(ranks@[order@[p] as int] == p);
            lemma_rank(centroids@, p);
        }
        assert forall|i: int| 0 <= i < centroids@.len() implies #[trigger] ranks@[i]
            < centroids@.len() by {
            assert(ranks@[i] == rank(centroids@, i as usize));
            lemma_rank_monotonic(centroids@, i as usize, i as usize);
        }
    }
    ranks
}

/// Assigns the samples so that no center is left out.
fn fill_centers(samples: &Vec<u64>, centroids: &Vec<u64>, assignments: &mut Vec<usize>)
    requires
        0 < centroids@.len() <= samples@.len(),
        old(assignments)@.len() == samples@.len(),
    ensures
        final(assignments)@ == filled(samples@, centroids@),
{
    let n = samples.len();
    let centers = order_values(centroids);
    let ranks = rank_values(centroids, &centers);
    let sorted = order_values(samples);
    let mut above: usize = centroids.len() - 1;
    proof {
        lemma_ascending_order(samples@);
        lemma_ascending_order(centroids@);
    }
    let mut left: usize = n;
    while left > 0
        invariant
            n == samples@.len(),
            left <= n,
            0 < centroids@.len() <= n,
            centers@ == ascending_order(centroids@),
            centers@.len() == centroids@.len(),
            sorted@ == ascending_order(samples@),
            sorted@.len() == n,
            sorted@.no_duplicates(),
            forall|j: int| 0 <= j < n ==> #[trigger] sorted@[j] < n,
            ranks@.len() == centroids@.len(),
            forall|i: usize|
                i < centroids@.len() ==> ranks@[i as int] == #[trigger] rank(centroids@, i),
            assignments@.len() == n,
            above < centroids@.len(),
            above == filled_rank(samples@, centroids@, left as int),
            forall|j: int|
                left <= j < n ==> assignments@[#[trigger] sorted@[j] as int] == centers@[filled_rank(
                    samples@,
                    centroids@,
                    j,
                )],
        decreases left,
    {
        let j = left - 1;
        let i = sorted[j];
        assert(sorted@[j as int] < n);
        if j < n - 1 {
            let nearest = nearest_center_scalar(samples[i], centroids);
            assert(ranks@[nearest as int] == rank(centroids@, nearest));
            if above > 0 && (ranks[nearest] < above || j + 1 <= above) {
                above = above - 1;
            }
        }
        assignments[i] = centers[above];
        left = j;
    }
    proof {
        assert forall|i: int| 0 <= i < n implies #[trigger] assignments@[i] == filled(
            samples@,
            centroids@,
        )[i] by {
            assert(sorted@.contains(i as usize));
            let j = choose|j: int| 0 <= j < sorted@.len() && sorted@[j] == i as usize;
            lemma_rank(samples@, j);
            assert(assignments@[sorted@[j] as int] == centers@[filled_rank(
                samples@,
                centroids@,
                j,
            )]);
        }
        assert(assignments@ =~= filled(samples@, centroids@));
    }
}

/// Puts centers without samples back to use: they move to an even spread of the sorted
/// samples, and every sample is assigned anew. Where there are as many samples as centers, every
/// center has one in the end. Centers that all have samples are left as they are.
pub fn ensure_tier_coverage(
    samples: &Vec<u64>,
    centroids: &mut Vec<u64>,
    assignments: &mut Vec<usize>,
)
    requires
        samples@.len() > 0 || old(centroids)@.len() == 0,
        old(assignments)@.len() == samples@.len(),
        old(centroids)@.len() < MAX_CENTROIDS,
        forall|i: int|
            0 <= i < samples@.len() ==> #[trigger] old(assignments)@[i] < old(centroids)@.len(),
    ensures
        (final(centroids)@, final(assignments)@) == covered(
            samples@,
            old(centroids)@,
            old(assignments)@,
        ),
        final(centroids)@.len() == old(centroids)@.len(),
        final(assignments)@.len() == samples@.len(),
        forall|i: int|
            0 <= i < samples@.len() ==> #[trigger] final(assignments)@[i] < old(centroids)@.len(),
        samples@.len() >= old(centroids)@.len() ==> is_covered(
            final(assignments)@,
            old(centroids)@.len(),
        ),
        forall|c: int|
            0 <= c < old(centroids)@.len() ==> if member_count(
                old(assignments)@,
                c,
                samples@.len(),
            ) > 0 {
                #[trigger] final(centroids)@[c] == old(centroids)@[c]
            } else {
                samples@.contains(final(centroids)@[c])
            },
        is_covered(old(assignments)@, old(centroids)@.len()) ==> final(centroids)@ == old(
            centroids,
        )@ && final(assignments)@ == old(assignments)@,
{
    let ghost centers = centroids@;
    let ghost before = assignments@;
    let k = centroids.len();
    assert(samples@.len() > 0 ==> before[0] < k);
    proof {
        if samples@.len() > 0 {
            lemma_covered(samples@, centers, before);
        }
    }
    let counts = count_members(assignments, k);
    proof {
        lemma_counts_cover(before, counts@);
    }
    if all_positive(&counts) {
        return;
    }
    let sorted = sort_latencies(samples);
    let max_idx = sorted.len() - 1;
    for c in 0..k
        invariant
            k == centers.len(),
            k < MAX_CENTROIDS,
            centroids@.len() == k,
            counts@.len() == k,
            samples@.len() > 0,
            sorted@ == ascending(samples@),
            sorted@.len() == samples@.len(),
            max_idx == samples@.len() - 1,
            forall|j: int|
                0 <= j < k ==> #[trigger] counts@[j] == member_count(before, j, before.len()),
            forall|j: int|
                0 <= j < c ==> #[trigger] centroids@[j] == respread(samples@, centers, before)[j],
            forall|j: int| c <= j < k ==> #[trigger] centroids@[j] == centers[j],
    {
        if counts[c] == 0 {
            let position = spread_index(c, k, max_idx);
            centroids[c] = sorted[position];
        }
    }
    assert(centroids@ =~= respread(samples@, centers, before));
    let ghost spread = centroids@;
    for i in 0..samples.len()
        invariant
            k > 0,
            k == spread.len(),
            centroids@ == spread,
            assignments@.len() == samples@.len(),
            forall|j: int|
                0 <= j < i ==> #[trigger] assignments@[j] == assigned(samples@, spread)[j]
                    && assignments@[j] < k,
    {
        let nearest = nearest_center_scalar(samples[i], centroids);
        assignments[i] = nearest;
    }
    let ghost near = assignments@;
    assert(near =~= assigned(samples@, spread));
    if samples.len() < k {
        return;
    }
    let counts = count_members(assignments, k);
    proof {
        lemma_counts_cover(near, counts@);
    }
    if !all_positive(&counts) {
        fill_centers(samples, centroids, assignments);
    }
}

proof fn lemma_inertia_step(d: nat)
    requires
        d <= u64::MAX,
    ensures
        d * d <= u128::MAX,
{
    assert(d * d <= 0xffff_ffff_ffff_ffff * 0xffff_ffff_ffff_ffff) by (nonlinear_arith)
        requires
            0 <= d <= 0xffff_ffff_ffff_ffff,
    ;
}

fn total_inertia(samples: &Vec<u64>, centroids: &Vec<u64>, assignments: &Vec<usize>) -> (total: u128)
    requires
        assignments@.len() == samples@.len(),
        forall|i: int| 0 <= i < samples@.len() ==> #[trigger] assignments@[i] < centroids@.len(),
    ensures
        total == capped(inertia(samples@, centroids@, assignments@, samples@.len())),
{
    let mut total: u128 = 0;
    for i in 0..samples.len()
        invariant
            assignments@.len() == samples@.len(),
            forall|j: int|
                0 <= j < samples@.len() ==> #[trigger] assignments@[j] < centroids@.len(),
            total == capped(inertia(samples@, centroids@, assignments@, i as nat)),
    {
        let center = assignments[i];
        assert(assignments@[i as int] < centroids@.len());
        let d = distance_of(samples[i], centroids[center]);
        proof {
            lemma_inertia_step(d as nat);
        }
        total = total.saturating_add(d as u128 * d as u128);
    }
    total
}

/// The indices of latencies, from the lowest to the highest.
fn order_values(centroids: &Vec<u64>) -> (order: Vec<usize>)
    ensures
        order@ == ascending_order(centroids@),
{
    let ghost key = value_key(centroids@);
    let k = centroids.len();
    let ghost all = indices(k as nat);
    let mut order: Vec<usize> = Vec::new();
    assert(all.take(0) =~= Seq::empty());
    for i in 0..k
        invariant
            k == centroids@.len(),
            key == value_key(centroids@),
            all == indices(k as nat),
            order@ == sort_by(all.take(i as int), key),
            order@.len() == i,
            forall|j: int| 0 <= j < i ==> #[trigger] order@[j] < k,
    {
        let ghost before = order@;
        let mut p = order.len();
        while p > 0 && centroids[order[p - 1]] > centroids[i]
            invariant
                k == centroids@.len(),
                i < k,
                key == value_key(centroids@),
                p <= order@.len(),
                order@ == before,
                forall|j: int| 0 <= j < order@.len() ==> #[trigger] order@[j] < k,
                forall|j: int| p <= j < order@.len() ==> key(#[trigger] order@[j]) > key(i),
            decreases p,
        {
            p = p - 1;
        }
        proof {
            lemma_insert_position(order@, i, key, p as int);
            assert(all.take(i + 1).drop_last() =~= all.take(i as int));
            assert(all.take(i + 1).last() == i);
        }
        order.insert(p, i);
    }
    assert(all.take(k as int) =~= all);
    order
}

proof fn lemma_ascending_order(centers: Seq<u64>)
    requires
        centers.len() <= usize::MAX,
    ensures
        ascending_order(centers).len() == centers.len(),
        ascending_order(centers).no_duplicates(),
        forall|p: int| 0 <= p < centers.len() ==> #[trigger] ascending_order(centers)[p] < centers.len(),
        forall|i: usize| i < centers.len() ==> #[trigger] ascending_order(centers).contains(i),
        forall|p: int, q: int|
            0 <= p < q < centers.len() ==> centers[#[trigger] ascending_order(centers)[p] as int]
                <= centers[#[trigger] ascending_order(centers)[q] as int],
{
    let all = indices(centers.len());
    let key = value_key(centers);
    let order = ascending_order(centers);
    assert(all.no_duplicates());
    lemma_sort_by(all, key);
    lemma_sort_by_no_duplicates(all, key);
    assert forall|p: int| 0 <= p < centers.len() implies #[trigger] order[p] < centers.len() by {
        assert(order.contains(order[p]));
        assert(all.contains(order[p]));
    }
    assert forall|i: usize| i < centers.len() implies #[trigger] order.contains(i) by {
        assert(all[i as int] == i);
        assert(all.contains(i));
    }
    assert forall|p: int, q: int| 0 <= p < q < centers.len() implies centers[#[trigger] order[p] as int]
        <= centers[#[trigger] order[q] as int] by {
        assert(key(order[p]) <= key(order[q]));
    }
}

proof fn lemma_rank(centers: Seq<u64>, p: int)
    requires
        centers.len() <= usize::MAX,
        0 <= p < centers.len(),
    ensures
        rank(centers, ascending_order(centers)[p]) == p,
{
    lemma_ascending_order(centers);
    let i = ascending_order(centers)[p];
    let q = rank(centers, i);
    assert(0 <= q < centers.len() && ascending_order(centers)[q] == i);
}

/// Clusters samples into `k` clusters, numbered from the fastest to the slowest, and returns
/// the centroids, the cluster of each sample, and the sum of the squared gaps of the samples
/// to their centroids.
pub fn run_kmeans(samples: &Vec<u64>, k: usize) -> (result: (Vec<u64>, Vec<usize>, u128))
    requires
        samples@.len() > 0,
        0 < k < MAX_CENTROIDS,
    ensures
        result.0@ == clustering(samples@, k as nat).centers,
        result.1@ == clustering(samples@, k as nat).assignments,
        result.2 == capped(clustering(samples@, k as nat).inertia),
        result.0@.len() == k,
        result.1@.len() == samples@.len(),
        sorted_by(result.0@, latency_key()),
        forall|i: int| 0 <= i < samples@.len() ==> #[trigger] result.1@[i] < k,
        samples@.len() >= k ==> is_onto(result.1@, k as nat),
        result.2 == capped(inertia(samples@, result.0@, result.1@, samples@.len())),
{
    let mut centroids = initialize_centroids(samples, k);
    let mut assignments: Vec<usize> = vec![0usize; samples.len()];
    let ghost start = Seq::new(samples@.len(), |i: int| 0usize);
    assert(assignments@ =~= start);
    let ghost goal = lloyd(samples@, centroids@, start, KMEANS_ITERATIONS as nat);
    let mut left: usize = KMEANS_ITERATIONS;
    while left > 0
        invariant_except_break
            lloyd(samples@, centroids@, assignments@, left as nat) == goal,
        invariant
            k > 0,
            centroids@.len() == k,
            assignments@.len() == samples@.len(),
            forall|i: int| 0 <= i < samples@.len() ==> #[trigger] assignments@[i] < k,
        ensures
            (centroids@, assignments@) == goal,
        decreases left,
    {
        let changed = kmeans_round(samples, &mut centroids, &mut assignments);
        left = left - 1;
        if !changed {
            break;
        }
    }
    ensure_tier_coverage(samples, &mut centroids, &mut assignments);
    let ghost settled = covered(samples@, goal.0, goal.1);
    assert(settled == (centroids@, assignments@));
    let inertia = total_inertia(samples, &centroids, &assignments);

    let order = order_values(&centroids);
    let remap = rank_values(&centroids, &order);
    proof {
        lemma_ascending_order(centroids@);
    }
    let mut sorted_centroids: Vec<u64> = Vec::new();
    for p in 0..k
        invariant
            k == centroids@.len(),
            sorted_centroids@.len() == p,
            order@.len() == k,
            forall|q: int| 0 <= q < k ==> #[trigger] order@[q] < k,
            forall|q: int|
                0 <= q < p ==> #[trigger] sorted_centroids@[q] == centroids@[order@[q] as int],
    {
        assert(order@[p as int] < k);
        sorted_centroids.push(centroids[order[p]]);
    }
    let ghost settled_assignments = assignments@;
    for i in 0..samples.len()
        invariant
            assignments@.len() == samples@.len(),
            settled_assignments.len() == samples@.len(),
            remap@.len() == k,
            forall|c: usize| c < k ==> remap@[c as int] == #[trigger] rank(centroids@, c),
            forall|c: int| 0 <= c < k ==> #[trigger] remap@[c] < k,
            forall|j: int| 0 <= j < samples@.len() ==> #[trigger] settled_assignments[j] < k,
            forall|j: int|
                0 <= j < i ==> #[trigger] assignments@[j] == rank(
                    centroids@,
                    settled_assignments[j],
                ) && assignments@[j] < k,
            forall|j: int|
                i <= j < samples@.len() ==> #[trigger] assignments@[j] == settled_assignments[j],
    {
        let center = assignments[i];
        assert(settled_assignments[i as int] < k);
        assert(remap@[center as int] == rank(centroids@, center));
        assignments[i] = remap[center];
    }
    proof {
        let c = clustering(samples@, k as nat);
        assert(sorted_centroids@ =~= c.centers);
        assert(assignments@ =~= c.assignments);
        assert forall|p: int, q: int| 0 <= p < q < k implies latency_key()(
            #[trigger] sorted_centroids@[p],
        ) <= latency_key()(#[trigger] sorted_centroids@[q]) by {
            assert(centroids@[order@[p] as int] <= centroids@[order@[q] as int]);
        }
        lemma_clustering(samples@, k as nat);
    }
    (sorted_centroids, assignments, inertia)
}

/// Clusters samples into the number of clusters, from `min_k` to `max_k`, that fits best
/// once `tier_penalty` is added for each cluster. Returns the centroids, from the fastest to
/// the slowest, and the cluster of each sample.
pub fn dynamic_kmeans(samples: &Vec<u64>, min_k: usize, max_k: usize, tier_penalty: u128) -> (result:
    (Vec<u64>, Vec<usize>))
    requires
        min_k < MAX_CENTROIDS,
        max_k < MAX_CENTROIDS,
    ensures
        (result.0@, result.1@) == best_clustering(
            samples@,
            min_k as nat,
            max_k as nat,
            tier_penalty as nat,
        ),
        result.1@.len() == samples@.len(),
        result.0@.len() == 0 <==> samples@.len() == 0,
        result.0@.len() <= larger(larger(min_k as nat, 1), max_k as nat),
        sorted_by(result.0@, latency_key()),
        forall|i: int| 0 <= i < samples@.len() ==> #[trigger] result.1@[i] < result.0@.len(),
        samples@.len() >= result.0@.len() ==> is_onto(result.1@, result.0@.len()),
        samples@.len() > 0 ==> result.0@.len() >= larger(min_k as nat, 1),
{
    if samples.len() == 0 {
        return (Vec::new(), Vec::new());
    }
    let fewest: usize = if min_k >= 1 {
        min_k
    } else {
        1
    };
    let most: usize = if max_k >= fewest {
        max_k
    } else {
        fewest
    };
    let ghost penalty = tier_penalty as nat;
    let ghost lo = larger(min_k as nat, 1);
    let ghost hi = larger(max_k as nat, lo);
    let (first_centroids, first_assignments, inertia) = run_kmeans(samples, fewest);
    let mut best_centroids = first_centroids;
    let mut best_assignments = first_assignments;
    let mut best_score = penalized(inertia, fewest, tier_penalty);
    let ghost mut best_k: nat = lo;
    let mut k: usize = fewest;
    while k < most
        invariant
            samples@.len() > 0,
            0 < fewest <= k <= most < MAX_CENTROIDS,
            lo == fewest,
            hi == most,
            penalty == tier_penalty,
            is_best_count(samples@, lo, k as nat, penalty, best_k),
            best_score == score(samples@, best_k, penalty),
            best_centroids@ == clustering(samples@, best_k).centers,
            best_assignments@ == clustering(samples@, best_k).assignments,
        decreases most - k,
    {
        k = k + 1;
        let (centroids, assignments, inertia) = run_kmeans(samples, k);
        let total = penalized(inertia, k, tier_penalty);
        assert(total == score(samples@, k as nat, penalty));
        if total < best_score {
            best_score = total;
            best_centroids = centroids;
            best_assignments = assignments;
            proof {
                best_k = k as nat;
            }
        }
    }
    proof {
        lemma_best_count_unique(samples@, lo, hi, penalty, best_k);
        lemma_best_clustering(samples@, min_k as nat, max_k as nat, penalty);
    }
    (best_centroids, best_assignments)
}

fn penalized(inertia: u128, k: usize, tier_penalty: u128) -> (total: u128)
    ensures
        total == capped(inertia as nat + k as nat * tier_penalty as nat),
{
    let penalties = match (k as u128).checked_mul(tier_penalty) {
        Some(product) => product,
        None => u128::MAX,
    };
    inertia.saturating_add(penalties)
}

proof fn lemma_best_count_unique(samples: Seq<u64>, lo: nat, hi: nat, penalty: nat, k: nat)
    requires
        is_best_count(samples, lo, hi, penalty, k),
    ensures
        k == choose|k: nat| is_best_count(samples, lo, hi, penalty, k),
{
    let j = choose|k: nat| is_best_count(samples, lo, hi, penalty, k);
    assert(is_best_count(samples, lo, hi, penalty, j));
    if j < k {
        assert(score(samples, k, penalty) < score(samples, j, penalty));
        assert(score(samples, j, penalty) <= score(samples, k, penalty));
    }
    if k < j {
        assert(score(samples, j, penalty) < score(samples, k, penalty));
        assert(score(samples, k, penalty) <= score(samples, j, penalty));
    }
}

proof fn lemma_nearest_exists(value: u64, centers: Seq<u64>)
    requires
        centers.len() > 0,
    ensures
        is_nearest(value, centers, nearest(value, centers)),
    decreases centers.len(),
{
    let n = centers.len() - 1;
    if n == 0 {
        assert(is_nearest(value, centers, 0));
    } else {
        let front = centers.drop_last();
        lemma_nearest_exists(value, front);
        let i = nearest(value, front);
        assert forall|j: int| 0 <= j < n implies front[j] == #[trigger] centers[j] by {}
        if gap(value, centers[n]) < gap(value, front[i]) {
            assert(is_nearest(value, centers, n));
        } else {
            assert(is_nearest(value, centers, i));
        }
    }
}

/// Of two values the lower one goes to the same center or to a lower one.
proof fn lemma_nearest_monotonic(a: u64, b: u64, centers: Seq<u64>)
    requires
        centers.len() > 0,
        a <= b,
    ensures
        nearest(a, centers) == nearest(b, centers) || centers[nearest(a, centers)] < centers[nearest(
            b,
            centers,
        )],
{
    lemma_nearest_exists(a, centers);
    lemma_nearest_exists(b, centers);
    let p = nearest(a, centers);
    let q = nearest(b, centers);
    assert(gap(a, centers[p]) <= gap(a, centers[q]));
    assert(gap(b, centers[q]) <= gap(b, centers[p]));
    if p < q {
        assert(gap(b, centers[q]) < gap(b, centers[p]));
    }
    if q < p {
        assert(gap(a, centers[p]) < gap(a, centers[q]));
    }
}

proof fn lemma_member_sum_bounds(
    samples: Seq<u64>,
    assignments: Seq<usize>,
    center: int,
    n: nat,
    low: nat,
    high: nat,
)
    requires
        n <= samples.len(),
        assignments.len() == samples.len(),
        forall|i: int|
            0 <= i < n && #[trigger] assignments[i] == center ==> low <= samples[i] <= high,
    ensures
        low * member_count(assignments, center, n) <= member_sum(samples, assignments, center, n)
            <= high * member_count(assignments, center, n),
    decreases n,
{
    if n > 0 {
        let m = (n - 1) as nat;
        lemma_member_sum_bounds(samples, assignments, center, m, low, high);
        let c = member_count(assignments, center, m);
        assert(low * (c + 1) == low * c + low) by (nonlinear_arith);
        assert(high * (c + 1) == high * c + high) by (nonlinear_arith);
    } else {
        assert(low * 0 == 0 && high * 0 == 0) by (nonlinear_arith);
    }
}

proof fn lemma_member_counted(assignments: Seq<usize>, i: int, n: nat)
    requires
        0 <= i < n,
    ensures
        member_count(assignments, assignments[i] as int, n) > 0,
    decreases n,
{
    if i < n - 1 {
        lemma_member_counted(assignments, i, (n - 1) as nat);
    }
}

/// A center with samples moves to somewhere between its lowest and its highest.
proof fn lemma_recentered_bounds(
    samples: Seq<u64>,
    centers: Seq<u64>,
    assignments: Seq<usize>,
    i: int,
    low: u64,
    high: u64,
)
    requires
        assignments.len() == samples.len(),
        0 <= i < samples.len(),
        assignments[i] < centers.len(),
        forall|m: int|
            0 <= m < samples.len() && #[trigger] assignments[m] == assignments[i] ==> low
                <= samples[m] <= high,
    ensures
        low <= recentered(samples, centers, assignments)[assignments[i] as int] <= high,
{
    let c = assignments[i] as int;
    lemma_member_counted(assignments, i, samples.len());
    lemma_member_sum_bounds(samples, assignments, c, samples.len(), low as nat, high as nat);
    let count = member_count(assignments, c, samples.len());
    let sum = member_sum(samples, assignments, c, samples.len());
    assert(low <= sum / count <= high) by (nonlinear_arith)
        requires
            count > 0,
            low * count <= sum <= high * count,
    ;
}

proof fn lemma_lloyd_last_round(
    samples: Seq<u64>,
    centers: Seq<u64>,
    assignments: Seq<usize>,
    rounds: nat,
) -> (last: Seq<u64>)
    requires
        rounds > 0,
    ensures
        last.len() == centers.len(),
        lloyd(samples, centers, assignments, rounds).1 == assigned(samples, last),
        lloyd(samples, centers, assignments, rounds).0 == recentered(
            samples,
            last,
            assigned(samples, last),
        ),
    decreases rounds,
{
    let next = assigned(samples, centers);
    let moved = recentered(samples, centers, next);
    if next == assignments {
        centers
    } else if rounds == 1 {
        assert(lloyd(samples, moved, next, 0) == (moved, next));
        centers
    } else {
        lemma_lloyd_last_round(samples, moved, next, (rounds - 1) as nat)
    }
}

proof fn lemma_rank_monotonic(centers: Seq<u64>, x: usize, y: usize)
    requires
        centers.len() <= usize::MAX,
        x < centers.len(),
        y < centers.len(),
        x == y || centers[x as int] < centers[y as int],
    ensures
        0 <= rank(centers, x) <= rank(centers, y) < centers.len(),
{
    lemma_ascending_order(centers);
    let order = ascending_order(centers);
    assert(order.contains(x));
    assert(order.contains(y));
    let p = rank(centers, x);
    let q = rank(centers, y);
    assert(0 <= p < centers.len() && order[p] == x);
    assert(0 <= q < centers.len() && order[q] == y);
    if q < p {
        assert(centers[order[q] as int] <= centers[order[p] as int]);
    }
}

proof fn lemma_filled_rank_range(samples: Seq<u64>, centers: Seq<u64>, j: int)
    requires
        0 < centers.len() <= samples.len(),
        0 <= j < samples.len(),
    ensures
        0 <= filled_rank(samples, centers, j) < centers.len(),
        filled_rank(samples, centers, j) <= j,
    decreases samples.len() - j,
{
    if j < samples.len() - 1 {
        lemma_filled_rank_range(samples, centers, j + 1);
    }
}

proof fn lemma_filled_rank_monotonic(samples: Seq<u64>, centers: Seq<u64>, p: int, q: int)
    requires
        0 <= p <= q < samples.len(),
    ensures
        filled_rank(samples, centers, p) <= filled_rank(samples, centers, q),
    decreases q - p,
{
    if p < q {
        lemma_filled_rank_monotonic(samples, centers, p + 1, q);
    }
}

/// Every rank from that of the `j`-th lowest sample on is the rank of some sample.
proof fn lemma_filled_rank_reaches(samples: Seq<u64>, centers: Seq<u64>, j: int, t: int) -> (m: int)
    requires
        0 < centers.len() <= samples.len(),
        0 <= j < samples.len(),
        filled_rank(samples, centers, j) <= t < centers.len(),
    ensures
        j <= m < samples.len(),
        filled_rank(samples, centers, m) == t,
    decreases samples.len() - j,
{
    if filled_rank(samples, centers, j) == t {
        j
    } else {
        lemma_filled_rank_reaches(samples, centers, j + 1, t)
    }
}

proof fn lemma_member_found(assignments: Seq<usize>, center: int, n: nat) -> (i: int)
    requires
        member_count(assignments, center, n) > 0,
    ensures
        0 <= i < n,
        assignments[i] == center,
    decreases n,
{
    if assignments[n - 1] == center {
        n - 1
    } else {
        lemma_member_found(assignments, center, (n - 1) as nat)
    }
}

proof fn lemma_filled(samples: Seq<u64>, centers: Seq<u64>)
    requires
        0 < centers.len() <= samples.len() <= usize::MAX,
    ensures
        forall|i: int| 0 <= i < samples.len() ==> #[trigger] filled(samples, centers)[i]
            < centers.len(),
        is_covered(filled(samples, centers), centers.len()),
{
    let assignments = filled(samples, centers);
    lemma_ascending_order(samples);
    lemma_ascending_order(centers);
    assert forall|i: int| 0 <= i < samples.len() implies #[trigger] assignments[i]
        < centers.len() by {
        lemma_rank_monotonic(samples, i as usize, i as usize);
        lemma_filled_rank_range(samples, centers, rank(samples, i as usize));
    }
    assert forall|c: int| 0 <= c < centers.len() implies #[trigger] member_count(
        assignments,
        c,
        assignments.len(),
    ) > 0 by {
        lemma_rank_monotonic(centers, c as usize, c as usize);
        assert(ascending_order(centers).contains(c as usize));
        let t = rank(centers, c as usize);
        assert(0 <= t < centers.len() && ascending_order(centers)[t] == c);
        lemma_filled_rank_range(samples, centers, 0);
        let m = lemma_filled_rank_reaches(samples, centers, 0, t);
        let i = ascending_order(samples)[m] as int;
        assert(i < samples.len());
        lemma_rank(samples, m);
        assert(assignments[i] == c);
        lemma_member_counted(assignments, i, assignments.len());
    }
}

/// Putting centers to use leaves no center out where there are samples enough. Centers that had
/// samples stay where they are, and the others move to samples.
pub proof fn lemma_covered(samples: Seq<u64>, centers: Seq<u64>, assignments: Seq<usize>)
    requires
        0 < samples.len() <= usize::MAX,
        centers.len() <= usize::MAX,
        assignments.len() == samples.len(),
        forall|i: int| 0 <= i < samples.len() ==> #[trigger] assignments[i] < centers.len(),
    ensures
        ({
            let after = covered(samples, centers, assignments);
            &&& after.0.len() == centers.len()
            &&& after.1.len() == samples.len()
            &&& forall|i: int| 0 <= i < samples.len() ==> #[trigger] after.1[i] < centers.len()
            &&& samples.len() >= centers.len() ==> is_covered(after.1, centers.len())
            &&& forall|c: int|
                0 <= c < centers.len() ==> if member_count(assignments, c, samples.len()) > 0 {
                    #[trigger] after.0[c] == centers[c]
                } else {
                    samples.contains(after.0[c])
                }
        }),
{
    let after = covered(samples, centers, assignments);
    assert(assignments[0] < centers.len());
    if !is_covered(assignments, centers.len()) {
        let spread = respread(samples, centers, assignments);
        let near = assigned(samples, spread);
        assert forall|i: int| 0 <= i < samples.len() implies #[trigger] near[i] < centers.len() by {
            lemma_nearest_exists(samples[i], spread);
        }
        if samples.len() >= centers.len() {
            lemma_filled(samples, spread);
        }
        assert forall|c: int| 0 <= c < centers.len() implies if member_count(
            assignments,
            c,
            samples.len(),
        ) > 0 {
            #[trigger] after.0[c] == centers[c]
        } else {
            samples.contains(after.0[c])
        } by {
            if member_count(assignments, c, samples.len()) == 0 {
                let p = spread_position(c, centers.len() as int, samples.len() - 1);
                lemma_spread_position(c, centers.len() as int, samples.len() - 1);
                lemma_sort_by(samples, latency_key());
                assert(ascending(samples).contains(ascending(samples)[p]));
            }
        }
    }
}

/// After the last round, a sample that is lower than another has no higher center.
proof fn lemma_settled_monotonic(samples: Seq<u64>, k: nat, i: int, j: int)
    requires
        0 < k <= usize::MAX,
        samples.len() <= usize::MAX,
        0 <= i < samples.len(),
        0 <= j < samples.len(),
        samples[i] < samples[j] || i == j,
    ensures
        ({
            let (centers, assignments) = settled_centers(samples, k);
            &&& centers.len() == k
            &&& assignments[i] < k
            &&& assignments[j] < k
            &&& 0 <= rank(centers, assignments[i]) <= rank(centers, assignments[j]) < k
        }),
{
    let start = Seq::new(samples.len(), |i: int| 0usize);
    let first = initial_centers(samples, k);
    let settled = lloyd(samples, first, start, KMEANS_ITERATIONS as nat);
    let last = lemma_lloyd_last_round(samples, first, start, KMEANS_ITERATIONS as nat);
    let assignments = assigned(samples, last);
    if is_covered(settled.1, settled.0.len()) {
        lemma_nearest_exists(samples[i], last);
        lemma_nearest_exists(samples[j], last);
        lemma_nearest_monotonic(samples[i], samples[j], last);
        if assignments[i] != assignments[j] {
            let high = highest_member(samples, assignments, assignments[i], samples.len());
            let low = (high + 1) as u64;
            lemma_highest_member(samples, assignments, assignments[i], samples.len(), i);
            assert forall|m: int|
                0 <= m < samples.len() && #[trigger] assignments[m] == assignments[j] implies high
                < samples[m] by {
                let top = highest_index(samples, assignments, assignments[i], samples.len());
                lemma_highest_member(samples, assignments, assignments[i], samples.len(), i);
                lemma_nearest_exists(samples[top], last);
                lemma_nearest_exists(samples[m], last);
                if samples[m] <= samples[top] {
                    lemma_nearest_monotonic(samples[m], samples[top], last);
                }
            }
            assert(high < samples[j]);
            assert forall|m: int|
                0 <= m < samples.len() && #[trigger] assignments[m] == assignments[i] implies 0
                <= samples[m] <= high by {
                lemma_highest_member(samples, assignments, assignments[i], samples.len(), m);
            }
            lemma_recentered_bounds(samples, last, assignments, i, 0, high);
            lemma_recentered_bounds(samples, last, assignments, j, low, u64::MAX);
        }
        lemma_rank_monotonic(settled.0, assignments[i], assignments[j]);
    } else {
        let spread = respread(samples, settled.0, settled.1);
        let near = assigned(samples, spread);
        if is_covered(near, k) || samples.len() < k {
            lemma_nearest_exists(samples[i], spread);
            lemma_nearest_exists(samples[j], spread);
            lemma_nearest_monotonic(samples[i], samples[j], spread);
            lemma_rank_monotonic(spread, near[i], near[j]);
        } else {
            lemma_filled(samples, spread);
            lemma_rank_monotonic(samples, i as usize, j as usize);
            let p = rank(samples, i as usize);
            let q = rank(samples, j as usize);
            lemma_filled_rank_range(samples, spread, p);
            lemma_filled_rank_range(samples, spread, q);
            lemma_filled_rank_monotonic(samples, spread, p, q);
            lemma_rank(spread, filled_rank(samples, spread, p));
            lemma_rank(spread, filled_rank(samples, spread, q));
            assert(filled(samples, spread)[i] == ascending_order(spread)[filled_rank(
                samples,
                spread,
                p,
            )]);
            assert(filled(samples, spread)[j] == ascending_order(spread)[filled_rank(
                samples,
                spread,
                q,
            )]);
        }
    }
}

spec fn highest_index(samples: Seq<u64>, assignments: Seq<usize>, center: usize, n: nat) -> int
    decreases n,
{
    if n == 0 {
        -1
    } else {
        let before = highest_index(samples, assignments, center, (n - 1) as nat);
        if assignments[n - 1] == center && (before < 0 || samples[before] < samples[n - 1]) {
            n - 1
        } else {
            before
        }
    }
}

spec fn highest_member(samples: Seq<u64>, assignments: Seq<usize>, center: usize, n: nat) -> u64 {
    samples[highest_index(samples, assignments, center, n)]
}

proof fn lemma_highest_member(
    samples: Seq<u64>,
    assignments: Seq<usize>,
    center: usize,
    n: nat,
    i: int,
)
    requires
        0 <= i < n <= samples.len(),
        assignments[i] == center,
    ensures
        0 <= highest_index(samples, assignments, center, n) < n,
        assignments[highest_index(samples, assignments, center, n)] == center,
        samples[i] <= highest_member(samples, assignments, center, n),
    decreases n,
{
    let m = (n - 1) as nat;
    lemma_highest_index_range(samples, assignments, center, m);
    if i < m {
        lemma_highest_member(samples, assignments, center, m, i);
    }
}

proof fn lemma_highest_index_range(
    samples: Seq<u64>,
    assignments: Seq<usize>,
    center: usize,
    n: nat,
)
    ensures
        -1 <= highest_index(samples, assignments, center, n) < n,
        highest_index(samples, assignments, center, n) >= 0 ==> assignments[highest_index(
            samples,
            assignments,
            center,
            n,
        )] == center,
    decreases n,
{
    if n > 0 {
        lemma_highest_index_range(samples, assignments, center, (n - 1) as nat);
    }
}

/// A sample that is faster than another is never in a slower cluster.
pub proof fn lemma_faster_samples_in_faster_clusters(samples: Seq<u64>, k: nat, i: int, j: int)
    requires
        0 < k <= usize::MAX,
        samples.len() <= usize::MAX,
        0 <= i < samples.len(),
        0 <= j < samples.len(),
        samples[i] < samples[j],
    ensures
        clustering(samples, k).assignments[i] <= clustering(samples, k).assignments[j],
{
    lemma_settled_monotonic(samples, k, i, j);
}

proof fn lemma_inertia_same(
    samples: Seq<u64>,
    centers: Seq<u64>,
    assignments: Seq<usize>,
    other_centers: Seq<u64>,
    other_assignments: Seq<usize>,
    n: nat,
)
    requires
        n <= samples.len(),
        forall|i: int|
            0 <= i < n ==> centers[#[trigger] assignments[i] as int]
                == other_centers[other_assignments[i] as int],
    ensures
        inertia(samples, centers, assignments, n) == inertia(
            samples,
            other_centers,
            other_assignments,
            n,
        ),
    decreases n,
{
    if n > 0 {
        lemma_inertia_same(
            samples,
            centers,
            assignments,
            other_centers,
            other_assignments,
            (n - 1) as nat,
        );
        assert(centers[assignments[n - 1] as int] == other_centers[other_assignments[n - 1] as int]);
    }
}

/// A clustering has `k` centers, from the fastest to the slowest, and each sample is in one of
/// its clusters. Where there are samples enough, every cluster has one. Its inertia is that of
/// its own centers and assignments.
pub proof fn lemma_clustering(samples: Seq<u64>, k: nat)
    requires
        0 < k <= usize::MAX,
        0 < samples.len() <= usize::MAX,
    ensures
        ({
            let c = clustering(samples, k);
            &&& c.centers.len() == k
            &&& sorted_by(c.centers, latency_key())
            &&& c.assignments.len() == samples.len()
            &&& forall|i: int| 0 <= i < samples.len() ==> #[trigger] c.assignments[i] < k
            &&& samples.len() >= k ==> is_onto(c.assignments, k)
            &&& c.inertia == inertia(samples, c.centers, c.assignments, samples.len())
        }),
{
    let c = clustering(samples, k);
    let (centers, assignments) = settled_centers(samples, k);
    let start = Seq::new(samples.len(), |i: int| 0usize);
    let first = initial_centers(samples, k);
    let settled = lloyd(samples, first, start, KMEANS_ITERATIONS as nat);
    let last = lemma_lloyd_last_round(samples, first, start, KMEANS_ITERATIONS as nat);
    assert forall|i: int| 0 <= i < samples.len() implies #[trigger] settled.1[i] < k by {
        lemma_nearest_exists(samples[i], last);
    }
    lemma_covered(samples, settled.0, settled.1);
    lemma_ascending_order(centers);
    let order = ascending_order(centers);
    assert forall|i: int| 0 <= i < samples.len() implies #[trigger] c.assignments[i] < k
        && c.centers[c.assignments[i] as int] == centers[assignments[i] as int] by {
        assert(assignments[i] < k);
        lemma_rank_monotonic(centers, assignments[i], assignments[i]);
        assert(order.contains(assignments[i]));
        let p = rank(centers, assignments[i]);
        assert(0 <= p < k && order[p] == assignments[i]);
    }
    lemma_inertia_same(samples, c.centers, c.assignments, centers, assignments, samples.len());
    assert forall|p: int, q: int| 0 <= p < q < k implies latency_key()(#[trigger] c.centers[p])
        <= latency_key()(#[trigger] c.centers[q]) by {
        assert(centers[order[p] as int] <= centers[order[q] as int]);
    }
    if samples.len() >= k {
        assert forall|t: int| 0 <= t < k implies #[trigger] has_member(c.assignments, t) by {
            let center = order[t] as int;
            assert(order[t] < k);
            assert(member_count(assignments, center, assignments.len()) > 0);
            let i = lemma_member_found(assignments, center, assignments.len());
            lemma_rank(centers, t);
            assert(c.assignments[i] == t);
        }
    }
}

proof fn lemma_best_count_exists(samples: Seq<u64>, lo: nat, hi: nat, penalty: nat) -> (best: nat)
    requires
        lo <= hi,
    ensures
        is_best_count(samples, lo, hi, penalty, best),
    decreases hi - lo,
{
    if hi == lo {
        lo
    } else {
        let best = lemma_best_count_exists(samples, lo, (hi - 1) as nat, penalty);
        if score(samples, hi, penalty) < score(samples, best, penalty) {
            hi
        } else {
            best
        }
    }
}

/// The best clustering is the clustering into some allowed number of clusters with the lowest
/// score of all, and a lower one than any smaller number. Without samples there is nothing.
pub proof fn lemma_chooses_best_count(samples: Seq<u64>, min_k: nat, max_k: nat, penalty: nat) -> (k:
    nat)
    ensures
        ({
            let lo = larger(min_k, 1);
            let hi = larger(max_k, lo);
            &&& is_best_count(samples, lo, hi, penalty, k)
            &&& best_clustering(samples, min_k, max_k, penalty) == if samples.len() == 0 {
                (Seq::empty(), Seq::empty())
            } else {
                (clustering(samples, k).centers, clustering(samples, k).assignments)
            }
        }),
{
    let lo = larger(min_k, 1);
    let hi = larger(max_k, lo);
    let k = lemma_best_count_exists(samples, lo, hi, penalty);
    lemma_best_count_unique(samples, lo, hi, penalty, k);
    k
}

/// The best clustering has at least as many centers as asked for, and no more than allowed. Its
/// centers go from the fastest to the slowest, and each sample is in one of its clusters. Where
/// there are samples enough, every cluster has one. A sample that is faster than another is never
/// in a slower cluster.
pub proof fn lemma_best_clustering(samples: Seq<u64>, min_k: nat, max_k: nat, penalty: nat)
    requires
        0 < samples.len() <= usize::MAX,
        larger(larger(min_k, 1), max_k) <= usize::MAX,
    ensures
        ({
            let (centers, assignments) = best_clustering(samples, min_k, max_k, penalty);
            let lo = larger(min_k, 1);
            &&& lo <= centers.len() <= larger(lo, max_k)
            &&& sorted_by(centers, latency_key())
            &&& assignments.len() == samples.len()
            &&& forall|i: int|
                0 <= i < samples.len() ==> #[trigger] assignments[i] < centers.len()
            &&& samples.len() >= centers.len() ==> is_onto(assignments, centers.len())
            &&& forall|i: int, j: int|
                0 <= i < samples.len() && 0 <= j < samples.len() && samples[i] < samples[j]
                    ==> #[trigger] assignments[i] <= #[trigger] assignments[j]
        }),
{
    let k = lemma_chooses_best_count(samples, min_k, max_k, penalty);
    let best = clustering(samples, k);
    lemma_clustering(samples, k);
    assert forall|i: int, j: int|
        0 <= i < samples.len() && 0 <= j < samples.len() && samples[i]
            < samples[j] implies #[trigger] best.assignments[i]
        <= #[trigger] best.assignments[j] by {
        lemma_faster_samples_in_faster_clusters(samples, k, i, j);
    }
}

/// The centers to start from are samples, from the lowest on; a single one is the highest sample.
pub proof fn lemma_initial_centers(samples: Seq<u64>, k: nat)
    requires
        samples.len() > 0,
    ensures
        initial_centers(samples, k).len() == k,
        sorted_by(initial_centers(samples, k), latency_key()),
        forall|i: int| 0 <= i < k ==> samples.contains(#[trigger] initial_centers(samples, k)[i]),
        k == 1 ==> forall|i: int|
            0 <= i < samples.len() ==> #[trigger] samples[i] <= initial_centers(samples, k)[0],
{
    let key = latency_key();
    let sorted = ascending(samples);
    let centers = initial_centers(samples, k);
    let top = samples.len() - 1;
    lemma_sort_by(samples, key);
    assert forall|i: int| 0 <= i < k implies samples.contains(#[trigger] centers[i]) by {
        lemma_spread_position(i, k as int, top);
        let p = if k == 1 { top } else { spread_position(i, k as int, top) };
        assert(sorted.contains(sorted[p]));
    }
    assert forall|i: int, j: int| 0 <= i < j < k implies key(#[trigger] centers[i]) <= key(
        #[trigger] centers[j],
    ) by {
        let kk = k as int;
        lemma_spread_position(i, kk, top);
        lemma_spread_position(j, kk, top);
        let a = (2 * i + 1) * top + kk;
        let b = (2 * j + 1) * top + kk;
        assert(a / (2 * kk) <= b / (2 * kk)) by (nonlinear_arith)
            requires
                a == (2 * i + 1) * top + kk,
                b == (2 * j + 1) * top + kk,
                0 <= i < j < kk,
                0 <= top,
        ;
        let p = spread_position(i, kk, top);
        let q = spread_position(j, kk, top);
        if p < q {
            assert(key(sorted[p]) <= key(sorted[q]));
        }
    }
    if k == 1 {
        assert forall|i: int| 0 <= i < samples.len() implies #[trigger] samples[i]
            <= centers[0] by {
            assert(samples.contains(samples[i]));
            assert(sorted.contains(samples[i]));
            let m = choose|m: int| 0 <= m < sorted.len() && sorted[m] == samples[i];
            if m < top {
                assert(key(sorted[m]) <= key(sorted[top]));
            }
        }
    }
}

/// The centers after one round: each at the mean of the samples that are nearest to it.
pub open spec fn moved_once(samples: Seq<u64>, centers: Seq<u64>) -> Seq<u64> {
    recentered(samples, centers, assigned(samples, centers))
}

/// The centers after so many rounds.
pub open spec fn after_rounds(samples: Seq<u64>, centers: Seq<u64>, rounds: nat) -> Seq<u64>
    decreases rounds,
{
    if rounds == 0 {
        centers
    } else {
        after_rounds(samples, moved_once(samples, centers), (rounds - 1) as nat)
    }
}

proof fn lemma_fixed_centers(samples: Seq<u64>, centers: Seq<u64>, rounds: nat)
    requires
        moved_once(samples, centers) == centers,
    ensures
        after_rounds(samples, centers, rounds) == centers,
    decreases rounds,
{
    if rounds > 0 {
        lemma_fixed_centers(samples, centers, (rounds - 1) as nat);
    }
}

proof fn lemma_lloyd_rounds(
    samples: Seq<u64>,
    before: Seq<u64>,
    assignments: Seq<usize>,
    rounds: nat,
)
    ensures
        lloyd(samples, recentered(samples, before, assignments), assignments, rounds).0
            == after_rounds(samples, recentered(samples, before, assignments), rounds),
    decreases rounds,
{
    let centers = recentered(samples, before, assignments);
    if rounds > 0 {
        let next = assigned(samples, centers);
        let moved = moved_once(samples, centers);
        let fewer = (rounds - 1) as nat;
        if next == assignments {
            assert(moved =~= centers);
            lemma_fixed_centers(samples, centers, fewer);
        } else {
            lemma_lloyd_rounds(samples, centers, next, fewer);
        }
    }
}

/// Ending the rounds early changes nothing: the centers are those after all twenty rounds, unless
/// the very first round assigns every sample to the first center, which counts as no change.
pub proof fn lemma_all_rounds_count(samples: Seq<u64>, k: nat)
    requires
        assigned(samples, initial_centers(samples, k)) != Seq::new(
            samples.len(),
            |i: int| 0usize,
        ),
    ensures
        lloyd(
            samples,
            initial_centers(samples, k),
            Seq::new(samples.len(), |i: int| 0usize),
            KMEANS_ITERATIONS as nat,
        ).0 == after_rounds(samples, initial_centers(samples, k), 20),
{
    let first = initial_centers(samples, k);
    lemma_lloyd_rounds(samples, first, assigned(samples, first), 19);
}

proof fn lemma_same_members(
    samples: Seq<u64>,
    a: Seq<usize>,
    s: int,
    b: Seq<usize>,
    t: int,
    n: nat,
)
    requires
        n <= samples.len(),
        a.len() == samples.len(),
        b.len() == samples.len(),
        forall|i: int| 0 <= i < n ==> (#[trigger] a[i] == s <==> b[i] == t),
    ensures
        member_count(a, s, n) == member_count(b, t, n),
        member_sum(samples, a, s, n) == member_sum(samples, b, t, n),
    decreases n,
{
    if n > 0 {
        lemma_same_members(samples, a, s, b, t, (n - 1) as nat);
        assert(a[n - 1] == s <==> b[n - 1] == t);
    }
}

/// Every centroid is the mean of the samples of its cluster, rounded down, unless some center was
/// left without samples when the rounds were over.
pub proof fn lemma_centers_are_means(samples: Seq<u64>, k: nat, t: int)
    requires
        0 < k <= usize::MAX,
        0 < samples.len() <= usize::MAX,
        0 <= t < k,
        is_covered(
            lloyd(
                samples,
                initial_centers(samples, k),
                Seq::new(samples.len(), |i: int| 0usize),
                KMEANS_ITERATIONS as nat,
            ).1,
            k,
        ),
    ensures
        ({
            let c = clustering(samples, k);
            let count = member_count(c.assignments, t, samples.len()) as int;
            let sum = member_sum(samples, c.assignments, t, samples.len());
            &&& count > 0
            &&& count * c.centers[t] <= sum < count * (c.centers[t] + 1)
        }),
{
    let c = clustering(samples, k);
    let start = Seq::new(samples.len(), |i: int| 0usize);
    let first = initial_centers(samples, k);
    let settled = lloyd(samples, first, start, KMEANS_ITERATIONS as nat);
    let last = lemma_lloyd_last_round(samples, first, start, KMEANS_ITERATIONS as nat);
    let (centers, assignments) = settled_centers(samples, k);
    assert forall|i: int| 0 <= i < samples.len() implies #[trigger] assignments[i] < k by {
        lemma_nearest_exists(samples[i], last);
    }
    lemma_ascending_order(centers);
    let order = ascending_order(centers);
    let s = order[t] as int;
    assert(order[t] < k);
    assert forall|i: int| 0 <= i < samples.len() implies (#[trigger] c.assignments[i] == t
        <==> assignments[i] == s) by {
        assert(assignments[i] < k);
        assert(order.contains(assignments[i]));
        let p = choose|p: int| 0 <= p < order.len() && order[p] == assignments[i];
        lemma_rank(centers, p);
        assert(c.assignments[i] == p);
    }
    lemma_same_members(samples, c.assignments, t, assignments, s, samples.len());
    let count = member_count(assignments, s, samples.len()) as int;
    let sum = member_sum(samples, assignments, s, samples.len()) as int;
    assert(count > 0);
    lemma_member_sum_bounds(samples, assignments, s, samples.len(), 0, u64::MAX as nat);
    assert(0 <= sum / count <= u64::MAX) by (nonlinear_arith)
        requires
            count > 0,
            0 <= sum <= u64::MAX * count,
    ;
    assert(count * (sum / count) <= sum < count * (sum / count + 1)) by (nonlinear_arith)
        requires
            count > 0,
            0 <= sum,
    ;
    assert(centers[s] == sum / count);
}

/// Every value has a nearest center, and it is the one that no other is nearer than; of several
/// equally near ones the first.
pub proof fn lemma_nearest_is_nearest(value: u64, centers: Seq<u64>, j: int)
    requires
        0 <= j < centers.len(),
    ensures
        ({
            let i = nearest(value, centers);
            let near = centers[i] - value;
            let other = centers[j] - value;
            &&& 0 <= i < centers.len()
            &&& -gap(value, centers[j]) <= near <= gap(value, centers[j])
            &&& other == near || other == -near ==> i <= j
        }),
{
    lemma_nearest_exists(value, centers);
    let i = nearest(value, centers);
    assert(gap(value, centers[i]) <= gap(value, centers[j]));
}

/// The inertia of one sample is the square of how far it is from its center.
pub proof fn lemma_inertia_of_one(sample: u64, centers: Seq<u64>, center: usize)
    requires
        center < centers.len(),
    ensures
        inertia(seq![sample], centers, seq![center], 1) == (sample - centers[center as int]) * (
        sample - centers[center as int]),
{
    let d = gap(sample, centers[center as int]);
    let e = sample - centers[center as int];
    reveal_with_fuel(inertia, 2);
    assert(d * d == e * e) by (nonlinear_arith)
        requires
            d == e || d == -e,
    ;
}

/// Inertia adds up: that of some samples and some more is that of the ones and that of the others.
pub proof fn lemma_inertia_adds_up(
    samples: Seq<u64>,
    assignments: Seq<usize>,
    more: Seq<u64>,
    more_assignments: Seq<usize>,
    centers: Seq<u64>,
)
    requires
        assignments.len() == samples.len(),
        more_assignments.len() == more.len(),
    ensures
        inertia(
            samples + more,
            centers,
            assignments + more_assignments,
            samples.len() + more.len(),
        ) == inertia(samples, centers, assignments, samples.len()) + inertia(
            more,
            centers,
            more_assignments,
            more.len(),
        ),
{
    lemma_inertia_of_parts(
        samples,
        assignments,
        more,
        more_assignments,
        centers,
        samples.len() + more.len(),
    );
}

proof fn lemma_inertia_of_parts(
    samples: Seq<u64>,
    assignments: Seq<usize>,
    more: Seq<u64>,
    more_assignments: Seq<usize>,
    centers: Seq<u64>,
    n: nat,
)
    requires
        assignments.len() == samples.len(),
        more_assignments.len() == more.len(),
        n <= samples.len() + more.len(),
    ensures
        n <= samples.len() ==> inertia(
            samples + more,
            centers,
            assignments + more_assignments,
            n,
        ) == inertia(samples, centers, assignments, n),
        n >= samples.len() ==> inertia(
            samples + more,
            centers,
            assignments + more_assignments,
            n,
        ) == inertia(samples, centers, assignments, samples.len()) + inertia(
            more,
            centers,
            more_assignments,
            (n - samples.len()) as nat,
        ),
    decreases n,
{
    if n > 0 {
        lemma_inertia_of_parts(
            samples,
            assignments,
            more,
            more_assignments,
            centers,
            (n - 1) as nat,
        );
    }
}

/// Whether a clustering into `k` clusters costs no more than one into `j`, where each cluster costs
/// the penalty and each clustering its inertia. Costs from `u128::MAX` on are all the same.
pub open spec fn costs_no_more(samples: Seq<u64>, penalty: nat, k: nat, j: nat) -> bool {
    ||| clustering(samples, k).inertia + k * penalty <= clustering(samples, j).inertia + j * penalty
    ||| clustering(samples, j).inertia + j * penalty >= u128::MAX
}

/// The best clustering is a cheapest one of all that are allowed, and of the cheapest ones that
/// with the fewest clusters.
pub proof fn lemma_best_is_cheapest(
    samples: Seq<u64>,
    min_k: nat,
    max_k: nat,
    penalty: nat,
    j: nat,
) -> (k: nat)
    requires
        0 < samples.len() <= usize::MAX,
        1 <= min_k <= j <= max_k <= usize::MAX,
    ensures
        min_k <= k <= max_k,
        best_clustering(samples, min_k, max_k, penalty).0 == clustering(samples, k).centers,
        best_clustering(samples, min_k, max_k, penalty).1 == clustering(samples, k).assignments,
        best_clustering(samples, min_k, max_k, penalty).0.len() == k,
        costs_no_more(samples, penalty, k, j),
        j < k ==> !costs_no_more(samples, penalty, j, k),
{
    let k = lemma_chooses_best_count(samples, min_k, max_k, penalty);
    lemma_clustering(samples, k);
    assert(score(samples, k, penalty) <= score(samples, j, penalty));
    if j < k {
        assert(score(samples, k, penalty) < score(samples, j, penalty));
    }
    k
}

/// A higher penalty never makes for more clusters, as long as no cost is too high to be told.
pub proof fn lemma_penalty_discourages_clusters(
    samples: Seq<u64>,
    min_k: nat,
    max_k: nat,
    low: nat,
    high: nat,
)
    requires
        0 < samples.len() <= usize::MAX,
        1 <= min_k <= max_k <= usize::MAX,
        low <= high,
        forall|k: nat|
            min_k <= k <= max_k ==> #[trigger] clustering(samples, k).inertia + k * high
                < u128::MAX,
    ensures
        best_clustering(samples, min_k, max_k, high).0.len() <= best_clustering(
            samples,
            min_k,
            max_k,
            low,
        ).0.len(),
{
    let a = lemma_best_is_cheapest(samples, min_k, max_k, low, min_k);
    let b = lemma_best_is_cheapest(samples, min_k, max_k, high, min_k);
    if b > a {
        let _ = lemma_best_is_cheapest(samples, min_k, max_k, low, b);
        let _ = lemma_best_is_cheapest(samples, min_k, max_k, high, a);
        let x = clustering(samples, a).inertia;
        let y = clustering(samples, b).inertia;
        assert(a * low <= a * high) by (nonlinear_arith)
            requires
                low <= high,
        ;
        assert(b * low <= b * high) by (nonlinear_arith)
            requires
                low <= high,
        ;
        assert(x + a * low <= y + b * low);
        assert(y + b * high < x + a * high);
        assert(false) by (nonlinear_arith)
            requires
                x + a * low <= y + b * low,
                y + b * high < x + a * high,
                a < b,
                low <= high,
        ;
    }
}

/// A center without samples moves to where it would be if the centers were spread evenly over the
/// sorted samples: to the sample whose place is nearest to the middle of the center's share.
pub proof fn lemma_idle_center_is_spread(
    samples: Seq<u64>,
    centers: Seq<u64>,
    assignments: Seq<usize>,
    c: int,
) -> (q: int)
    requires
        0 < samples.len(),
        assignments.len() == samples.len(),
        0 <= c < centers.len(),
        forall|i: int| 0 <= i < samples.len() ==> #[trigger] assignments[i] != c,
    ensures
        0 <= q < samples.len(),
        covered(samples, centers, assignments).0[c] == ascending(samples)[q],
        2 * centers.len() * q <= (2 * c + 1) * (samples.len() - 1) + centers.len(),
        (2 * c + 1) * (samples.len() - 1) + centers.len() < 2 * centers.len() * (q + 1),
{
    let q = spread_position(c, centers.len() as int, samples.len() - 1);
    lemma_spread_position(c, centers.len() as int, samples.len() - 1);
    lemma_nobody_counted(assignments, c, assignments.len());
    q
}

proof fn lemma_nobody_counted(assignments: Seq<usize>, c: int, n: nat)
    requires
        n <= assignments.len(),
        forall|i: int| 0 <= i < assignments.len() ==> #[trigger] assignments[i] != c,
    ensures
        member_count(assignments, c, n) == 0,
    decreases n,
{
    if n > 0 {
        lemma_nobody_counted(assignments, c, (n - 1) as nat);
    }
}

/// Once centers were moved, each sample goes to its nearest center, if that leaves no center
/// without samples or there are fewer samples than centers.
pub proof fn lemma_moved_centers_get_the_nearest(
    samples: Seq<u64>,
    centers: Seq<u64>,
    assignments: Seq<usize>,
    near: Seq<usize>,
    i: int,
)
    requires
        !is_covered(assignments, centers.len()),
        0 <= i < samples.len(),
        near.len() == samples.len(),
        centers.len() <= usize::MAX,
        forall|j: int|
            0 <= j < samples.len() ==> is_nearest(
                samples[j],
                covered(samples, centers, assignments).0,
                #[trigger] near[j] as int,
            ),
        is_covered(near, centers.len()) || samples.len() < centers.len(),
    ensures
        covered(samples, centers, assignments).1[i] == near[i],
{
    let spread = respread(samples, centers, assignments);
    assert(covered(samples, centers, assignments).0 == spread);
    assert forall|j: int| 0 <= j < samples.len() implies #[trigger] near[j] == assigned(
        samples,
        spread,
    )[j] by {
        lemma_nearest_unique(samples[j], spread, near[j] as int);
    }
    assert(near =~= assigned(samples, spread));
}

/// Where the samples have to fill all centers, they do so from the highest on. The highest sample
/// gets the highest center, and each one below gets the center of the one above it or the next
/// lower center. It gets the lower one exactly if its nearest center is below that of the one
/// above, or else too few samples would be left for the centers that are left.
pub proof fn lemma_filled_from_the_top(samples: Seq<u64>, centers: Seq<u64>, j: int)
    requires
        0 < centers.len() <= samples.len() <= usize::MAX,
        0 <= j < samples.len() - 1,
    ensures
        ({
            let order = ascending_order(samples);
            let given = filled(samples, centers);
            let top = rank(centers, given[order[samples.len() - 1] as int]);
            let here = rank(centers, given[order[j] as int]);
            let above = rank(centers, given[order[j + 1] as int]);
            let wanted = rank(
                centers,
                nearest(samples[order[j] as int], centers) as usize,
            );
            &&& top == centers.len() - 1
            &&& 0 <= here <= above <= here + 1
            &&& above > 0 ==> (here < above <==> wanted < above || above == j + 1)
        }),
{
    let order = ascending_order(samples);
    let n = samples.len();
    lemma_ascending_order(samples);
    lemma_ascending_order(centers);
    lemma_filled_rank_range(samples, centers, j);
    lemma_filled_rank_range(samples, centers, j + 1);
    lemma_filled_rank_range(samples, centers, n - 1);
    lemma_rank(samples, j);
    lemma_rank(samples, j + 1);
    lemma_rank(samples, n - 1);
    assert(order[j] < n && order[j + 1] < n && order[n - 1] < n);
    lemma_rank(centers, filled_rank(samples, centers, j));
    lemma_rank(centers, filled_rank(samples, centers, j + 1));
    lemma_rank(centers, filled_rank(samples, centers, n - 1));
}

} // verus!
