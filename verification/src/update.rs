//! The update pass: every centroid moves to the mean colour of its cluster,
//! and the distance it has moved decides on convergence.

use vstd::prelude::*;
use vstd::arithmetic::div_mod::lemma_fundamental_div_mod_converse;
use crate::color::{all_wf, displacement_sq, Centroid, CHANNEL_MAX, SCALE};
use crate::image::Image;
use crate::reduce::{cluster_tally, reduce_cluster, Accumulator, Tally};

verus! {

/// The square of the tolerance: a run has converged when every centroid
/// has moved by less than 1/256 of one step of an 8-bit channel.
pub const TOLERANCE_SQ: u64 = 65536;

/// The mean `sum / count` of a channel in fixed point, rounded to the
/// nearest unit, halves upwards.
pub open spec fn mean_channel(sum: int, count: int) -> int {
    (2 * sum * 65536 + count) / (2 * count)
}

/// The mean colour of a tally of at least one pixel, as a centroid.
pub open spec fn mean_centroid(tally: Tally) -> Centroid {
    Centroid {
        r: mean_channel(tally.r, tally.count) as u32,
        g: mean_channel(tally.g, tally.count) as u32,
        b: mean_channel(tally.b, tally.count) as u32,
        a: mean_channel(tally.a, tally.count) as u32,
    }
}

/// The centroid of a cluster after an update: the mean colour of its
/// pixels, or the centroid as it was where the cluster is empty.
pub open spec fn updated_centroid(before: Centroid, tally: Tally) -> Centroid {
    if tally.count == 0 {
        before
    } else {
        mean_centroid(tally)
    }
}

/// All centroids after an update.
pub open spec fn updated_centroids(
    pixels: Seq<u8>,
    assignment: Seq<u32>,
    centroids: Seq<Centroid>,
) -> Seq<Centroid> {
    Seq::new(
        centroids.len(),
        |j: int| updated_centroid(centroids[j], cluster_tally(pixels, assignment, j)),
    )
}

/// Every centroid has moved by less than the tolerance.
pub open spec fn has_converged(before: Seq<Centroid>, after: Seq<Centroid>) -> bool {
    forall|j: int|
        0 <= j < before.len() ==> displacement_sq(before[j], #[trigger] after[j]) < TOLERANCE_SQ
}

/// The mean of a channel lies between 0 and the byte 255.
pub proof fn lemma_mean_channel_bound(sum: int, count: int)
    requires
        count >= 1,
        0 <= sum <= 255 * count,
    ensures
        0 <= mean_channel(sum, count) <= CHANNEL_MAX,
{
    let x = 2 * sum * 65536 + count;
    let d = 2 * count;
    let q = x / d;
    assert(x == d * q + x % d && 0 <= x % d < d) by (nonlinear_arith)
        requires
            d > 0,
            q == x / d,
    ;
    assert(x <= 2 * 255 * 65536 * count + count) by (nonlinear_arith)
        requires
            x == 2 * sum * 65536 + count,
            sum <= 255 * count,
    ;
    assert(0 <= x) by (nonlinear_arith)
        requires
            x == 2 * sum * 65536 + count,
            0 <= sum,
            0 <= count,
    ;
    if q > 16711680 {
        assert(d * q >= d * 16711681) by (nonlinear_arith)
            requires
                q >= 16711681,
                d > 0,
        ;
    }
    if q < 0 {
        assert(d * q <= -d) by (nonlinear_arith)
            requires
                q <= -1,
                d > 0,
        ;
    }
}

/// The mean is rounded, not truncated: it differs from the exact quotient
/// `sum * 65536 / count` by at most half a unit, and a quotient that lies
/// halfway between two units goes to the upper one.
pub proof fn lemma_mean_channel_is_nearest(sum: int, count: int)
    requires
        count >= 1,
        0 <= sum,
    ensures
        -count < 2 * (count * mean_channel(sum, count) - sum * 65536) <= count,
{
    let x = 2 * sum * 65536 + count;
    let d = 2 * count;
    let q = x / d;
    assert(x == d * q + x % d && 0 <= x % d < d) by (nonlinear_arith)
        requires
            d > 0,
            q == x / d,
    ;
    assert(d * q == 2 * (count * q)) by (nonlinear_arith)
        requires
            d == 2 * count,
    ;
}

/// The mean of `count` equal bytes is that byte exactly.
pub proof fn lemma_mean_of_equal(byte: int, count: int)
    requires
        count >= 1,
    ensures
        mean_channel(byte * count, count) == byte * 65536,
{
    let x = 2 * (byte * count) * 65536 + count;
    assert(x == (byte * 65536) * (2 * count) + count) by (nonlinear_arith)
        requires
            x == 2 * (byte * count) * 65536 + count,
    ;
    lemma_fundamental_div_mod_converse(x, 2 * count, byte * 65536, count);
}

/// The rounded fixed-point mean of one channel.
fn mean(sum: u64, count: u32) -> (m: u32)
    requires
        count >= 1,
        sum <= 255 * count,
    ensures
        m == mean_channel(sum as int, count as int),
        m <= CHANNEL_MAX,
{
    proof {
        lemma_mean_channel_bound(sum as int, count as int);
    }
    let doubled: u64 = 2 * sum * SCALE as u64 + count as u64;
    (doubled / (2 * count as u64)) as u32
}

/// The centroid of one cluster after an update, from the sums and the
/// count of its pixels.
pub fn update_centroid(before: &Centroid, acc: &Accumulator) -> (after: Centroid)
    requires
        before.wf(),
        acc.wf(),
    ensures
        after == updated_centroid(*before, acc@),
        after.wf(),
{
    if acc.count == 0 {
        *before
    } else {
        Centroid {
            r: mean(acc.r, acc.count),
            g: mean(acc.g, acc.count),
            b: mean(acc.b, acc.count),
            a: mean(acc.a, acc.count),
        }
    }
}

/// Recomputes every centroid as the mean colour of the pixels assigned to
/// it. A centroid to which no pixel is assigned stays where it is.
pub fn update_centroids(image: &Image, assignment: &Vec<u32>, centroids: &Vec<Centroid>) -> (after:
    Vec<Centroid>)
    requires
        assignment@.len() == image.pixel_count(),
        assignment@.len() <= u32::MAX,
        centroids@.len() <= u32::MAX,
        all_wf(centroids@),
    ensures
        after@ == updated_centroids(image@, assignment@, centroids@),
        after@.len() == centroids@.len(),
        all_wf(after@),
{
    let mut after: Vec<Centroid> = Vec::new();
    let mut j: u32 = 0;
    while (j as usize) < centroids.len()
        invariant
            assignment@.len() == image.pixel_count(),
            assignment@.len() <= u32::MAX,
            centroids@.len() <= u32::MAX,
            all_wf(centroids@),
            0 <= j <= centroids@.len(),
            after@.len() == j,
            all_wf(after@),
            forall|t: int|
                0 <= t < j ==> #[trigger] after@[t] == updated_centroid(
                    centroids@[t],
                    cluster_tally(image@, assignment@, t),
                ),
        decreases centroids@.len() - j,
    {
        let acc: Accumulator = reduce_cluster(image, assignment, j);
        let moved: Centroid = update_centroid(&centroids[j as usize], &acc);
        after.push(moved);
        j = j + 1;
    }
    proof {
        assert(after@ =~= updated_centroids(image@, assignment@, centroids@));
    }
    after
}

/// Whether every centroid has moved by less than the tolerance between
/// `before` and `after`.
pub fn converged(before: &Vec<Centroid>, after: &Vec<Centroid>) -> (done: bool)
    requires
        before@.len() == after@.len(),
        all_wf(before@),
        all_wf(after@),
    ensures
        done == has_converged(before@, after@),
{
    let mut j: usize = 0;
    while j < before.len()
        invariant
            before@.len() == after@.len(),
            all_wf(before@),
            all_wf(after@),
            0 <= j <= before@.len(),
            forall|t: int|
                0 <= t < j ==> displacement_sq(before@[t], #[trigger] after@[t]) < TOLERANCE_SQ,
        decreases before@.len() - j,
    {
        let moved: u64 = before[j].displacement_squared(&after[j]);
        if moved >= TOLERANCE_SQ {
            assert(!(displacement_sq(before@[j as int], after@[j as int]) < TOLERANCE_SQ));
            return false;
        }
        j = j + 1;
    }
    true
}

/// Whether the convergence flags that the update kernel has written, one
/// for each centroid that moved by the tolerance or more, are all clear.
pub fn flags_clear(flags: &[u32]) -> (clear: bool)
    ensures
        clear == (forall|j: int| 0 <= j < flags@.len() ==> flags@[j] == 0),
{
    let mut j: usize = 0;
    while j < flags.len()
        invariant
            0 <= j <= flags@.len(),
            forall|t: int| 0 <= t < j ==> flags@[t] == 0,
        decreases flags@.len() - j,
    {
        if flags[j] != 0 {
            return false;
        }
        j = j + 1;
    }
    true
}

} // verus!
