//! The reduction pass: the colour sums and pixel counts of each cluster.
//!
//! The pixels are cut into blocks, one per workgroup. Within a block each
//! worker adds up a short run of pixels by itself; the workers' results are
//! combined into the partial result of the workgroup, and the partial
//! results of all workgroups into the result for the cluster.

use vstd::prelude::*;
use crate::color::{pixel_at, pixel_of, Rgba};
use crate::image::Image;
use crate::layout::{compute_work_group_count, groups_needed, lemma_groups_needed_covers};

verus! {

/// The number of pixels that one worker adds up by itself.
pub const N_SEQ: u32 = 24;

/// The number of workers in one workgroup.
pub const WORKGROUP_SIZE: u32 = 256;

/// The number of pixels that one workgroup covers.
pub const BLOCK_SIZE: u32 = 6144;

/// The channel sums and the number of a collection of pixels.
pub ghost struct Tally {
    pub r: int,
    pub g: int,
    pub b: int,
    pub a: int,
    pub count: int,
}

impl Tally {
    /// The tally of no pixels.
    pub open spec fn zero() -> Tally {
        Tally { r: 0, g: 0, b: 0, a: 0, count: 0 }
    }

    /// The tally of one pixel.
    pub open spec fn of_pixel(p: Rgba) -> Tally {
        Tally { r: p.r as int, g: p.g as int, b: p.b as int, a: p.a as int, count: 1 }
    }

    /// The tally of two disjoint collections together.
    pub open spec fn plus(self, other: Tally) -> Tally {
        Tally {
            r: self.r + other.r,
            g: self.g + other.g,
            b: self.b + other.b,
            a: self.a + other.a,
            count: self.count + other.count,
        }
    }

    /// The sums are those of `count` pixels: none is negative and none
    /// exceeds 255 for each pixel.
    pub open spec fn bounded(self) -> bool {
        &&& 0 <= self.count
        &&& 0 <= self.r <= 255 * self.count
        &&& 0 <= self.g <= 255 * self.count
        &&& 0 <= self.b <= 255 * self.count
        &&& 0 <= self.a <= 255 * self.count
    }
}

/// The tally of the pixels `lo..hi` that are assigned to `cluster`.
pub open spec fn range_tally(
    pixels: Seq<u8>,
    assignment: Seq<u32>,
    cluster: int,
    lo: int,
    hi: int,
) -> Tally
    decreases hi - lo,
{
    if hi <= lo {
        Tally::zero()
    } else {
        let rest = range_tally(pixels, assignment, cluster, lo, hi - 1);
        if assignment[hi - 1] == cluster {
            rest.plus(Tally::of_pixel(pixel_at(pixels, hi - 1)))
        } else {
            rest
        }
    }
}

/// The tally of all pixels that are assigned to `cluster`.
pub open spec fn cluster_tally(pixels: Seq<u8>, assignment: Seq<u32>, cluster: int) -> Tally {
    range_tally(pixels, assignment, cluster, 0, assignment.len() as int)
}

/// The combined tally of the first `n` partial results.
pub open spec fn partial_sum(partials: Seq<Accumulator>, n: int) -> Tally
    decreases n,
{
    if n <= 0 {
        Tally::zero()
    } else {
        partial_sum(partials, n - 1).plus(partials[n - 1]@)
    }
}

/// The first pixel of block `index` of `size` pixels, or `total` where the
/// pixels end before it.
pub open spec fn block_start(index: int, size: int, total: int) -> int {
    if index * size <= total {
        index * size
    } else {
        total
    }
}

/// The tally of a range is the tally of its two parts together.
pub proof fn lemma_range_tally_split(
    pixels: Seq<u8>,
    assignment: Seq<u32>,
    cluster: int,
    lo: int,
    mid: int,
    hi: int,
)
    requires
        lo <= mid <= hi,
    ensures
        range_tally(pixels, assignment, cluster, lo, hi) == range_tally(
            pixels,
            assignment,
            cluster,
            lo,
            mid,
        ).plus(range_tally(pixels, assignment, cluster, mid, hi)),
    decreases hi - mid,
{
    if mid < hi {
        lemma_range_tally_split(pixels, assignment, cluster, lo, mid, hi - 1);
    }
}

/// The tally of a range counts at most the pixels of the range, and its
/// sums are those of that many pixels.
pub proof fn lemma_range_tally_bounded(
    pixels: Seq<u8>,
    assignment: Seq<u32>,
    cluster: int,
    lo: int,
    hi: int,
)
    requires
        lo <= hi,
    ensures
        range_tally(pixels, assignment, cluster, lo, hi).bounded(),
        range_tally(pixels, assignment, cluster, lo, hi).count <= hi - lo,
    decreases hi - lo,
{
    if lo < hi {
        lemma_range_tally_bounded(pixels, assignment, cluster, lo, hi - 1);
    }
}

/// The running sums of one cluster: the sum of each channel of the pixels
/// seen so far, and their number.
#[derive(Clone, Copy, Debug, PartialEq, Eq, Structural)]
pub struct Accumulator {
    pub r: u64,
    pub g: u64,
    pub b: u64,
    pub a: u64,
    pub count: u32,
}

impl Accumulator {
    /// The sums and the count as mathematical integers.
    pub open spec fn view(&self) -> Tally {
        Tally {
            r: self.r as int,
            g: self.g as int,
            b: self.b as int,
            a: self.a as int,
            count: self.count as int,
        }
    }

    /// An accumulator is well formed when its sums can be those of `count`
    /// pixels.
    pub open spec fn wf(&self) -> bool {
        self@.bounded()
    }

    /// The accumulator that has seen no pixel.
    pub fn empty() -> (acc: Accumulator)
        ensures
            acc@ == Tally::zero(),
            acc.wf(),
    {
        Accumulator { r: 0, g: 0, b: 0, a: 0, count: 0 }
    }

    /// Adds one pixel.
    pub fn add_pixel(&mut self, p: Rgba)
        requires
            old(self).wf(),
            old(self).count < u32::MAX,
        ensures
            final(self)@ == old(self)@.plus(Tally::of_pixel(p)),
            final(self).wf(),
    {
        self.r = self.r + p.r as u64;
        self.g = self.g + p.g as u64;
        self.b = self.b + p.b as u64;
        self.a = self.a + p.a as u64;
        self.count = self.count + 1;
    }

    /// Adds what another accumulator has seen.
    pub fn merge(&mut self, other: &Accumulator)
        requires
            old(self).wf(),
            other.wf(),
            old(self).count + other.count <= u32::MAX,
        ensures
            final(self)@ == old(self)@.plus(other@),
            final(self).wf(),
    {
        self.r = self.r + other.r;
        self.g = self.g + other.g;
        self.b = self.b + other.b;
        self.a = self.a + other.a;
        self.count = self.count + other.count;
    }
}

/// One worker's share: adds up, one after the other, the pixels
/// `start..end` that are assigned to `cluster`.
pub fn accumulate_batch(
    image: &Image,
    assignment: &Vec<u32>,
    cluster: u32,
    start: u32,
    end: u32,
) -> (acc: Accumulator)
    requires
        assignment@.len() == image.pixel_count(),
        start <= end <= assignment@.len(),
    ensures
        acc@ == range_tally(image@, assignment@, cluster as int, start as int, end as int),
        acc.wf(),
{
    let mut acc: Accumulator = Accumulator::empty();
    let mut i: u32 = start;
    while i < end
        invariant
            assignment@.len() == image.pixel_count(),
            start <= i <= end <= assignment@.len(),
            acc@ == range_tally(image@, assignment@, cluster as int, start as int, i as int),
            acc.wf(),
            acc.count <= i - start,
        decreases end - i,
    {
        if assignment[i as usize] == cluster {
            let p: Rgba = pixel_of(image, i);
            acc.add_pixel(p);
        }
        i = i + 1;
    }
    acc
}

/// The smaller of `index * size` and `total`.
fn clamped_start(index: u32, size: u32, total: u32) -> (start: u32)
    ensures
        start == block_start(index as int, size as int, total as int),
        start <= total,
{
    proof {
        assert(0 <= index * size <= 0xffff_ffff * 0xffff_ffff) by (nonlinear_arith)
            requires
                0 <= index <= 0xffff_ffff,
                0 <= size <= 0xffff_ffff,
        ;
    }
    let at: u64 = index as u64 * size as u64;
    if at <= total as u64 {
        at as u32
    } else {
        total
    }
}

/// Block starts do not decrease with the index.
proof fn lemma_block_start_monotonic(index: int, size: int, total: int)
    requires
        0 <= index,
        0 <= size,
        0 <= total,
    ensures
        0 <= block_start(index, size, total) <= block_start(index + 1, size, total) <= total,
        block_start(0, size, total) == 0,
{
    assert((index + 1) * size == index * size + size) by (nonlinear_arith);
    assert(0 <= index * size) by (nonlinear_arith)
        requires
            0 <= index,
            0 <= size,
    ;
}

/// The first stage of the reduction, for one workgroup: each of the
/// `WORKGROUP_SIZE` workers adds up its `N_SEQ` pixels of block `group`, and
/// the workers' sums are combined into the partial result of the workgroup.
/// Workers beyond the last pixel add nothing.
pub fn reduce_workgroup(image: &Image, assignment: &Vec<u32>, cluster: u32, group: u32) -> (acc:
    Accumulator)
    requires
        assignment@.len() == image.pixel_count(),
        assignment@.len() <= u32::MAX,
    ensures
        acc@ == range_tally(
            image@,
            assignment@,
            cluster as int,
            block_start(group as int, BLOCK_SIZE as int, assignment@.len() as int),
            block_start(group + 1, BLOCK_SIZE as int, assignment@.len() as int),
        ),
        acc.wf(),
{
    let total: u32 = assignment.len() as u32;
    let first: u32 = clamped_start(group, BLOCK_SIZE, total);
    let ghost last = block_start(group + 1, BLOCK_SIZE as int, total as int);
    proof {
        lemma_block_start_monotonic(group as int, BLOCK_SIZE as int, total as int);
    }
    let mut acc: Accumulator = Accumulator::empty();
    let mut worker: u32 = 0;
    let mut at: u32 = first;
    while worker < WORKGROUP_SIZE
        invariant
            assignment@.len() == image.pixel_count(),
            assignment@.len() == total,
            0 <= worker <= WORKGROUP_SIZE,
            first == block_start(group as int, BLOCK_SIZE as int, total as int),
            last == block_start(group + 1, BLOCK_SIZE as int, total as int),
            first <= at <= last <= total,
            at == block_start(worker as int, N_SEQ as int, last - first) + first,
            acc@ == range_tally(image@, assignment@, cluster as int, first as int, at as int),
            acc.wf(),
            acc.count <= at - first,
        decreases WORKGROUP_SIZE - worker,
    {
        let end: u32 = if total - at >= N_SEQ {
            at + N_SEQ
        } else {
            total
        };
        proof {
            lemma_block_start_monotonic(worker as int, N_SEQ as int, last - first);
            assert((worker + 1) * N_SEQ == worker * N_SEQ + N_SEQ) by (nonlinear_arith);
        }
        let end: u32 = if group as u64 * BLOCK_SIZE as u64 + BLOCK_SIZE as u64 <= total as u64
            && end as u64 > group as u64 * BLOCK_SIZE as u64 + BLOCK_SIZE as u64 {
            (group as u64 * BLOCK_SIZE as u64 + BLOCK_SIZE as u64) as u32
        } else {
            end
        };
        proof {
            assert((group + 1) * BLOCK_SIZE == group * BLOCK_SIZE + BLOCK_SIZE)
                by (nonlinear_arith);
            assert(end == block_start(worker + 1, N_SEQ as int, last - first) + first);
        }
        let batch: Accumulator = accumulate_batch(image, assignment, cluster, at, end);
        proof {
            lemma_range_tally_split(
                image@,
                assignment@,
                cluster as int,
                first as int,
                at as int,
                end as int,
            );
            lemma_range_tally_bounded(image@, assignment@, cluster as int, at as int, end as int);
        }
        acc.merge(&batch);
        at = end;
        worker = worker + 1;
    }
    proof {
        assert(WORKGROUP_SIZE * N_SEQ == BLOCK_SIZE);
        assert(last - first <= BLOCK_SIZE) by {
            assert((group + 1) * BLOCK_SIZE == group * BLOCK_SIZE + BLOCK_SIZE)
                by (nonlinear_arith);
        }
        assert(at == last);
    }
    acc
}

/// The second stage of the reduction: the partial results of all
/// workgroups combined into one.
pub fn combine_partials(partials: &Vec<Accumulator>) -> (acc: Accumulator)
    requires
        forall|g: int| 0 <= g < partials@.len() ==> (#[trigger] partials@[g]).wf(),
        partial_sum(partials@, partials@.len() as int).count <= u32::MAX,
    ensures
        acc@ == partial_sum(partials@, partials@.len() as int),
        acc.wf(),
{
    let mut acc: Accumulator = Accumulator::empty();
    let mut g: usize = 0;
    while g < partials.len()
        invariant
            0 <= g <= partials@.len(),
            forall|t: int| 0 <= t < partials@.len() ==> (#[trigger] partials@[t]).wf(),
            partial_sum(partials@, partials@.len() as int).count <= u32::MAX,
            acc@ == partial_sum(partials@, g as int),
            acc.wf(),
        decreases partials@.len() - g,
    {
        proof {
            lemma_partial_sum_monotonic(partials@, g as int + 1, partials@.len() as int);
        }
        acc.merge(&partials[g]);
        g = g + 1;
    }
    acc
}

/// The count of a combined tally does not decrease as partial results are
/// added.
proof fn lemma_partial_sum_monotonic(partials: Seq<Accumulator>, n: int, m: int)
    requires
        0 <= n <= m <= partials.len(),
    ensures
        partial_sum(partials, n).count <= partial_sum(partials, m).count,
    decreases m - n,
{
    if n < m {
        lemma_partial_sum_monotonic(partials, n, m - 1);
    }
}

/// The number of workgroups that the reduction launches for `total` pixels:
/// as many blocks as cover them.
pub fn reduction_groups(total: u32) -> (groups: u32)
    ensures
        groups == groups_needed(total as int, BLOCK_SIZE as int),
{
    compute_work_group_count((total, 1), (BLOCK_SIZE, 1)).0
}

/// The colour sums and the pixel count of one cluster, by the two-stage
/// reduction: one partial result for each workgroup, then their combination.
pub fn reduce_cluster(image: &Image, assignment: &Vec<u32>, cluster: u32) -> (acc: Accumulator)
    requires
        assignment@.len() == image.pixel_count(),
        assignment@.len() <= u32::MAX,
    ensures
        acc@ == cluster_tally(image@, assignment@, cluster as int),
        acc.wf(),
        acc.count <= assignment@.len(),
{
    let total: u32 = assignment.len() as u32;
    let groups: u32 = reduction_groups(total);
    let mut partials: Vec<Accumulator> = Vec::new();
    let mut group: u32 = 0;
    while group < groups
        invariant
            assignment@.len() == image.pixel_count(),
            assignment@.len() == total,
            groups == groups_needed(total as int, BLOCK_SIZE as int),
            0 <= group <= groups,
            partials@.len() == group,
            forall|t: int| 0 <= t < partials@.len() ==> (#[trigger] partials@[t]).wf(),
            partial_sum(partials@, group as int) == range_tally(
                image@,
                assignment@,
                cluster as int,
                0,
                block_start(group as int, BLOCK_SIZE as int, total as int),
            ),
        decreases groups - group,
    {
        let partial: Accumulator = reduce_workgroup(image, assignment, cluster, group);
        let ghost before = partials@;
        partials.push(partial);
        proof {
            lemma_block_start_monotonic(group as int, BLOCK_SIZE as int, total as int);
            lemma_partial_sum_prefix(before, partials@, group as int);
            lemma_range_tally_split(
                image@,
                assignment@,
                cluster as int,
                0,
                block_start(group as int, BLOCK_SIZE as int, total as int),
                block_start(group + 1, BLOCK_SIZE as int, total as int),
            );
        }
        group = group + 1;
    }
    proof {
        lemma_groups_needed_covers(total as int, BLOCK_SIZE as int);
        lemma_range_tally_bounded(image@, assignment@, cluster as int, 0, total as int);
    }
    combine_partials(&partials)
}

/// The combined tally of the first `n` partial results looks only at
/// those.
proof fn lemma_partial_sum_prefix(shorter: Seq<Accumulator>, longer: Seq<Accumulator>, n: int)
    requires
        0 <= n <= shorter.len() <= longer.len(),
        forall|t: int| 0 <= t < shorter.len() ==> shorter[t] == longer[t],
    ensures
        partial_sum(shorter, n) == partial_sum(longer, n),
    decreases n,
{
    if n > 0 {
        lemma_partial_sum_prefix(shorter, longer, n - 1);
    }
}

} // verus!
