//! The initialiser: `k` distinct pixel positions, drawn without
//! replacement from a seeded pseudo-random source, seed the centroids.

use vstd::prelude::*;
use rand::rngs::StdRng;
use crate::color::{centroid_of, pixel_at, pixel_of, Centroid, Rgba};
use crate::error::KmeansError;
use crate::image::Image;
use crate::rng::{draw_below, seeded_rng};

verus! {

/// The seed that is used where the caller names none.
pub const DEFAULT_SEED: u64 = 42;

/// The number of draws after which the sampler stops drawing and takes the
/// positions that are still missing in ascending order.
pub const DRAW_LIMIT: u64 = 0xffff_ffff_ffff_ffff;

/// The number of clusters is at least one and at most the number of
/// pixels.
pub open spec fn valid_k(k: int, total: int) -> bool {
    1 <= k <= total
}

/// `picked` holds positions below `total`, none of them twice.
pub open spec fn distinct_positions(picked: Seq<u32>, total: int) -> bool {
    &&& forall|i: int| 0 <= i < picked.len() ==> #[trigger] picked[i] < total
    &&& forall|i: int, j: int|
        0 <= i < j < picked.len() ==> #[trigger] picked[i] != #[trigger] picked[j]
}

/// `picked` holds exactly `k` distinct positions below `total`.
pub open spec fn is_selection(picked: Seq<u32>, k: int, total: int) -> bool {
    picked.len() == k && distinct_positions(picked, total)
}

/// `picked`, extended to `k` positions by the positions from `from` upwards
/// that it does not hold yet, in ascending order.
pub open spec fn filled_from(picked: Seq<u32>, from: int, k: int, total: int) -> Seq<u32>
    decreases total - from,
{
    if picked.len() >= k || from >= total {
        picked
    } else if picked.contains(from as u32) {
        filled_from(picked, from + 1, k, total)
    } else {
        filled_from(picked.push(from as u32), from + 1, k, total)
    }
}

/// The centroids that sit on the pixels at the given positions.
pub open spec fn seeds_at(pixels: Seq<u8>, positions: Seq<u32>) -> Seq<Centroid> {
    Seq::new(positions.len(), |i: int| centroid_of(pixel_at(pixels, positions[i] as int)))
}

/// A sequence that holds every position below `n` has at least `n`
/// entries.
pub proof fn lemma_holds_all_is_long(picked: Seq<u32>, n: int)
    requires
        0 <= n <= u32::MAX,
        forall|v: u32| v < n ==> #[trigger] picked.contains(v),
    ensures
        picked.len() >= n,
    decreases n,
{
    if n > 0 {
        let top = (n - 1) as u32;
        assert(picked.contains(top));
        let at = choose|i: int| 0 <= i < picked.len() && picked[i] == top;
        let rest = picked.remove(at);
        assert forall|v: u32| v < n - 1 implies #[trigger] rest.contains(v) by {
            assert(picked.contains(v));
            let i = choose|i: int| 0 <= i < picked.len() && picked[i] == v;
            if i < at {
                assert(rest[i] == v);
            } else {
                assert(rest[i - 1] == v);
            }
        }
        lemma_holds_all_is_long(rest, n - 1);
    }
}

/// Filling a partial selection that already holds every position below
/// `from` gives a selection of `k` positions.
pub proof fn lemma_filled_is_selection(picked: Seq<u32>, from: int, k: int, total: int)
    requires
        0 <= from <= total <= u32::MAX,
        0 <= k <= total,
        picked.len() <= k,
        distinct_positions(picked, total),
        forall|v: u32| v < from ==> #[trigger] picked.contains(v),
    ensures
        is_selection(filled_from(picked, from, k, total), k, total),
    decreases total - from,
{
    if picked.len() >= k {
    } else if from >= total {
        lemma_holds_all_is_long(picked, total);
    } else if picked.contains(from as u32) {
        lemma_filled_is_selection(picked, from + 1, k, total);
    } else {
        let next = picked.push(from as u32);
        assert forall|v: u32| v < from + 1 implies #[trigger] next.contains(v) by {
            if v < from {
                assert(picked.contains(v));
                let i = choose|i: int| 0 <= i < picked.len() && picked[i] == v;
                assert(next[i] == v);
            } else {
                assert(next[picked.len() as int] == v);
            }
        }
        lemma_filled_is_selection(next, from + 1, k, total);
    }
}

/// Refuses a number of clusters that is zero or exceeds the number of
/// pixels.
pub fn validate_k(k: u32, image: &Image) -> (result: Result<(), KmeansError>)
    ensures
        result is Ok <==> valid_k(k as int, image.pixel_count()),
        result is Err ==> result == Err::<(), KmeansError>(KmeansError::InvalidK),
{
    let (width, height) = image.dimensions();
    proof {
        assert(0 <= width * height <= 0xffff_ffff * 0xffff_ffff) by (nonlinear_arith)
            requires
                0 <= width <= 0xffff_ffff,
                0 <= height <= 0xffff_ffff,
        ;
    }
    let total: u64 = width as u64 * height as u64;
    if k == 0 || k as u64 > total {
        Err(KmeansError::InvalidK)
    } else {
        Ok(())
    }
}

/// Whether `picked` holds `value`.
pub fn holds(picked: &Vec<u32>, value: u32) -> (found: bool)
    ensures
        found == picked@.contains(value),
{
    let mut i: usize = 0;
    while i < picked.len()
        invariant
            0 <= i <= picked@.len(),
            forall|t: int| 0 <= t < i ==> picked@[t] != value,
        decreases picked@.len() - i,
    {
        if picked[i] == value {
            return true;
        }
        i = i + 1;
    }
    false
}

/// One step of the sampler: the position drawn is accepted, and appended,
/// unless it has been chosen before.
pub fn offer(picked: &mut Vec<u32>, draw: u32) -> (accepted: bool)
    ensures
        accepted == !old(picked)@.contains(draw),
        accepted ==> final(picked)@ == old(picked)@.push(draw),
        !accepted ==> final(picked)@ == old(picked)@,
{
    if holds(picked, draw) {
        false
    } else {
        picked.push(draw);
        true
    }
}

/// Extends a partial selection to `k` positions with the lowest positions
/// that it does not hold yet, in ascending order.
pub fn complete_selection(picked: &mut Vec<u32>, k: u32, total: u32)
    requires
        k <= total,
        old(picked)@.len() <= k,
        distinct_positions(old(picked)@, total as int),
    ensures
        final(picked)@ == filled_from(old(picked)@, 0, k as int, total as int),
        is_selection(final(picked)@, k as int, total as int),
{
    proof {
        lemma_filled_is_selection(picked@, 0, k as int, total as int);
    }
    let mut next: u32 = 0;
    while picked.len() < k as usize && next < total
        invariant
            0 <= next <= total,
            k <= total,
            filled_from(picked@, next as int, k as int, total as int) == filled_from(
                old(picked)@,
                0,
                k as int,
                total as int,
            ),
        decreases total - next,
    {
        offer(picked, next);
        next = next + 1;
    }
}

/// Draws positions below `total` until `k` distinct ones are chosen; a
/// position that was chosen before is rejected and drawn again.
fn sample_positions(rng: &mut StdRng, k: u32, total: u32) -> (picked: Vec<u32>)
    requires
        k <= total,
    ensures
        is_selection(picked@, k as int, total as int),
{
    let mut picked: Vec<u32> = Vec::new();
    let mut draws_left: u64 = DRAW_LIMIT;
    while picked.len() < k as usize && draws_left > 0
        invariant
            k <= total,
            picked@.len() <= k,
            distinct_positions(picked@, total as int),
        decreases draws_left,
    {
        let draw: u32 = draw_below(rng, total);
        offer(&mut picked, draw);
        draws_left = draws_left - 1;
    }
    complete_selection(&mut picked, k, total);
    picked
}

/// Chooses `k` distinct pixel positions below `total` with the generator
/// that `seed` starts.
pub fn pick_positions(seed: u64, k: u32, total: u32) -> (picked: Vec<u32>)
    requires
        k <= total,
    ensures
        is_selection(picked@, k as int, total as int),
{
    let mut rng: StdRng = seeded_rng(seed);
    sample_positions(&mut rng, k, total)
}

/// The centroids that sit exactly on the pixels at the given positions.
pub fn centroids_at(image: &Image, positions: &Vec<u32>) -> (centroids: Vec<Centroid>)
    requires
        forall|i: int| 0 <= i < positions@.len() ==> #[trigger] positions@[i] < image.pixel_count(),
    ensures
        centroids@ == seeds_at(image@, positions@),
        centroids@.len() == positions@.len(),
        forall|j: int| 0 <= j < centroids@.len() ==> (#[trigger] centroids@[j]).wf(),
{
    let mut centroids: Vec<Centroid> = Vec::new();
    let mut i: usize = 0;
    while i < positions.len()
        invariant
            0 <= i <= positions@.len(),
            forall|t: int|
                0 <= t < positions@.len() ==> #[trigger] positions@[t] < image.pixel_count(),
            centroids@.len() == i,
            forall|t: int|
                0 <= t < i ==> #[trigger] centroids@[t] == centroid_of(
                    pixel_at(image@, positions@[t] as int),
                ),
            forall|t: int| 0 <= t < i ==> (#[trigger] centroids@[t]).wf(),
        decreases positions@.len() - i,
    {
        let p: Rgba = pixel_of(image, positions[i]);
        centroids.push(p.to_centroid());
        i = i + 1;
    }
    proof {
        assert(centroids@ =~= seeds_at(image@, positions@));
    }
    centroids
}

/// The initial centroids: the colours of `k` distinct pixels, chosen with
/// the default seed.
pub fn init_centroids(image: &Image, k: u32) -> (centroids: Vec<Centroid>)
    requires
        k <= image.pixel_count() <= u32::MAX,
    ensures
        exists|positions: Seq<u32>|
            is_selection(positions, k as int, image.pixel_count()) && centroids@ == seeds_at(
                image@,
                positions,
            ),
        centroids@.len() == k,
        forall|j: int| 0 <= j < centroids@.len() ==> (#[trigger] centroids@[j]).wf(),
{
    let (width, height) = image.dimensions();
    let total: u32 = (width as u64 * height as u64) as u32;
    let positions: Vec<u32> = pick_positions(DEFAULT_SEED, k, total);
    centroids_at(image, &positions)
}

} // verus!
