//! What holds of whole runs of the engine.

use vstd::prelude::*;
use crate::assign::{assignment_of, lemma_nearest_is_unique, nearest_index};
use crate::color::{
    all_wf,
    centroid_of,
    dist_sq,
    lemma_square_bound,
    lemma_zero_distance,
    displacement_sq,
    pixel_at,
    quantized,
    Centroid,
    Rgba,
};
use vstd::seq_lib::seq_to_set_is_finite;
use vstd::set_lib::lemma_subset_equality;
use crate::composite::{composed, distinct_colors, lemma_composed_pixels};
use crate::init::seeds_at;
use crate::engine::{clustered, quantized_bytes, run_from};
use crate::reduce::{cluster_tally, range_tally, Tally};
use crate::update::{
    has_converged,
    lemma_mean_of_equal,
    mean_centroid,
    updated_centroid,
    updated_centroids,
};

verus! {

/// The tally of the first `n` pixels of a buffer, whatever their clusters.
pub open spec fn image_tally(pixels: Seq<u8>, n: int) -> Tally
    decreases n,
{
    if n <= 0 {
        Tally::zero()
    } else {
        image_tally(pixels, n - 1).plus(Tally::of_pixel(pixel_at(pixels, n - 1)))
    }
}

/// The mean colour of all pixels of a buffer, as a centroid.
pub open spec fn mean_of_image(pixels: Seq<u8>) -> Centroid {
    mean_centroid(image_tally(pixels, pixels.len() as int / 4))
}

/// One of the seeds is the colour `p`.
pub open spec fn has_seed(seeds: Seq<Centroid>, p: Rgba) -> bool {
    exists|j: int| 0 <= j < seeds.len() && seeds[j] == centroid_of(p)
}

/// Every pixel has the colour of one of the seeds.
pub open spec fn seeds_cover(pixels: Seq<u8>, seeds: Seq<Centroid>) -> bool {
    forall|i: int| 0 <= i < pixels.len() / 4 ==> has_seed(seeds, #[trigger] pixel_at(pixels, i))
}

/// A centroid that has not moved has moved by less than the tolerance.
proof fn lemma_unmoved_has_converged(centroids: Seq<Centroid>)
    ensures
        has_converged(centroids, centroids),
{
    assert forall|j: int| 0 <= j < centroids.len() implies displacement_sq(
        centroids[j],
        #[trigger] centroids[j],
    ) == 0 by {
        lemma_square_bound(0, 0);
    }
}

/// Where every pixel is assigned to cluster 0, the tally of cluster 0 is
/// the tally of the image.
proof fn lemma_single_cluster_tally(pixels: Seq<u8>, assignment: Seq<u32>, n: int)
    requires
        0 <= n <= assignment.len(),
        forall|i: int| 0 <= i < assignment.len() ==> assignment[i] == 0,
    ensures
        range_tally(pixels, assignment, 0, 0, n) == image_tally(pixels, n),
    decreases n,
{
    if n > 0 {
        lemma_single_cluster_tally(pixels, assignment, n - 1);
    }
}

/// With one cluster the run has converged after at most two iterations,
/// in one where the seed is the mean colour already, and its centroid is
/// the mean colour of the image, so that every pixel of the output has that
/// colour, rounded to 8 bits.
pub proof fn lemma_single_cluster(pixels: Seq<u8>, seed: Centroid)
    requires
        pixels.len() >= 4,
        seed.wf(),
    ensures
        clustered(pixels, seq![seed]).centroids == seq![mean_of_image(pixels)],
        clustered(pixels, seq![seed]).converged,
        1 <= clustered(pixels, seq![seed]).iterations <= 2,
        seed == mean_of_image(pixels) ==> clustered(pixels, seq![seed]).iterations == 1,
        forall|i: int|
            0 <= i < pixels.len() / 4 ==> #[trigger] pixel_at(
                quantized_bytes(pixels, seq![seed]),
                i,
            ) == quantized(mean_of_image(pixels)),
{
    let n = pixels.len() as int / 4;
    let mean = mean_of_image(pixels);
    let first = seq![seed];
    let second = seq![mean];
    let zeros = Seq::new(n as nat, |i: int| 0u32);
    assert(assignment_of(pixels, first) =~= zeros);
    assert(assignment_of(pixels, second) =~= zeros);
    lemma_single_cluster_tally(pixels, zeros, n);
    assert(cluster_tally(pixels, zeros, 0) == image_tally(pixels, n));
    lemma_image_tally_count(pixels, n);
    assert(updated_centroids(pixels, zeros, first) =~= second);
    assert(updated_centroids(pixels, zeros, second) =~= second);
    lemma_unmoved_has_converged(second);
    let outcome = clustered(pixels, first);
    if !has_converged(first, second) {
        assert(outcome == run_from(pixels, second, 1));
    }
    assert(outcome.assignment == zeros);
    assert(outcome.centroids == second);
    lemma_composed_pixels(zeros, second);
}

/// The tally of the first `n` pixels counts `n` pixels.
proof fn lemma_image_tally_count(pixels: Seq<u8>, n: int)
    requires
        0 <= n,
    ensures
        image_tally(pixels, n).count == n,
    decreases n,
{
    if n > 0 {
        lemma_image_tally_count(pixels, n - 1);
    }
}

/// Where all pixels of a range that are assigned to a cluster have one
/// colour, the sums of the cluster are that colour times their number, and
/// a cluster that counts a pixel holds one.
proof fn lemma_uniform_tally(
    pixels: Seq<u8>,
    assignment: Seq<u32>,
    cluster: int,
    p: Rgba,
    lo: int,
    hi: int,
)
    requires
        0 <= lo <= hi <= assignment.len(),
        forall|i: int|
            lo <= i < hi && assignment[i] == cluster ==> #[trigger] pixel_at(pixels, i) == p,
    ensures
        ({
            let tally = range_tally(pixels, assignment, cluster, lo, hi);
            &&& tally.count >= 0
            &&& tally.r == p.r * tally.count
            &&& tally.g == p.g * tally.count
            &&& tally.b == p.b * tally.count
            &&& tally.a == p.a * tally.count
            &&& tally.count > 0 ==> exists|i: int| lo <= i < hi && assignment[i] == cluster
        }),
    decreases hi - lo,
{
    if lo < hi {
        lemma_uniform_tally(pixels, assignment, cluster, p, lo, hi - 1);
        let rest = range_tally(pixels, assignment, cluster, lo, hi - 1);
        if assignment[hi - 1] == cluster {
            assert(pixel_at(pixels, hi - 1) == p);
            assert(p.r * (rest.count + 1) == p.r * rest.count + p.r) by (nonlinear_arith);
            assert(p.g * (rest.count + 1) == p.g * rest.count + p.g) by (nonlinear_arith);
            assert(p.b * (rest.count + 1) == p.b * rest.count + p.b) by (nonlinear_arith);
            assert(p.a * (rest.count + 1) == p.a * rest.count + p.a) by (nonlinear_arith);
        } else {
            if rest.count > 0 {
                let i = choose|i: int| lo <= i < hi - 1 && assignment[i] == cluster;
                assert(lo <= i < hi && assignment[i] == cluster);
            }
        }
    }
}

/// Where the seeds hold the colour of every pixel, each pixel is assigned
/// to a centroid of its own colour.
proof fn lemma_assigned_to_own_colour(pixels: Seq<u8>, seeds: Seq<Centroid>, i: int)
    requires
        1 <= seeds.len() <= u32::MAX,
        seeds_cover(pixels, seeds),
        0 <= i < pixels.len() / 4,
    ensures
        0 <= nearest_index(pixel_at(pixels, i), seeds) < seeds.len(),
        assignment_of(pixels, seeds)[i] == nearest_index(pixel_at(pixels, i), seeds),
        seeds[nearest_index(pixel_at(pixels, i), seeds)] == centroid_of(pixel_at(pixels, i)),
{
    let p = pixel_at(pixels, i);
    let j = nearest_index(p, seeds);
    lemma_nearest_is_unique(p, seeds, j);
    assert(has_seed(seeds, p));
    let own = choose|own: int| 0 <= own < seeds.len() && seeds[own] == centroid_of(p);
    lemma_zero_distance(p, seeds[own]);
    lemma_zero_distance(p, seeds[j]);
    assert(dist_sq(p, seeds[j]) <= dist_sq(p, seeds[own]));
}

/// Where the seeds hold the colour of every pixel, the update leaves each
/// centroid where it is.
proof fn lemma_cluster_keeps_centroid(pixels: Seq<u8>, seeds: Seq<Centroid>, j: int)
    requires
        1 <= seeds.len() <= u32::MAX,
        seeds_cover(pixels, seeds),
        0 <= j < seeds.len(),
    ensures
        updated_centroid(seeds[j], cluster_tally(pixels, assignment_of(pixels, seeds), j))
            == seeds[j],
{
    let n = pixels.len() as int / 4;
    let assignment = assignment_of(pixels, seeds);
    let p = quantized(seeds[j]);
    assert forall|i: int| 0 <= i < n && assignment[i] == j implies #[trigger] pixel_at(pixels, i)
        == p by {
        lemma_assigned_to_own_colour(pixels, seeds, i);
        lemma_round_trip(pixel_at(pixels, i));
    }
    lemma_uniform_tally(pixels, assignment, j, p, 0, n);
    let tally = cluster_tally(pixels, assignment, j);
    if tally.count > 0 {
        let i = choose|i: int| 0 <= i < n && assignment[i] == j;
        assert(pixel_at(pixels, i) == p);
        lemma_assigned_to_own_colour(pixels, seeds, i);
        assert(seeds[j] == centroid_of(p));
        lemma_mean_of_equal(p.r as int, tally.count);
        lemma_mean_of_equal(p.g as int, tally.count);
        lemma_mean_of_equal(p.b as int, tally.count);
        lemma_mean_of_equal(p.a as int, tally.count);
        assert(mean_centroid(tally) == seeds[j]);
    }
}

/// Where the seeds hold the colour of every pixel, composing the
/// assignment with the seeds gives back the pixels.
proof fn lemma_composed_is_input(pixels: Seq<u8>, seeds: Seq<Centroid>)
    requires
        pixels.len() % 4 == 0,
        1 <= seeds.len() <= u32::MAX,
        seeds_cover(pixels, seeds),
    ensures
        composed(assignment_of(pixels, seeds), seeds) == pixels,
{
    let assignment = assignment_of(pixels, seeds);
    let bytes = composed(assignment, seeds);
    assert forall|at: int| 0 <= at < pixels.len() implies bytes[at] == pixels[at] by {
        let i = at / 4;
        lemma_assigned_to_own_colour(pixels, seeds, i);
        lemma_round_trip(pixel_at(pixels, i));
        assert(quantized(seeds[assignment[i] as int]) == pixel_at(pixels, i));
    }
    assert(bytes =~= pixels);
}

/// A run whose seeds hold the colour of every pixel is at its fixed point:
/// each pixel is assigned to a centroid of its own colour, no centroid
/// moves, the run has converged after one iteration, another assignment
/// pass would reassign no pixel, and the output is the input, byte for
/// byte.
pub proof fn lemma_covering_seeds_are_fixed(pixels: Seq<u8>, seeds: Seq<Centroid>)
    requires
        pixels.len() % 4 == 0,
        1 <= seeds.len() <= u32::MAX,
        all_wf(seeds),
        seeds_cover(pixels, seeds),
    ensures
        clustered(pixels, seeds).iterations == 1,
        clustered(pixels, seeds).converged,
        clustered(pixels, seeds).centroids == seeds,
        clustered(pixels, seeds).assignment == assignment_of(pixels, seeds),
        assignment_of(pixels, clustered(pixels, seeds).centroids) == clustered(
            pixels,
            seeds,
        ).assignment,
        forall|i: int|
            0 <= i < pixels.len() / 4 ==> seeds[nearest_index(
                #[trigger] pixel_at(pixels, i),
                seeds,
            )] == centroid_of(pixel_at(pixels, i)),
        quantized_bytes(pixels, seeds) == pixels,
{
    let assignment = assignment_of(pixels, seeds);
    assert forall|i: int| 0 <= i < pixels.len() / 4 implies seeds[nearest_index(
        #[trigger] pixel_at(pixels, i),
        seeds,
    )] == centroid_of(pixel_at(pixels, i)) by {
        lemma_assigned_to_own_colour(pixels, seeds, i);
    }
    let moved = updated_centroids(pixels, assignment, seeds);
    assert forall|j: int| 0 <= j < seeds.len() implies #[trigger] moved[j] == seeds[j] by {
        lemma_cluster_keeps_centroid(pixels, seeds, j);
    }
    assert(moved =~= seeds);
    lemma_unmoved_has_converged(seeds);
    lemma_composed_is_input(pixels, seeds);
}

/// A pixel colour taken as a centroid rounds back to itself.
pub proof fn lemma_round_trip(p: Rgba)
    ensures
        quantized(centroid_of(p)) == p,
        centroid_of(p).wf(),
{
}

/// The colours of the pixels at the given positions, in their order.
pub open spec fn colors_at(pixels: Seq<u8>, positions: Seq<u32>) -> Seq<Rgba> {
    Seq::new(positions.len(), |j: int| pixel_at(pixels, positions[j] as int))
}

/// With one cluster every pixel of the output has the mean colour of the
/// image, rounded to 8 bits, whichever pixel seeds the centroid.
pub proof fn lemma_single_cluster_output(pixels: Seq<u8>, positions: Seq<u32>)
    requires
        pixels.len() >= 4,
        positions.len() == 1,
    ensures
        forall|i: int|
            0 <= i < pixels.len() / 4 ==> #[trigger] pixel_at(
                quantized_bytes(pixels, seeds_at(pixels, positions)),
                i,
            ) == quantized(mean_of_image(pixels)),
{
    let seed = centroid_of(pixel_at(pixels, positions[0] as int));
    assert(seeds_at(pixels, positions) =~= seq![seed]);
    lemma_round_trip(pixel_at(pixels, positions[0] as int));
    lemma_single_cluster(pixels, seed);
}

/// Where the seeds sit on pixels that show every colour of the image, the
/// output is the input.
pub proof fn lemma_covering_positions_keep_image(pixels: Seq<u8>, positions: Seq<u32>)
    requires
        pixels.len() % 4 == 0,
        1 <= positions.len() <= u32::MAX,
        forall|i: int|
            0 <= i < pixels.len() / 4 ==> colors_at(pixels, positions).contains(
                #[trigger] pixel_at(pixels, i),
            ),
    ensures
        seeds_cover(pixels, seeds_at(pixels, positions)),
        quantized_bytes(pixels, seeds_at(pixels, positions)) == pixels,
        clustered(pixels, seeds_at(pixels, positions)).iterations == 1,
        clustered(pixels, seeds_at(pixels, positions)).centroids == seeds_at(pixels, positions),
{
    let seeds = seeds_at(pixels, positions);
    let colors = colors_at(pixels, positions);
    assert forall|i: int| 0 <= i < pixels.len() / 4 implies has_seed(
        seeds,
        #[trigger] pixel_at(pixels, i),
    ) by {
        let p = pixel_at(pixels, i);
        assert(colors.contains(p));
        let j = choose|j: int| 0 <= j < colors.len() && colors[j] == p;
        assert(seeds[j] == centroid_of(p));
    }
    assert forall|j: int| 0 <= j < seeds.len() implies (#[trigger] seeds[j]).wf() by {
        lemma_round_trip(pixel_at(pixels, positions[j] as int));
    }
    lemma_covering_seeds_are_fixed(pixels, seeds);
}

/// Where the image has as many distinct colours as there are seeds, and
/// the seeds sit on pixels of pairwise different colours, the seeds show
/// every colour of the image: each centroid is one of the colours, and the
/// output is the input.
pub proof fn lemma_one_seed_for_each_colour(pixels: Seq<u8>, positions: Seq<u32>)
    requires
        pixels.len() % 4 == 0,
        1 <= positions.len() <= u32::MAX,
        forall|j: int| 0 <= j < positions.len() ==> #[trigger] positions[j] < pixels.len() / 4,
        colors_at(pixels, positions).no_duplicates(),
        distinct_colors(pixels).len() == positions.len(),
    ensures
        seeds_cover(pixels, seeds_at(pixels, positions)),
        quantized_bytes(pixels, seeds_at(pixels, positions)) == pixels,
        clustered(pixels, seeds_at(pixels, positions)).iterations == 1,
        clustered(pixels, seeds_at(pixels, positions)).centroids == seeds_at(pixels, positions),
{
    let n = pixels.len() as int / 4;
    let colors = colors_at(pixels, positions);
    let all = Seq::new(n as nat, |i: int| pixel_at(pixels, i));
    assert(distinct_colors(pixels) =~= all.to_set()) by {
        assert forall|c: Rgba| distinct_colors(pixels).contains(c) implies all.to_set().contains(
            c,
        ) by {
            let i = choose|i: int| 0 <= i < pixels.len() / 4 && pixel_at(pixels, i) == c;
            assert(all[i] == c);
        }
        assert forall|c: Rgba| all.to_set().contains(c) implies distinct_colors(pixels).contains(
            c,
        ) by {
            let i = choose|i: int| 0 <= i < all.len() && all[i] == c;
            assert(pixel_at(pixels, i) == c);
        }
    }
    seq_to_set_is_finite(all);
    seq_to_set_is_finite(colors);
    colors.unique_seq_to_set();
    assert(colors.to_set().subset_of(distinct_colors(pixels))) by {
        assert forall|c: Rgba| colors.to_set().contains(c) implies distinct_colors(
            pixels,
        ).contains(c) by {
            let j = choose|j: int| 0 <= j < colors.len() && colors[j] == c;
            assert(pixel_at(pixels, positions[j] as int) == c);
        }
    }
    lemma_subset_equality(colors.to_set(), distinct_colors(pixels));
    assert forall|i: int| 0 <= i < n implies colors.contains(#[trigger] pixel_at(pixels, i)) by {
        assert(distinct_colors(pixels).contains(pixel_at(pixels, i)));
        assert(colors.to_set().contains(pixel_at(pixels, i)));
    }
    lemma_covering_positions_keep_image(pixels, positions);
}

} // verus!
