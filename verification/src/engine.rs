//! The engine: initial centroids, iterations until convergence or the
//! ceiling, and the composed output.

use vstd::prelude::*;
use crate::assign::{assign_pixels, assignment_of, in_range, lemma_nearest_is_unique, nearest_index};
use crate::color::{all_wf, pixel_at, Centroid};
use crate::composite::{composed, composite, distinct_colors, lemma_palette_bound};
use crate::controller::{Controller, Event, Phase, MAX_ITERATIONS};
use crate::error::KmeansError;
use crate::image::Image;
use crate::init::{
    centroids_at,
    is_selection,
    pick_positions,
    seeds_at,
    valid_k,
    validate_k,
    DEFAULT_SEED,
};
use crate::reduce::{cluster_tally, lemma_range_tally_bounded};
use crate::update::{
    converged,
    has_converged,
    lemma_mean_channel_bound,
    update_centroids,
    updated_centroids,
};

verus! {

/// What a run leaves behind.
pub ghost struct Outcome {
    /// The cluster of every pixel, as the last assignment pass found it.
    pub assignment: Seq<u32>,
    /// The centroids after the last update pass.
    pub centroids: Seq<Centroid>,
    /// The number of iterations that ran.
    pub iterations: int,
    /// Whether the last update moved every centroid by less than the
    /// tolerance.
    pub converged: bool,
}

/// The outcome of a run that has completed `done` iterations and holds
/// `centroids`: one more iteration, and then either the end, where the
/// centroids have converged or the ceiling is reached, or the rest of the
/// run.
pub open spec fn run_from(pixels: Seq<u8>, centroids: Seq<Centroid>, done: int) -> Outcome
    decreases MAX_ITERATIONS - done,
{
    let assignment = assignment_of(pixels, centroids);
    let moved = updated_centroids(pixels, assignment, centroids);
    let converged = has_converged(centroids, moved);
    if converged || done + 1 >= MAX_ITERATIONS {
        Outcome { assignment, centroids: moved, iterations: done + 1, converged }
    } else {
        run_from(pixels, moved, done + 1)
    }
}

/// The outcome of a whole run that starts from `seeds`.
pub open spec fn clustered(pixels: Seq<u8>, seeds: Seq<Centroid>) -> Outcome {
    run_from(pixels, seeds, 0)
}

/// The bytes of the quantised image of a run that starts from `seeds`.
pub open spec fn quantized_bytes(pixels: Seq<u8>, seeds: Seq<Centroid>) -> Seq<u8> {
    composed(clustered(pixels, seeds).assignment, clustered(pixels, seeds).centroids)
}

/// The state that the iterations commit: centroids and assignment change
/// together, once per iteration.
#[derive(Debug)]
pub struct Clustering {
    pub centroids: Vec<Centroid>,
    pub assignment: Vec<u32>,
    pub iterations: u32,
    pub converged: bool,
}

impl Clustering {
    /// The state as mathematical values.
    pub open spec fn view(&self) -> Outcome {
        Outcome {
            assignment: self.assignment@,
            centroids: self.centroids@,
            iterations: self.iterations as int,
            converged: self.converged,
        }
    }
}

/// An assignment pass leaves every pixel in one of the clusters, and an
/// update pass leaves as many centroids as there were, all well formed.
pub proof fn lemma_iteration_shape(pixels: Seq<u8>, centroids: Seq<Centroid>)
    requires
        1 <= centroids.len() <= u32::MAX,
        all_wf(centroids),
    ensures
        assignment_of(pixels, centroids).len() == pixels.len() / 4,
        in_range(assignment_of(pixels, centroids), centroids.len() as int),
        updated_centroids(pixels, assignment_of(pixels, centroids), centroids).len()
            == centroids.len(),
        all_wf(updated_centroids(pixels, assignment_of(pixels, centroids), centroids)),
{
    let assignment = assignment_of(pixels, centroids);
    assert forall|i: int| 0 <= i < assignment.len() implies 0 <= #[trigger] assignment[i]
        < centroids.len() by {
        lemma_nearest_is_unique(
            pixel_at(pixels, i),
            centroids,
            nearest_index(pixel_at(pixels, i), centroids),
        );
    }
    let moved = updated_centroids(pixels, assignment, centroids);
    assert forall|j: int| 0 <= j < moved.len() implies (#[trigger] moved[j]).wf() by {
        let tally = cluster_tally(pixels, assignment, j);
        lemma_range_tally_bounded(pixels, assignment, j, 0, assignment.len() as int);
        if tally.count != 0 {
            lemma_mean_channel_bound(tally.r, tally.count);
            lemma_mean_channel_bound(tally.g, tally.count);
            lemma_mean_channel_bound(tally.b, tally.count);
            lemma_mean_channel_bound(tally.a, tally.count);
        } else {
            assert(moved[j] == centroids[j]);
        }
    }
}

/// Every run ends after at least one and at most `MAX_ITERATIONS`
/// iterations, before the ceiling only where it has converged, with every
/// pixel in one of the clusters and as many centroids as it started from.
pub proof fn lemma_run_shape(pixels: Seq<u8>, centroids: Seq<Centroid>, done: int)
    requires
        1 <= centroids.len() <= u32::MAX,
        all_wf(centroids),
        0 <= done < MAX_ITERATIONS,
    ensures
        done < run_from(pixels, centroids, done).iterations <= MAX_ITERATIONS,
        run_from(pixels, centroids, done).iterations < MAX_ITERATIONS ==> run_from(
            pixels,
            centroids,
            done,
        ).converged,
        run_from(pixels, centroids, done).assignment.len() == pixels.len() / 4,
        in_range(run_from(pixels, centroids, done).assignment, centroids.len() as int),
        run_from(pixels, centroids, done).centroids.len() == centroids.len(),
        all_wf(run_from(pixels, centroids, done).centroids),
    decreases MAX_ITERATIONS - done,
{
    lemma_iteration_shape(pixels, centroids);
    let assignment = assignment_of(pixels, centroids);
    let moved = updated_centroids(pixels, assignment, centroids);
    if !(has_converged(centroids, moved) || done + 1 >= MAX_ITERATIONS) {
        lemma_run_shape(pixels, moved, done + 1);
    }
}

/// The assignment buffer before the first assignment pass: every entry is
/// `k`, which names no cluster.
pub fn unassigned(k: u32, total: u32) -> (buffer: Vec<u32>)
    ensures
        buffer@.len() == total,
        forall|i: int| 0 <= i < buffer@.len() ==> #[trigger] buffer@[i] == k,
{
    let mut buffer: Vec<u32> = Vec::new();
    let mut i: u32 = 0;
    while i < total
        invariant
            0 <= i <= total,
            buffer@.len() == i,
            forall|t: int| 0 <= t < buffer@.len() ==> #[trigger] buffer@[t] == k,
        decreases total - i,
    {
        buffer.push(k);
        i = i + 1;
    }
    buffer
}

/// Runs the iterations: assignment, then update, until every centroid has
/// moved by less than the tolerance or `MAX_ITERATIONS` iterations have run.
pub fn cluster(image: &Image, seeds: Vec<Centroid>) -> (result: Clustering)
    requires
        image.pixel_count() <= u32::MAX,
        1 <= seeds@.len() <= u32::MAX,
        all_wf(seeds@),
    ensures
        result@ == clustered(image@, seeds@),
        1 <= result.iterations <= MAX_ITERATIONS,
        result.iterations < MAX_ITERATIONS ==> result.converged,
        result.assignment@.len() == image.pixel_count(),
        in_range(result.assignment@, seeds@.len() as int),
        result.centroids@.len() == seeds@.len(),
        all_wf(result.centroids@),
{
    let ghost start = seeds@;
    let (width, height) = image.dimensions();
    proof {
        use_type_invariant(image);
        lemma_run_shape(image@, start, 0);
    }
    let total: u32 = (width as u64 * height as u64) as u32;
    let k: u32 = seeds.len() as u32;
    let mut controller: Controller = Controller::new();
    controller.step(Event::Started);
    let mut state: Clustering = Clustering {
        centroids: seeds,
        assignment: unassigned(k, total),
        iterations: 0,
        converged: false,
    };
    while !controller.is_finished()
        invariant
            image.pixel_count() <= u32::MAX,
            controller.wf(),
            controller.phase == Phase::Assign || controller.phase == Phase::Finalize,
            state.iterations == controller.iterations,
            1 <= state.centroids@.len() <= u32::MAX,
            all_wf(state.centroids@),
            state.assignment@.len() == image.pixel_count(),
            controller.phase == Phase::Assign ==> run_from(
                image@,
                state.centroids@,
                controller.iterations as int,
            ) == clustered(image@, start),
            controller.phase == Phase::Finalize ==> state@ == clustered(image@, start),
        decreases MAX_ITERATIONS - controller.iterations,
    {
        let Clustering { centroids, assignment, iterations: _, converged: _ } = state;
        let mut assignment: Vec<u32> = assignment;
        assign_pixels(image, &centroids, &mut assignment);
        controller.step(Event::Assigned);
        let moved: Vec<Centroid> = update_centroids(image, &assignment, &centroids);
        let done: bool = converged(&centroids, &moved);
        controller.step(Event::Updated { converged: done });
        state = Clustering {
            centroids: moved,
            assignment,
            iterations: controller.iterations,
            converged: done,
        };
    }
    state
}

/// Quantises the image with the centroids seeded on the pixels at the
/// given positions.
pub fn quantize_from(image: &Image, positions: &Vec<u32>) -> (output: Image)
    requires
        image.pixel_count() <= u32::MAX,
        1 <= positions@.len() <= u32::MAX,
        forall|i: int| 0 <= i < positions@.len() ==> #[trigger] positions@[i] < image.pixel_count(),
    ensures
        output.wf(),
        output.width() == image.width(),
        output.height() == image.height(),
        output@ == quantized_bytes(image@, seeds_at(image@, positions@)),
        distinct_colors(output@).finite(),
        distinct_colors(output@).len() <= positions@.len(),
{
    let seeds: Vec<Centroid> = centroids_at(image, positions);
    let result: Clustering = cluster(image, seeds);
    let bytes: usize = image.raw_pixels().len();
    proof {
        use_type_invariant(image);
        lemma_palette_bound(result.assignment@, result.centroids@);
    }
    composite(image.dimensions(), &result.assignment, &result.centroids)
}

/// Reduces the image to at most `k` colours, with the centroids seeded on
/// `k` distinct pixels that the generator started by `seed` chooses. The
/// output has the dimensions of the input.
pub fn kmeans_with_seed(k: u32, image: &Image, seed: u64) -> (result: Result<Image, KmeansError>)
    requires
        image.pixel_count() <= u32::MAX,
    ensures
        match result {
            Ok(output) => {
                &&& valid_k(k as int, image.pixel_count())
                &&& output.wf()
                &&& output.width() == image.width()
                &&& output.height() == image.height()
                &&& exists|positions: Seq<u32>|
                    is_selection(positions, k as int, image.pixel_count()) && output@
                        == quantized_bytes(image@, seeds_at(image@, positions))
                &&& distinct_colors(output@).finite()
                &&& distinct_colors(output@).len() <= k
            },
            Err(error) => {
                &&& error == KmeansError::InvalidK
                &&& !valid_k(k as int, image.pixel_count())
            },
        },
{
    match validate_k(k, image) {
        Err(_) => Err(KmeansError::InvalidK),
        Ok(_) => {
            let (width, height) = image.dimensions();
            let total: u32 = (width as u64 * height as u64) as u32;
            let positions: Vec<u32> = pick_positions(seed, k, total);
            let output: Image = quantize_from(image, &positions);
            Ok(output)
        },
    }
}

/// Reduces the image to at most `k` colours, with the default seed.
pub fn kmeans(k: u32, image: &Image) -> (result: Result<Image, KmeansError>)
    requires
        image.pixel_count() <= u32::MAX,
    ensures
        match result {
            Ok(output) => {
                &&& valid_k(k as int, image.pixel_count())
                &&& output.wf()
                &&& output.width() == image.width()
                &&& output.height() == image.height()
                &&& exists|positions: Seq<u32>|
                    is_selection(positions, k as int, image.pixel_count()) && output@
                        == quantized_bytes(image@, seeds_at(image@, positions))
                &&& distinct_colors(output@).finite()
                &&& distinct_colors(output@).len() <= k
            },
            Err(error) => {
                &&& error == KmeansError::InvalidK
                &&& !valid_k(k as int, image.pixel_count())
            },
        },
{
    kmeans_with_seed(k, image, DEFAULT_SEED)
}

} // verus!
