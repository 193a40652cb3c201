//! The output compositor: every pixel takes the colour of its centroid.

use vstd::prelude::*;
use vstd::set_lib::lemma_len_subset;
use vstd::seq_lib::seq_to_set_is_finite;
use crate::assign::in_range;
use crate::color::{all_wf, pixel_at, quantized, Centroid, Rgba};
use crate::image::{byte_len, Image};

verus! {

/// Channel `c` of a colour: 0 is red, 1 green, 2 blue, 3 alpha.
pub open spec fn channel(p: Rgba, c: int) -> u8 {
    if c == 0 {
        p.r
    } else if c == 1 {
        p.g
    } else if c == 2 {
        p.b
    } else {
        p.a
    }
}

/// The bytes of the image in which every pixel has the colour of the
/// centroid it is assigned to, rounded to 8 bits. The alpha channel is the
/// centroid's as well.
pub open spec fn composed(assignment: Seq<u32>, centroids: Seq<Centroid>) -> Seq<u8> {
    Seq::new(
        4 * assignment.len(),
        |at: int| channel(quantized(centroids[assignment[at / 4] as int]), at % 4),
    )
}

/// The 8-bit colours of the centroids: the palette of the output.
pub open spec fn palette_of(centroids: Seq<Centroid>) -> Seq<Rgba> {
    Seq::new(centroids.len(), |j: int| quantized(centroids[j]))
}

/// The set of colours that occur in a tightly packed RGBA8 buffer.
pub open spec fn distinct_colors(bytes: Seq<u8>) -> Set<Rgba> {
    Set::new(|c: Rgba| exists|i: int| 0 <= i < bytes.len() / 4 && pixel_at(bytes, i) == c)
}

/// Every pixel of the composed image has the colour of its centroid.
pub proof fn lemma_composed_pixels(assignment: Seq<u32>, centroids: Seq<Centroid>)
    ensures
        composed(assignment, centroids).len() == 4 * assignment.len(),
        forall|i: int|
            0 <= i < assignment.len() ==> #[trigger] pixel_at(composed(assignment, centroids), i)
                == quantized(centroids[assignment[i] as int]),
{
    let bytes = composed(assignment, centroids);
    assert forall|i: int| 0 <= i < assignment.len() implies #[trigger] pixel_at(bytes, i)
        == quantized(centroids[assignment[i] as int]) by {
        assert((4 * i) / 4 == i && (4 * i) % 4 == 0);
        assert((4 * i + 1) / 4 == i && (4 * i + 1) % 4 == 1);
        assert((4 * i + 2) / 4 == i && (4 * i + 2) % 4 == 2);
        assert((4 * i + 3) / 4 == i && (4 * i + 3) % 4 == 3);
    }
}

/// The composed image holds no colour outside the palette, so it holds at
/// most as many distinct colours as there are centroids.
pub proof fn lemma_palette_bound(assignment: Seq<u32>, centroids: Seq<Centroid>)
    requires
        in_range(assignment, centroids.len() as int),
    ensures
        distinct_colors(composed(assignment, centroids)).subset_of(palette_of(centroids).to_set()),
        distinct_colors(composed(assignment, centroids)).finite(),
        distinct_colors(composed(assignment, centroids)).len() <= centroids.len(),
{
    let bytes = composed(assignment, centroids);
    let palette = palette_of(centroids);
    let colors = distinct_colors(bytes);
    lemma_composed_pixels(assignment, centroids);
    assert forall|c: Rgba| colors.contains(c) implies palette.to_set().contains(c) by {
        let i = choose|i: int| 0 <= i < bytes.len() / 4 && pixel_at(bytes, i) == c;
        assert(pixel_at(bytes, i) == quantized(centroids[assignment[i] as int]));
        assert(palette[assignment[i] as int] == c);
    }
    seq_to_set_is_finite(palette);
    palette.lemma_cardinality_of_set();
    lemma_len_subset(colors, palette.to_set());
}

/// Composes the output image: pixel `i` takes the 8-bit colour nearest to
/// the centroid `assignment[i]`, all four channels.
pub fn composite(dimensions: (u32, u32), assignment: &Vec<u32>, centroids: &Vec<Centroid>) -> (image:
    Image)
    requires
        assignment@.len() == dimensions.0 * dimensions.1,
        in_range(assignment@, centroids@.len() as int),
        all_wf(centroids@),
        byte_len(dimensions.0 as int, dimensions.1 as int) <= usize::MAX,
    ensures
        image.wf(),
        image.width() == dimensions.0,
        image.height() == dimensions.1,
        image@ == composed(assignment@, centroids@),
{
    let mut bytes: Vec<u8> = Vec::new();
    let mut i: usize = 0;
    while i < assignment.len()
        invariant
            0 <= i <= assignment@.len(),
            in_range(assignment@, centroids@.len() as int),
            all_wf(centroids@),
            bytes@.len() == 4 * i,
            forall|at: int|
                0 <= at < 4 * i ==> #[trigger] bytes@[at] == composed(assignment@, centroids@)[at],
        decreases assignment@.len() - i,
    {
        let cluster: usize = assignment[i] as usize;
        let p: Rgba = centroids[cluster].to_pixel();
        bytes.push(p.r);
        bytes.push(p.g);
        bytes.push(p.b);
        bytes.push(p.a);
        proof {
            assert((4 * i) / 4 == i && (4 * i) % 4 == 0);
            assert((4 * i + 1) / 4 == i && (4 * i + 1) % 4 == 1);
            assert((4 * i + 2) / 4 == i && (4 * i + 2) % 4 == 2);
            assert((4 * i + 3) / 4 == i && (4 * i + 3) % 4 == 3);
        }
        i = i + 1;
    }
    proof {
        assert(bytes@ =~= composed(assignment@, centroids@));
        assert(byte_len(dimensions.0 as int, dimensions.1 as int) == 4 * (dimensions.0
            * dimensions.1)) by (nonlinear_arith);
    }
    Image::new(dimensions, bytes)
}

} // verus!
