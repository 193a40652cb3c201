//! Pixel colours and centroids.
//!
//! A pixel channel is a byte. A centroid channel is a fixed-point number on
//! the same scale, with 16 fractional bits: the byte `b` is the centroid
//! channel `b * 65536`, so every pixel colour is a centroid exactly, and the
//! normalised value of a centroid channel `c` is `c / (255 * 65536)`.

use vstd::prelude::*;
use crate::image::Image;

verus! {

/// The number of fixed-point units in one step of an 8-bit channel.
pub const SCALE: u32 = 65536;

/// The largest value of a centroid channel: the byte 255.
pub const CHANNEL_MAX: u32 = 16711680;

/// The colour of one pixel.
#[derive(Clone, Copy, Debug, PartialEq, Eq, Structural)]
pub struct Rgba {
    pub r: u8,
    pub g: u8,
    pub b: u8,
    pub a: u8,
}

/// The representative colour of one cluster, in fixed point.
#[derive(Clone, Copy, Debug, PartialEq, Eq, Structural)]
pub struct Centroid {
    pub r: u32,
    pub g: u32,
    pub b: u32,
    pub a: u32,
}

/// The colour of pixel `i` of a tightly packed RGBA8 buffer.
pub open spec fn pixel_at(bytes: Seq<u8>, i: int) -> Rgba {
    Rgba { r: bytes[4 * i], g: bytes[4 * i + 1], b: bytes[4 * i + 2], a: bytes[4 * i + 3] }
}

/// The centroid that equals a pixel colour exactly.
pub open spec fn centroid_of(p: Rgba) -> Centroid {
    Centroid {
        r: (p.r as int * 65536) as u32,
        g: (p.g as int * 65536) as u32,
        b: (p.b as int * 65536) as u32,
        a: (p.a as int * 65536) as u32,
    }
}

/// A fixed-point channel rounded to the nearest byte, halves upwards.
pub open spec fn round_channel(c: int) -> int {
    (c + 32768) / 65536
}

/// The 8-bit colour nearest to a centroid.
pub open spec fn quantized(c: Centroid) -> Rgba {
    Rgba {
        r: round_channel(c.r as int) as u8,
        g: round_channel(c.g as int) as u8,
        b: round_channel(c.b as int) as u8,
        a: round_channel(c.a as int) as u8,
    }
}

/// The square of `d`.
pub open spec fn square(d: int) -> int {
    d * d
}

/// The squared Euclidean distance between a pixel and a centroid over the
/// four channels, in squared fixed-point units.
pub open spec fn dist_sq(p: Rgba, c: Centroid) -> int {
    square(p.r as int * 65536 - c.r as int) + square(p.g as int * 65536 - c.g as int) + square(
        p.b as int * 65536 - c.b as int,
    ) + square(p.a as int * 65536 - c.a as int)
}

/// The squared Euclidean distance between two centroids.
pub open spec fn displacement_sq(from: Centroid, to: Centroid) -> int {
    square(to.r as int - from.r as int) + square(to.g as int - from.g as int) + square(
        to.b as int - from.b as int,
    ) + square(to.a as int - from.a as int)
}

/// All centroids of a set are well formed.
pub open spec fn all_wf(centroids: Seq<Centroid>) -> bool {
    forall|j: int| 0 <= j < centroids.len() ==> (#[trigger] centroids[j]).wf()
}

/// A square is bounded by the square of a bound on its root.
pub proof fn lemma_square_bound(d: int, bound: int)
    requires
        -bound <= d <= bound,
    ensures
        0 <= square(d) <= square(bound),
        d == 0 <==> square(d) == 0,
{
    assert(0 <= d * d <= bound * bound) by (nonlinear_arith)
        requires
            -bound <= d <= bound,
    ;
    assert((d == 0) <==> (d * d == 0)) by (nonlinear_arith);
}

/// The absolute difference of two channels and its square.
fn gap_squared(x: u32, y: u32) -> (sq: u64)
    requires
        x <= CHANNEL_MAX,
        y <= CHANNEL_MAX,
    ensures
        sq == square(x as int - y as int),
        sq <= 279280248422400,
{
    let gap: u64 = if x >= y {
        (x - y) as u64
    } else {
        (y - x) as u64
    };
    proof {
        lemma_square_bound(x as int - y as int, 16711680);
        assert(square(16711680) == 279280248422400);
        assert(gap * gap == square(x as int - y as int)) by (nonlinear_arith)
            requires
                gap == x - y || gap == y - x,
                square(x as int - y as int) == (x as int - y as int) * (x as int - y as int),
        ;
    }
    gap * gap
}

impl Rgba {
    /// This colour as a centroid.
    pub fn to_centroid(self) -> (c: Centroid)
        ensures
            c == centroid_of(self),
            c.wf(),
            quantized(c) == self,
    {
        Centroid {
            r: self.r as u32 * SCALE,
            g: self.g as u32 * SCALE,
            b: self.b as u32 * SCALE,
            a: self.a as u32 * SCALE,
        }
    }
}

impl Centroid {
    /// A centroid is well formed when no channel exceeds the byte 255.
    pub open spec fn wf(&self) -> bool {
        &&& self.r <= CHANNEL_MAX
        &&& self.g <= CHANNEL_MAX
        &&& self.b <= CHANNEL_MAX
        &&& self.a <= CHANNEL_MAX
    }

    /// The 8-bit colour nearest to this centroid, each channel rounded to
    /// the nearest byte and halves upwards. The alpha channel is the
    /// centroid's too.
    pub fn to_pixel(&self) -> (p: Rgba)
        requires
            self.wf(),
        ensures
            p == quantized(*self),
    {
        Rgba {
            r: ((self.r + SCALE / 2) / SCALE) as u8,
            g: ((self.g + SCALE / 2) / SCALE) as u8,
            b: ((self.b + SCALE / 2) / SCALE) as u8,
            a: ((self.a + SCALE / 2) / SCALE) as u8,
        }
    }

    /// The squared distance from a pixel colour to this centroid.
    pub fn distance_squared(&self, p: Rgba) -> (d: u64)
        requires
            self.wf(),
        ensures
            d == dist_sq(p, *self),
    {
        let pc: Centroid = p.to_centroid();
        let dr: u64 = gap_squared(pc.r, self.r);
        let dg: u64 = gap_squared(pc.g, self.g);
        let db: u64 = gap_squared(pc.b, self.b);
        let da: u64 = gap_squared(pc.a, self.a);
        dr + dg + db + da
    }

    /// The squared distance that a centroid has moved from `self` to `to`.
    pub fn displacement_squared(&self, to: &Centroid) -> (d: u64)
        requires
            self.wf(),
            to.wf(),
        ensures
            d == displacement_sq(*self, *to),
    {
        let dr: u64 = gap_squared(to.r, self.r);
        let dg: u64 = gap_squared(to.g, self.g);
        let db: u64 = gap_squared(to.b, self.b);
        let da: u64 = gap_squared(to.a, self.a);
        dr + dg + db + da
    }
}

/// The colour of pixel `index` of an image, counted row by row.
pub fn pixel_of(image: &Image, index: u32) -> (p: Rgba)
    requires
        index < image.pixel_count(),
    ensures
        p == pixel_at(image@, index as int),
{
    let bytes = image.raw_pixels();
    let len: usize = bytes.len();
    proof {
        assert(4 * index + 3 < bytes@.len()) by (nonlinear_arith)
            requires
                index < image.width() * image.height(),
                bytes@.len() == image.width() * image.height() * 4,
        ;
    }
    let at: usize = index as usize * 4;
    Rgba { r: bytes[at], g: bytes[at + 1], b: bytes[at + 2], a: bytes[at + 3] }
}

/// A channel is rounded, not truncated: the byte differs from the channel
/// by at most half a step, and a channel that lies halfway between two
/// bytes goes to the upper one.
pub proof fn lemma_round_channel_is_nearest(c: int)
    requires
        0 <= c <= CHANNEL_MAX,
    ensures
        0 <= round_channel(c) <= 255,
        -32768 < round_channel(c) * 65536 - c <= 32768,
{
}

/// A pixel colour is at distance zero from a centroid exactly when the
/// centroid is that colour.
pub proof fn lemma_zero_distance(p: Rgba, c: Centroid)
    ensures
        dist_sq(p, c) == 0 <==> c == centroid_of(p),
        dist_sq(p, c) >= 0,
{
    lemma_square_bound(p.r as int * 65536 - c.r as int, 0x1_0000_0000);
    lemma_square_bound(p.g as int * 65536 - c.g as int, 0x1_0000_0000);
    lemma_square_bound(p.b as int * 65536 - c.b as int, 0x1_0000_0000);
    lemma_square_bound(p.a as int * 65536 - c.a as int, 0x1_0000_0000);
}

} // verus!
