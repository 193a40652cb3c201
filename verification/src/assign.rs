//! The assignment pass: every pixel is bound to its nearest centroid.

use vstd::prelude::*;
use vstd::arithmetic::div_mod::lemma_fundamental_div_mod_converse;
use crate::color::{all_wf, dist_sq, pixel_at, pixel_of, Centroid, Rgba};
use crate::image::{lemma_pixel_in_bounds, Image};
use crate::layout::{assignment_grid, groups_needed, lemma_item_is_covered, TILE_SIZE};

verus! {

/// Centroid `j` is the nearest to `p`: no centroid is nearer, and every
/// centroid with a lower index is strictly farther.
pub open spec fn is_nearest(p: Rgba, centroids: Seq<Centroid>, j: int) -> bool {
    &&& 0 <= j < centroids.len()
    &&& forall|i: int|
        0 <= i < centroids.len() ==> dist_sq(p, centroids[j]) <= dist_sq(p, #[trigger] centroids[i])
    &&& forall|i: int| 0 <= i < j ==> dist_sq(p, centroids[j]) < dist_sq(p, #[trigger] centroids[i])
}

/// The index of the nearest among the first `n` centroids, the lowest where
/// several are equally near.
pub open spec fn nearest_among(p: Rgba, centroids: Seq<Centroid>, n: int) -> int
    decreases n,
{
    if n <= 1 {
        0
    } else {
        let best = nearest_among(p, centroids, n - 1);
        if dist_sq(p, centroids[n - 1]) < dist_sq(p, centroids[best]) {
            n - 1
        } else {
            best
        }
    }
}

/// The index of the centroid nearest to `p`.
pub open spec fn nearest_index(p: Rgba, centroids: Seq<Centroid>) -> int {
    nearest_among(p, centroids, centroids.len() as int)
}

/// The cluster of every pixel of a tightly packed buffer.
pub open spec fn assignment_of(pixels: Seq<u8>, centroids: Seq<Centroid>) -> Seq<u32> {
    Seq::new(
        (pixels.len() / 4) as nat,
        |i: int| nearest_index(pixel_at(pixels, i), centroids) as u32,
    )
}

/// Every entry of an assignment names one of `k` clusters.
pub open spec fn in_range(assignment: Seq<u32>, k: int) -> bool {
    forall|i: int| 0 <= i < assignment.len() ==> 0 <= #[trigger] assignment[i] < k
}

/// `nearest_among` is the nearest of the first `n` centroids.
pub proof fn lemma_nearest_among(p: Rgba, centroids: Seq<Centroid>, n: int)
    requires
        1 <= n <= centroids.len(),
    ensures
        is_nearest(p, centroids.take(n), nearest_among(p, centroids, n)),
    decreases n,
{
    let head = centroids.take(n);
    if n > 1 {
        lemma_nearest_among(p, centroids, n - 1);
        let prev = centroids.take(n - 1);
        let best = nearest_among(p, centroids, n - 1);
        let j = nearest_among(p, centroids, n);
        assert(forall|i: int| 0 <= i < n - 1 ==> prev[i] == head[i]);
        assert forall|i: int| 0 <= i < head.len() implies dist_sq(p, head[j]) <= dist_sq(
            p,
            #[trigger] head[i],
        ) by {
            if i < n - 1 {
                assert(dist_sq(p, prev[best]) <= dist_sq(p, prev[i]));
            }
        }
        assert forall|i: int| 0 <= i < j implies dist_sq(p, head[j]) < dist_sq(
            p,
            #[trigger] head[i],
        ) by {
            if j == n - 1 {
                assert(dist_sq(p, prev[best]) <= dist_sq(p, prev[i]));
            } else {
                assert(dist_sq(p, prev[best]) < dist_sq(p, prev[i]));
            }
        }
    }
}

/// A pixel has exactly one nearest centroid, which `nearest_index` names.
pub proof fn lemma_nearest_is_unique(p: Rgba, centroids: Seq<Centroid>, j: int)
    requires
        centroids.len() >= 1,
    ensures
        is_nearest(p, centroids, j) <==> j == nearest_index(p, centroids),
{
    lemma_nearest_among(p, centroids, centroids.len() as int);
    assert(centroids.take(centroids.len() as int) =~= centroids);
    let best = nearest_index(p, centroids);
    if is_nearest(p, centroids, j) {
        if j < best {
            assert(dist_sq(p, centroids[best]) < dist_sq(p, centroids[j]));
            assert(dist_sq(p, centroids[j]) <= dist_sq(p, centroids[best]));
        }
        if best < j {
            assert(dist_sq(p, centroids[j]) < dist_sq(p, centroids[best]));
            assert(dist_sq(p, centroids[best]) <= dist_sq(p, centroids[j]));
        }
    }
}

/// The index of the centroid nearest to `p` by squared Euclidean distance
/// over the four channels; of several equally near, the lowest index.
pub fn nearest_centroid(p: Rgba, centroids: &Vec<Centroid>) -> (j: u32)
    requires
        1 <= centroids@.len() <= u32::MAX,
        all_wf(centroids@),
    ensures
        is_nearest(p, centroids@, j as int),
        j == nearest_index(p, centroids@),
{
    let mut best: u32 = 0;
    let mut best_distance: u64 = centroids[0].distance_squared(p);
    let mut i: u32 = 1;
    while (i as usize) < centroids.len()
        invariant
            1 <= i <= centroids@.len() <= u32::MAX,
            all_wf(centroids@),
            0 <= best < i,
            best_distance == dist_sq(p, centroids@[best as int]),
            forall|t: int|
                0 <= t < i ==> dist_sq(p, centroids@[best as int]) <= dist_sq(
                    p,
                    #[trigger] centroids@[t],
                ),
            forall|t: int|
                0 <= t < best ==> dist_sq(p, centroids@[best as int]) < dist_sq(
                    p,
                    #[trigger] centroids@[t],
                ),
        decreases centroids@.len() - i,
    {
        let distance: u64 = centroids[i as usize].distance_squared(p);
        if distance < best_distance {
            best = i;
            best_distance = distance;
        }
        i = i + 1;
    }
    proof {
        lemma_nearest_is_unique(p, centroids@, best as int);
    }
    best
}

/// Pixel `i` of an image `width` pixels wide lies in the tile `tile`.
pub open spec fn in_tile(width: int, i: int, tile: (int, int)) -> bool {
    (i % width) / 16 == tile.0 && (i / width) / 16 == tile.1
}

/// Within its tile, pixel `i` comes before the local position `(lx, ly)`,
/// row by row.
pub open spec fn local_before(width: int, i: int, lx: int, ly: int) -> bool {
    (i / width) % 16 < ly || ((i / width) % 16 == ly && (i % width) % 16 < lx)
}

/// The tile of pixel `i` comes before the tile `tile`, row by row.
pub open spec fn tile_before(width: int, i: int, tile: (int, int)) -> bool {
    (i / width) / 16 < tile.1 || ((i / width) / 16 == tile.1 && (i % width) / 16 < tile.0)
}

/// A pixel position splits into a row and a column inside the image.
pub proof fn lemma_index_split(width: int, height: int, i: int)
    requires
        0 <= i < width * height,
        0 < width,
    ensures
        0 <= i % width < width,
        0 <= i / width < height,
        i == (i / width) * width + i % width,
{
    let y = i / width;
    assert(i == width * y + i % width && 0 <= i % width < width) by (nonlinear_arith)
        requires
            0 < width,
            y == i / width,
    ;
    assert(y * width == width * y) by (nonlinear_arith);
    if y < 0 {
        assert(width * y <= -width) by (nonlinear_arith)
            requires
                y <= -1,
                0 < width,
        ;
    }
    if y >= height {
        assert(width * y >= width * height) by (nonlinear_arith)
            requires
                y >= height,
                0 < width,
        ;
    }
}

/// Column `x` of row `y` is one pixel position of the image, and no other
/// row and column give the same.
pub proof fn lemma_index_join(width: int, height: int, x: int, y: int)
    requires
        0 <= x < width,
        0 <= y < height,
    ensures
        0 <= y * width + x < width * height,
        (y * width + x) % width == x,
        (y * width + x) / width == y,
{
    lemma_pixel_in_bounds(width, height, x, y);
    lemma_fundamental_div_mod_converse(y * width + x, width, y, x);
}

/// The work of one workgroup of the assignment kernel: each pixel of the
/// tile `(tile_x, tile_y)` of 16 by 16 pixels is assigned to its nearest
/// centroid. Positions of the tile that lie beyond the right or the lower
/// edge of the image are passed over, and no pixel outside the tile is
/// touched.
pub fn assign_tile(
    image: &Image,
    centroids: &Vec<Centroid>,
    buffer: &mut Vec<u32>,
    tile_x: u32,
    tile_y: u32,
)
    requires
        old(buffer)@.len() == image.pixel_count(),
        image.pixel_count() <= u32::MAX,
        1 <= centroids@.len() <= u32::MAX,
        all_wf(centroids@),
    ensures
        final(buffer)@.len() == old(buffer)@.len(),
        forall|i: int|
            0 <= i < final(buffer)@.len() ==> #[trigger] final(buffer)@[i] == (if in_tile(
                image.width(),
                i,
                (tile_x as int, tile_y as int),
            ) {
                nearest_index(pixel_at(image@, i), centroids@) as u32
            } else {
                old(buffer)@[i]
            }),
{
    let (width, height) = image.dimensions();
    let ghost tile = (tile_x as int, tile_y as int);
    let mut ly: u32 = 0;
    while ly < TILE_SIZE
        invariant
            0 <= ly <= TILE_SIZE,
            width == image.width(),
            height == image.height(),
            tile == (tile_x as int, tile_y as int),
            buffer@.len() == old(buffer)@.len(),
            buffer@.len() == image.pixel_count(),
            image.pixel_count() <= u32::MAX,
            1 <= centroids@.len() <= u32::MAX,
            all_wf(centroids@),
            forall|i: int|
                0 <= i < buffer@.len() ==> #[trigger] buffer@[i] == (if in_tile(
                    width as int,
                    i,
                    tile,
                ) && local_before(width as int, i, 0, ly as int) {
                    nearest_index(pixel_at(image@, i), centroids@) as u32
                } else {
                    old(buffer)@[i]
                }),
        decreases TILE_SIZE - ly,
    {
        let mut lx: u32 = 0;
        while lx < TILE_SIZE
            invariant
                0 <= lx <= TILE_SIZE,
                0 <= ly < TILE_SIZE,
                width == image.width(),
                height == image.height(),
                tile == (tile_x as int, tile_y as int),
                buffer@.len() == old(buffer)@.len(),
                buffer@.len() == image.pixel_count(),
                image.pixel_count() <= u32::MAX,
                1 <= centroids@.len() <= u32::MAX,
                all_wf(centroids@),
                forall|i: int|
                    0 <= i < buffer@.len() ==> #[trigger] buffer@[i] == (if in_tile(
                        width as int,
                        i,
                        tile,
                    ) && local_before(width as int, i, lx as int, ly as int) {
                        nearest_index(pixel_at(image@, i), centroids@) as u32
                    } else {
                        old(buffer)@[i]
                    }),
            decreases TILE_SIZE - lx,
        {
            let x: u64 = tile_x as u64 * 16 + lx as u64;
            let y: u64 = tile_y as u64 * 16 + ly as u64;
            let ghost before = buffer@;
            if x < width as u64 && y < height as u64 {
                proof {
                    lemma_index_join(width as int, height as int, x as int, y as int);
                }
                let index: u32 = (y * width as u64 + x) as u32;
                let nearest: u32 = nearest_centroid(pixel_of(image, index), centroids);
                buffer.set(index as usize, nearest);
            }
            proof {
                assert forall|i: int| 0 <= i < buffer@.len() implies #[trigger] buffer@[i] == (if in_tile(
                    width as int,
                    i,
                    tile,
                ) && local_before(width as int, i, lx + 1, ly as int) {
                    nearest_index(pixel_at(image@, i), centroids@) as u32
                } else {
                    old(buffer)@[i]
                }) by {
                    lemma_index_split(width as int, height as int, i);
                    let column = i % (width as int);
                    let row = i / (width as int);
                    if column == x && row == y {
                        assert(i == y * width + x);
                    } else {
                        if x < width && y < height {
                            assert(i != y * width + x);
                        }
                        assert(buffer@[i] == before[i]);
                        assert(column / 16 == tile_x && column % 16 == lx ==> column == x);
                        assert(row / 16 == tile_y && row % 16 == ly ==> row == y);
                    }
                }
            }
            lx = lx + 1;
        }
        ly = ly + 1;
    }
}

/// The assignment pass: one workgroup is launched for every tile of the
/// grid that covers the image, and overwrites the entries of the pixels of
/// its tile. Afterwards entry `i` of the buffer is the cluster of pixel `i`,
/// counted row by row.
pub fn assign_pixels(image: &Image, centroids: &Vec<Centroid>, buffer: &mut Vec<u32>)
    requires
        old(buffer)@.len() == image.pixel_count(),
        image.pixel_count() <= u32::MAX,
        1 <= centroids@.len() <= u32::MAX,
        all_wf(centroids@),
    ensures
        final(buffer)@ == assignment_of(image@, centroids@),
        final(buffer)@.len() == image.pixel_count(),
        in_range(final(buffer)@, centroids@.len() as int),
        forall|i: int|
            0 <= i < final(buffer)@.len() ==> is_nearest(
                pixel_at(image@, i),
                centroids@,
                #[trigger] final(buffer)@[i] as int,
            ),
{
    let (width, height) = image.dimensions();
    let grid: (u32, u32) = assignment_grid(width, height);
    let mut tile_y: u32 = 0;
    while tile_y < grid.1
        invariant
            0 <= tile_y <= grid.1,
            width == image.width(),
            height == image.height(),
            grid.0 == groups_needed(width as int, 16),
            grid.1 == groups_needed(height as int, 16),
            buffer@.len() == image.pixel_count(),
            image.pixel_count() <= u32::MAX,
            1 <= centroids@.len() <= u32::MAX,
            all_wf(centroids@),
            forall|i: int|
                0 <= i < buffer@.len() && tile_before(width as int, i, (0, tile_y as int))
                    ==> #[trigger] buffer@[i] == nearest_index(
                    pixel_at(image@, i),
                    centroids@,
                ) as u32,
        decreases grid.1 - tile_y,
    {
        let mut tile_x: u32 = 0;
        while tile_x < grid.0
            invariant
                0 <= tile_x <= grid.0,
                0 <= tile_y < grid.1,
                width == image.width(),
                height == image.height(),
                grid.0 == groups_needed(width as int, 16),
                grid.1 == groups_needed(height as int, 16),
                buffer@.len() == image.pixel_count(),
                image.pixel_count() <= u32::MAX,
                1 <= centroids@.len() <= u32::MAX,
                all_wf(centroids@),
                forall|i: int|
                    0 <= i < buffer@.len() && tile_before(
                        width as int,
                        i,
                        (tile_x as int, tile_y as int),
                    ) ==> #[trigger] buffer@[i] == nearest_index(
                        pixel_at(image@, i),
                        centroids@,
                    ) as u32,
            decreases grid.0 - tile_x,
        {
            assign_tile(image, centroids, buffer, tile_x, tile_y);
            tile_x = tile_x + 1;
        }
        proof {
            assert forall|i: int|
                0 <= i < buffer@.len() && tile_before(
                    width as int,
                    i,
                    (0, tile_y as int + 1),
                ) implies #[trigger] buffer@[i] == nearest_index(
                pixel_at(image@, i),
                centroids@,
            ) as u32 by {
                lemma_index_split(width as int, height as int, i);
                lemma_item_is_covered(width as int, 16, i % (width as int));
            }
        }
        tile_y = tile_y + 1;
    }
    proof {
        use_type_invariant(image);
        assert forall|i: int| 0 <= i < buffer@.len() implies #[trigger] buffer@[i]
            == nearest_index(pixel_at(image@, i), centroids@) as u32 && is_nearest(
            pixel_at(image@, i),
            centroids@,
            buffer@[i] as int,
        ) by {
            lemma_index_split(width as int, height as int, i);
            lemma_item_is_covered(height as int, 16, i / (width as int));
            lemma_nearest_is_unique(
                pixel_at(image@, i),
                centroids@,
                nearest_index(pixel_at(image@, i), centroids@),
            );
        }
        assert(image@.len() / 4 == buffer@.len() as int);
        assert(buffer@ =~= assignment_of(image@, centroids@));
    }
}

} // verus!
