//! Sizes and byte layouts shared between the host and the device: the
//! dispatch grid, the padded row pitch, and the removal of row padding.

use vstd::prelude::*;
use vstd::slice::slice_subrange;
use crate::error::KmeansError;
use crate::image::{byte_len, Image};

verus! {

/// Rows of a buffer that the device writes start at multiples of this many
/// bytes.
pub const ROW_ALIGNMENT: u64 = 256;

/// The edge of the square tile of pixels that one workgroup of the
/// assignment kernel covers.
pub const TILE_SIZE: u32 = 16;

/// The least number of groups of `group` items that together cover `extent`
/// items.
pub open spec fn groups_needed(extent: int, group: int) -> int {
    (extent + group - 1) / group
}

/// `groups_needed` is the ceiling of the quotient: the groups cover the
/// extent, and one group fewer would not.
pub proof fn lemma_groups_needed_covers(extent: int, group: int)
    requires
        0 <= extent,
        0 < group,
    ensures
        0 <= groups_needed(extent, group) <= extent,
        groups_needed(extent, group) * group >= extent,
        extent > 0 ==> (groups_needed(extent, group) - 1) * group < extent,
        extent == 0 ==> groups_needed(extent, group) == 0,
{
    let q = groups_needed(extent, group);
    let t = extent + group - 1;
    assert(t == group * (t / group) + t % group && 0 <= t % group < group) by (nonlinear_arith)
        requires
            0 < group,
    ;
    assert(q * group == group * q) by (nonlinear_arith);
    assert((q - 1) * group == group * q - group) by (nonlinear_arith);
    if q > extent {
        assert(q * group >= (extent + 1) * group) by (nonlinear_arith)
            requires
                q >= extent + 1,
                0 < group,
        ;
        assert((extent + 1) * group >= extent + group) by (nonlinear_arith)
            requires
                0 <= extent,
                1 <= group,
        ;
    }
    if q < 0 {
        assert(q * group <= -group) by (nonlinear_arith)
            requires
                q <= -1,
                0 < group,
        ;
    }
}

/// Every item of the extent falls into one of the groups that are launched.
pub proof fn lemma_item_is_covered(extent: int, group: int, item: int)
    requires
        0 <= item < extent,
        0 < group,
    ensures
        0 <= item / group < groups_needed(extent, group),
{
    lemma_groups_needed_covers(extent, group);
    let q = groups_needed(extent, group);
    let g = item / group;
    assert(item == group * g + item % group && 0 <= item % group < group) by (nonlinear_arith)
        requires
            0 < group,
            g == item / group,
    ;
    if g < 0 {
        assert(group * g <= -group) by (nonlinear_arith)
            requires
                g <= -1,
                0 < group,
        ;
    }
    if g >= q {
        assert(group * g >= q * group) by (nonlinear_arith)
            requires
                g >= q,
                0 < group,
        ;
    }
}

/// The ceiling of `extent / group`.
fn ceil_div(extent: u32, group: u32) -> (count: u32)
    requires
        group > 0,
    ensures
        count == groups_needed(extent as int, group as int),
{
    proof {
        lemma_groups_needed_covers(extent as int, group as int);
    }
    let total: u64 = extent as u64 + group as u64 - 1;
    (total / group as u64) as u32
}

/// The number of workgroups to launch along each axis so that workgroups of
/// `workgroup.0 * workgroup.1` items cover all `size.0 * size.1` items.
/// Workgroups at the far edges may reach beyond the items.
pub fn compute_work_group_count(size: (u32, u32), workgroup: (u32, u32)) -> (count: (u32, u32))
    requires
        workgroup.0 > 0,
        workgroup.1 > 0,
    ensures
        count.0 == groups_needed(size.0 as int, workgroup.0 as int),
        count.1 == groups_needed(size.1 as int, workgroup.1 as int),
{
    let x: u32 = ceil_div(size.0, workgroup.0);
    let y: u32 = ceil_div(size.1, workgroup.1);
    (x, y)
}

/// The grid of the assignment kernel for an image: as many tiles of
/// `TILE_SIZE * TILE_SIZE` pixels along each axis as cover it.
pub fn assignment_grid(width: u32, height: u32) -> (grid: (u32, u32))
    ensures
        grid.0 == groups_needed(width as int, TILE_SIZE as int),
        grid.1 == groups_needed(height as int, TILE_SIZE as int),
{
    compute_work_group_count((width, height), (TILE_SIZE, TILE_SIZE))
}

/// The number of bytes in one tightly packed row of `width` pixels.
pub open spec fn row_len(width: int) -> int {
    width * 4
}

/// The row pitch of a device buffer for rows of `width` pixels: the
/// smallest multiple of 256 that holds a tightly packed row.
pub open spec fn padded_row_len(width: int) -> int {
    (row_len(width) + 255) / 256 * 256
}

/// The padded row length is a multiple of 256, holds a whole row, and
/// exceeds it by less than 256 bytes.
pub proof fn lemma_padded_row_len(width: int)
    requires
        0 <= width,
    ensures
        padded_row_len(width) % 256 == 0,
        row_len(width) <= padded_row_len(width) < row_len(width) + 256,
        row_len(width) % 256 == 0 ==> padded_row_len(width) == row_len(width),
        row_len(width) % 256 != 0 ==> padded_row_len(width) == row_len(width) + 256 - row_len(width)
            % 256,
{
    let bytes = row_len(width);
    assert(bytes == 256 * (bytes / 256) + bytes % 256);
    if bytes % 256 == 0 {
        assert((bytes + 255) / 256 == bytes / 256);
    } else {
        assert((bytes + 255) / 256 == bytes / 256 + 1);
    }
}

/// The row pitch as a 64-bit number, which holds it for every width.
pub fn row_pitch(width: u32) -> (pitch: u64)
    ensures
        pitch == padded_row_len(width as int),
{
    proof {
        lemma_padded_row_len(width as int);
    }
    let bytes_per_row: u64 = width as u64 * 4;
    let padding: u64 = (256 - bytes_per_row % 256) % 256;
    bytes_per_row + padding
}

/// The next multiple of 256 at or above the `width * 4` bytes of a row.
pub fn padded_bytes_per_row(width: u32) -> (padded: usize)
    requires
        padded_row_len(width as int) <= usize::MAX,
    ensures
        padded == padded_row_len(width as int),
{
    row_pitch(width) as usize
}

/// The size in bytes of the buffer that the device fills on readback:
/// `height` rows at the row pitch.
pub fn readback_buffer_size(width: u32, height: u32) -> (size: u64)
    requires
        width * height <= u32::MAX,
    ensures
        size == padded_row_len(width as int) * height,
{
    let pitch: u64 = row_pitch(width);
    proof {
        assert(pitch * height <= 4 * (width * height) + 255 * height) by (nonlinear_arith)
            requires
                0 <= pitch <= 4 * width + 255,
                0 <= height,
        ;
    }
    pitch * height as u64
}

/// The position in a tightly packed image of byte `j` of row `r`.
pub open spec fn tight_index(width: int, r: int, j: int) -> int {
    r * row_len(width) + j
}

/// The position in a padded buffer of byte `j` of row `r`.
pub open spec fn padded_index(width: int, r: int, j: int) -> int {
    r * padded_row_len(width) + j
}

/// `tight` holds, row after row, the first `width * 4` bytes of each of the
/// `height` padded rows of `padded`.
pub open spec fn is_unpadded(tight: Seq<u8>, padded: Seq<u8>, width: int, height: int) -> bool {
    &&& tight.len() == byte_len(width, height)
    &&& forall|r: int, j: int|
        0 <= r < height && 0 <= j < row_len(width) ==> #[trigger] tight[tight_index(width, r, j)]
            == padded[padded_index(width, r, j)]
}

/// Every position of a tightly packed image is byte `j` of row `r` for
/// exactly one row and one byte within it.
pub proof fn lemma_tight_index_split(width: int, height: int, i: int)
    requires
        0 <= i < byte_len(width, height),
        0 <= width,
        0 <= height,
    ensures
        0 <= i / row_len(width) < height,
        0 <= i % row_len(width) < row_len(width),
        tight_index(width, i / row_len(width), i % row_len(width)) == i,
{
    let w4 = row_len(width);
    assert(byte_len(width, height) == height * w4) by (nonlinear_arith)
        requires
            w4 == width * 4,
            byte_len(width, height) == width * height * 4,
    ;
    if w4 == 0 {
        assert(height * w4 == 0) by (nonlinear_arith)
            requires
                w4 == 0,
        ;
    }
    let r = i / w4;
    assert(i == w4 * r + i % w4 && 0 <= i % w4 < w4) by (nonlinear_arith)
        requires
            0 < w4,
            r == i / w4,
    ;
    assert(r * w4 == w4 * r) by (nonlinear_arith);
    if r < 0 {
        assert(w4 * r <= -w4) by (nonlinear_arith)
            requires
                r <= -1,
                0 < w4,
        ;
    }
    if r >= height {
        assert(w4 * r >= height * w4) by (nonlinear_arith)
            requires
                r >= height,
                0 < w4,
        ;
    }
}

/// Removing the padding recovers the image: two tightly packed buffers that
/// both hold the rows of one padded buffer are equal.
pub proof fn lemma_unpadded_is_unique(
    first: Seq<u8>,
    second: Seq<u8>,
    padded: Seq<u8>,
    width: int,
    height: int,
)
    requires
        0 <= width,
        0 <= height,
        is_unpadded(first, padded, width, height),
        is_unpadded(second, padded, width, height),
    ensures
        first == second,
{
    assert forall|i: int| 0 <= i < first.len() implies first[i] == second[i] by {
        lemma_tight_index_split(width, height, i);
        let r = i / row_len(width);
        let j = i % row_len(width);
        assert(first[tight_index(width, r, j)] == padded[padded_index(width, r, j)]);
        assert(second[tight_index(width, r, j)] == padded[padded_index(width, r, j)]);
    }
    assert(first =~= second);
}

/// Reassembles the image from a buffer read back from the device, in which
/// each row of `width * 4` bytes is followed by padding up to the row pitch.
/// A buffer that is not exactly `height` padded rows long is refused.
pub fn strip_row_padding(padded: &[u8], width: u32, height: u32) -> (result: Result<
    Image,
    KmeansError,
>)
    ensures
        match result {
            Ok(image) => {
                &&& padded@.len() == padded_row_len(width as int) * height
                &&& image.wf()
                &&& image.width() == width
                &&& image.height() == height
                &&& is_unpadded(image@, padded@, width as int, height as int)
            },
            Err(error) => {
                &&& error == KmeansError::ReadbackFailure
                &&& padded@.len() != padded_row_len(width as int) * height
            },
        },
{
    let pitch: u64 = row_pitch(width);
    proof {
        lemma_padded_row_len(width as int);
        lemma_rows_fit(width as int, height as int, height as int);
        lemma_rows_fit(width as int, height as int, 0);
        assert(pitch * height <= 0x4_0000_0000 * 0x1_0000_0000) by (nonlinear_arith)
            requires
                0 <= pitch <= 0x4_0000_0000,
                0 <= height <= 0x1_0000_0000,
        ;
    }
    let expected: u128 = pitch as u128 * height as u128;
    if padded.len() as u128 != expected {
        return Err(KmeansError::ReadbackFailure);
    }
    if height == 0 {
        proof {
            assert(byte_len(width as int, 0) == 0) by (nonlinear_arith);
        }
        return Ok(Image::new((width, height), Vec::new()));
    }
    let pitch: usize = pitch as usize;
    let row: usize = width as usize * 4;
    let total: usize = padded.len();
    let mut pixels: Vec<u8> = Vec::new();
    let mut r: u32 = 0;
    while r < height
        invariant
            0 <= r <= height,
            pitch == padded_row_len(width as int),
            row == row_len(width as int),
            padded@.len() == padded_row_len(width as int) * height,
            padded@.len() == total,
            pixels@.len() == r * row_len(width as int),
            forall|q: int, j: int|
                0 <= q < r && 0 <= j < row_len(width as int) ==> #[trigger] pixels@[tight_index(
                    width as int,
                    q,
                    j,
                )] == padded@[padded_index(width as int, q, j)],
        decreases height - r,
    {
        proof {
            lemma_padded_row_len(width as int);
            lemma_rows_fit(width as int, height as int, r as int);
            lemma_rows_fit(width as int, height as int, r as int + 1);
        }
        let start: usize = r as usize * pitch;
        let source = slice_subrange(padded, start, start + row);
        let ghost before = pixels@;
        pixels.extend_from_slice(source);
        proof {
            assert(pixels@ == before + source@);
            assert((r + 1) * row_len(width as int) == r * row_len(width as int) + row_len(
                width as int,
            )) by (nonlinear_arith);
            assert forall|q: int, j: int|
                0 <= q < r + 1 && 0 <= j < row_len(width as int) implies #[trigger] pixels@[tight_index(
                width as int,
                q,
                j,
            )] == padded@[padded_index(width as int, q, j)] by {
                if q < r {
                    assert((q + 1) * row_len(width as int) <= r * row_len(width as int))
                        by (nonlinear_arith)
                        requires
                            q + 1 <= r,
                            0 <= row_len(width as int),
                    ;
                    assert((q + 1) * row_len(width as int) == q * row_len(width as int) + row_len(
                        width as int,
                    )) by (nonlinear_arith);
                    assert(0 <= q * row_len(width as int)) by (nonlinear_arith)
                        requires
                            0 <= q,
                            0 <= row_len(width as int),
                    ;
                    assert(pixels@[tight_index(width as int, q, j)] == before[tight_index(
                        width as int,
                        q,
                        j,
                    )]);
                } else {
                    assert(pixels@[tight_index(width as int, q, j)] == source@[j]);
                }
            }
        }
        r = r + 1;
    }
    proof {
        assert(height * row_len(width as int) == byte_len(width as int, height as int))
            by (nonlinear_arith)
            requires
                row_len(width as int) == width * 4,
                byte_len(width as int, height as int) == width * height * 4,
        ;
    }
    Ok(Image::new((width, height), pixels))
}

/// The first `rows` padded rows end inside a buffer of `height` padded rows,
/// and each holds its tightly packed row.
proof fn lemma_rows_fit(width: int, height: int, rows: int)
    requires
        0 <= width,
        0 <= rows <= height,
    ensures
        0 <= rows * padded_row_len(width) <= height * padded_row_len(width),
        padded_row_len(width) * height == height * padded_row_len(width),
        rows < height ==> rows * padded_row_len(width) + padded_row_len(width) <= height
            * padded_row_len(width),
        0 <= rows * row_len(width) <= rows * padded_row_len(width),
{
    lemma_padded_row_len(width);
    let p = padded_row_len(width);
    let w4 = row_len(width);
    assert(0 <= rows * p <= height * p) by (nonlinear_arith)
        requires
            0 <= rows <= height,
            0 <= p,
    ;
    assert(p * height == height * p) by (nonlinear_arith);
    if rows < height {
        assert(rows * p + p <= height * p) by (nonlinear_arith)
            requires
                rows + 1 <= height,
                0 <= p,
        ;
    }
    assert(0 <= rows * w4 <= rows * p) by (nonlinear_arith)
        requires
            0 <= rows,
            0 <= w4 <= p,
    ;
}

} // verus!
