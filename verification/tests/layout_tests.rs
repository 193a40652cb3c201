use kmeans_quant::error::KmeansError;
use kmeans_quant::layout::{
    assignment_grid, compute_work_group_count, padded_bytes_per_row, readback_buffer_size,
    row_pitch, strip_row_padding,
};

fn padded_buffer(width: u32, height: u32) -> (Vec<u8>, Vec<u8>) {
    let pitch = padded_bytes_per_row(width);
    let row = width as usize * 4;
    let mut padded = vec![0xEEu8; pitch * height as usize];
    let mut tight = Vec::new();
    for r in 0..height as usize {
        for j in 0..row {
            let value = ((r * 31 + j * 7 + 1) % 251) as u8;
            padded[r * pitch + j] = value;
            tight.push(value);
        }
    }
    (padded, tight)
}

#[test]
fn padded_row_is_next_multiple_of_256() {
    assert_eq!(padded_bytes_per_row(0), 0);
    assert_eq!(padded_bytes_per_row(1), 256);
    assert_eq!(padded_bytes_per_row(63), 256);
    assert_eq!(padded_bytes_per_row(64), 256);
    assert_eq!(padded_bytes_per_row(65), 512);
    assert_eq!(padded_bytes_per_row(100), 512);
    assert_eq!(padded_bytes_per_row(128), 512);
    assert_eq!(padded_bytes_per_row(129), 768);
}

#[test]
fn row_pitch_holds_the_widest_row() {
    assert_eq!(row_pitch(u32::MAX), 17_179_869_184);
    assert_eq!(row_pitch(65), 512);
}

#[test]
fn work_group_count_is_ceiling_division() {
    assert_eq!(compute_work_group_count((0, 0), (16, 16)), (0, 0));
    assert_eq!(compute_work_group_count((1, 16), (16, 16)), (1, 1));
    assert_eq!(compute_work_group_count((16, 17), (16, 16)), (1, 2));
    assert_eq!(compute_work_group_count((33, 47), (16, 16)), (3, 3));
    assert_eq!(compute_work_group_count((6145, 1), (6144, 1)), (2, 1));
    assert_eq!(compute_work_group_count((u32::MAX, u32::MAX), (1, u32::MAX)), (u32::MAX, 1));
    assert_eq!(compute_work_group_count((u32::MAX, 5), (u32::MAX, 2)), (1, 3));
}

#[test]
fn assignment_grid_uses_tiles_of_sixteen() {
    assert_eq!(assignment_grid(1920, 1080), (120, 68));
    assert_eq!(assignment_grid(17, 1), (2, 1));
}

#[test]
fn readback_buffer_holds_all_padded_rows() {
    assert_eq!(readback_buffer_size(65, 3), 1536);
    assert_eq!(readback_buffer_size(64, 10), 2560);
    assert_eq!(readback_buffer_size(7, 0), 0);
}

#[test]
fn strip_padding_recovers_rows_for_unaligned_width() {
    for &(width, height) in &[(1u32, 1u32), (3, 5), (63, 2), (65, 4), (100, 3), (130, 2)] {
        let (padded, tight) = padded_buffer(width, height);
        let image = strip_row_padding(&padded, width, height).unwrap();
        assert_eq!(image.dimensions(), (width, height));
        assert_eq!(image.raw_pixels().len(), (width * height * 4) as usize);
        assert_eq!(image.raw_pixels(), &tight[..]);
    }
}

#[test]
fn strip_padding_keeps_aligned_rows() {
    let (padded, tight) = padded_buffer(64, 3);
    assert_eq!(padded, tight);
    let image = strip_row_padding(&padded, 64, 3).unwrap();
    assert_eq!(image.raw_pixels(), &tight[..]);
}

#[test]
fn strip_padding_of_empty_image() {
    let image = strip_row_padding(&[], 5, 0).unwrap();
    assert_eq!(image.dimensions(), (5, 0));
    assert!(image.raw_pixels().is_empty());
    let image = strip_row_padding(&[], 0, 4).unwrap();
    assert_eq!(image.dimensions(), (0, 4));
    assert!(image.raw_pixels().is_empty());
}

#[test]
fn strip_padding_refuses_wrong_length() {
    let (padded, _) = padded_buffer(65, 4);
    let short = strip_row_padding(&padded[..padded.len() - 1], 65, 4);
    assert!(matches!(short, Err(KmeansError::ReadbackFailure)));
    let tight_only = strip_row_padding(&vec![0u8; 65 * 4 * 4], 65, 4);
    assert!(matches!(tight_only, Err(KmeansError::ReadbackFailure)));
    let mut long = padded.clone();
    long.push(0);
    assert!(matches!(strip_row_padding(&long, 65, 4), Err(KmeansError::ReadbackFailure)));
}
