use kmeans_quant::color::Rgba;
use kmeans_quant::error::KmeansError;
use kmeans_quant::image::Image;
use kmeans_quant::init::{
    centroids_at, complete_selection, holds, init_centroids, offer, pick_positions, validate_k,
    DEFAULT_SEED,
};
use rand::rngs::StdRng;
use rand::{Rng, SeedableRng};

fn gradient(width: u32, height: u32) -> Image {
    let mut bytes = Vec::new();
    for i in 0..width * height {
        bytes.extend_from_slice(&[(i % 256) as u8, (i / 256) as u8, 7, 255]);
    }
    Image::new((width, height), bytes)
}

fn rejection_sample(seed: u64, k: u32, total: u32) -> Vec<u32> {
    let mut rng = StdRng::seed_from_u64(seed);
    let mut picked: Vec<u32> = Vec::new();
    for _ in 0..k {
        loop {
            let index = rng.gen_range(0..total);
            if !picked.contains(&index) {
                picked.push(index);
                break;
            }
        }
    }
    picked
}

fn assert_selection(picked: &[u32], k: u32, total: u32) {
    assert_eq!(picked.len(), k as usize);
    for (i, &p) in picked.iter().enumerate() {
        assert!(p < total);
        assert!(!picked[..i].contains(&p));
    }
}

#[test]
fn k_of_zero_is_invalid() {
    assert_eq!(validate_k(0, &gradient(4, 4)), Err(KmeansError::InvalidK));
}

#[test]
fn k_above_pixel_count_is_invalid() {
    assert_eq!(validate_k(17, &gradient(4, 4)), Err(KmeansError::InvalidK));
    assert_eq!(validate_k(1, &gradient(0, 4)), Err(KmeansError::InvalidK));
    assert_eq!(validate_k(u32::MAX, &gradient(4, 4)), Err(KmeansError::InvalidK));
}

#[test]
fn k_up_to_pixel_count_is_valid() {
    assert_eq!(validate_k(1, &gradient(4, 4)), Ok(()));
    assert_eq!(validate_k(16, &gradient(4, 4)), Ok(()));
}

#[test]
fn positions_are_distinct_and_in_range() {
    for &(k, total) in &[(0u32, 0u32), (0, 5), (1, 1), (3, 10), (10, 10), (64, 100), (200, 201)] {
        let picked = pick_positions(DEFAULT_SEED, k, total);
        assert_selection(&picked, k, total);
    }
}

#[test]
fn positions_follow_the_seeded_generator() {
    for &seed in &[0u64, 42, 4711] {
        for &(k, total) in &[(1u32, 4u32), (2, 4), (4, 4), (8, 1000), (50, 64)] {
            assert_eq!(pick_positions(seed, k, total), rejection_sample(seed, k, total));
        }
    }
}

#[test]
fn same_seed_gives_same_positions() {
    assert_eq!(pick_positions(42, 16, 4096), pick_positions(42, 16, 4096));
    assert_ne!(pick_positions(42, 16, 4096), pick_positions(43, 16, 4096));
}

#[test]
fn holds_finds_values() {
    let picked = vec![4, 9, 0];
    assert!(holds(&picked, 9));
    assert!(holds(&picked, 0));
    assert!(!holds(&picked, 1));
    assert!(!holds(&Vec::new(), 0));
}

#[test]
fn offer_rejects_what_was_chosen_before() {
    let mut picked = Vec::new();
    assert!(offer(&mut picked, 5));
    assert!(offer(&mut picked, 2));
    assert!(!offer(&mut picked, 5));
    assert!(offer(&mut picked, 0));
    assert!(!offer(&mut picked, 2));
    assert_eq!(picked, vec![5, 2, 0]);
}

#[test]
fn completion_takes_lowest_missing_positions() {
    let mut picked = vec![3, 0, 7];
    complete_selection(&mut picked, 6, 8);
    assert_eq!(picked, vec![3, 0, 7, 1, 2, 4]);
    let mut full = vec![1, 0];
    complete_selection(&mut full, 2, 9);
    assert_eq!(full, vec![1, 0]);
    let mut none = Vec::new();
    complete_selection(&mut none, 3, 3);
    assert_eq!(none, vec![0, 1, 2]);
}

#[test]
fn centroids_sit_on_the_chosen_pixels() {
    let image = gradient(4, 2);
    let centroids = centroids_at(&image, &vec![5, 0, 7]);
    assert_eq!(
        centroids,
        vec![
            Rgba { r: 5, g: 0, b: 7, a: 255 }.to_centroid(),
            Rgba { r: 0, g: 0, b: 7, a: 255 }.to_centroid(),
            Rgba { r: 7, g: 0, b: 7, a: 255 }.to_centroid(),
        ]
    );
}

#[test]
fn initial_centroids_use_the_default_seed() {
    assert_eq!(DEFAULT_SEED, 42);
    let image = gradient(16, 16);
    let positions = rejection_sample(42, 5, 256);
    assert_eq!(init_centroids(&image, 5), centroids_at(&image, &positions));
    assert!(init_centroids(&image, 0).is_empty());
}
