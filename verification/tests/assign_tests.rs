use kmeans_quant::assign::{assign_pixels, assign_tile, nearest_centroid};
use kmeans_quant::color::{Centroid, Rgba};
use kmeans_quant::image::Image;

fn rgba(r: u8, g: u8, b: u8, a: u8) -> Rgba {
    Rgba { r, g, b, a }
}

#[test]
fn nearest_picks_minimum_distance() {
    let centroids = vec![
        rgba(0, 0, 0, 255).to_centroid(),
        rgba(255, 255, 255, 255).to_centroid(),
        rgba(255, 0, 0, 255).to_centroid(),
    ];
    assert_eq!(nearest_centroid(rgba(10, 10, 10, 255), &centroids), 0);
    assert_eq!(nearest_centroid(rgba(250, 240, 245, 255), &centroids), 1);
    assert_eq!(nearest_centroid(rgba(200, 30, 30, 255), &centroids), 2);
}

#[test]
fn nearest_breaks_ties_by_lowest_index() {
    let centroids = vec![
        rgba(20, 0, 0, 0).to_centroid(),
        rgba(0, 0, 0, 0).to_centroid(),
        rgba(20, 0, 0, 0).to_centroid(),
        rgba(0, 0, 0, 0).to_centroid(),
    ];
    assert_eq!(nearest_centroid(rgba(10, 0, 0, 0), &centroids), 0);
    assert_eq!(nearest_centroid(rgba(0, 0, 0, 0), &centroids), 1);
    assert_eq!(nearest_centroid(rgba(20, 0, 0, 0), &centroids), 0);
    assert_eq!(nearest_centroid(rgba(9, 0, 0, 0), &centroids), 1);
}

#[test]
fn nearest_counts_alpha() {
    let centroids = vec![rgba(5, 5, 5, 0).to_centroid(), rgba(5, 5, 5, 255).to_centroid()];
    assert_eq!(nearest_centroid(rgba(5, 5, 5, 200), &centroids), 1);
    assert_eq!(nearest_centroid(rgba(5, 5, 5, 100), &centroids), 0);
}

#[test]
fn nearest_sees_fractions_of_a_step() {
    let centroids = vec![
        Centroid { r: 10 * 65536 + 32769, g: 0, b: 0, a: 0 },
        Centroid { r: 9 * 65536 + 32768, g: 0, b: 0, a: 0 },
    ];
    assert_eq!(nearest_centroid(rgba(10, 0, 0, 0), &centroids), 1);
}

fn plaid(width: u32, height: u32) -> Image {
    let mut bytes = Vec::new();
    for y in 0..height {
        for x in 0..width {
            let v = (((x / 3) + (y / 5)) % 4 * 80) as u8;
            bytes.extend_from_slice(&[v, (x % 7 * 30) as u8, (y % 11 * 20) as u8, 255]);
        }
    }
    Image::new((width, height), bytes)
}

fn palette() -> Vec<Centroid> {
    vec![
        rgba(0, 90, 100, 255).to_centroid(),
        rgba(80, 90, 100, 255).to_centroid(),
        rgba(160, 90, 100, 255).to_centroid(),
        rgba(240, 90, 100, 255).to_centroid(),
    ]
}

fn expected(image: &Image, centroids: &Vec<Centroid>) -> Vec<u32> {
    image
        .raw_pixels()
        .chunks(4)
        .map(|p| nearest_centroid(rgba(p[0], p[1], p[2], p[3]), centroids))
        .collect()
}

#[test]
fn assignment_covers_every_pixel() {
    let image = Image::new(
        (3, 2),
        vec![
            255, 0, 0, 255, 0, 0, 255, 255, 250, 5, 0, 255, //
            0, 10, 240, 255, 128, 0, 127, 255, 127, 0, 128, 255,
        ],
    );
    let centroids = vec![rgba(255, 0, 0, 255).to_centroid(), rgba(0, 0, 255, 255).to_centroid()];
    let mut buffer = vec![2; 6];
    assign_pixels(&image, &centroids, &mut buffer);
    assert_eq!(buffer, vec![0, 1, 0, 1, 0, 1]);
}

#[test]
fn assignment_overwrites_the_whole_buffer() {
    for &(width, height) in &[(1u32, 1u32), (16, 16), (17, 15), (33, 47), (5, 100), (64, 1)] {
        let image = plaid(width, height);
        let centroids = palette();
        let mut buffer = vec![4; (width * height) as usize];
        assign_pixels(&image, &centroids, &mut buffer);
        assert_eq!(buffer, expected(&image, &centroids));
    }
}

#[test]
fn tile_touches_only_its_pixels() {
    let (width, height) = (40u32, 20u32);
    let image = plaid(width, height);
    let centroids = palette();
    let all = expected(&image, &centroids);
    for &(tile_x, tile_y) in &[(0u32, 0u32), (1, 0), (2, 0), (0, 1), (2, 1)] {
        let mut buffer = vec![9; (width * height) as usize];
        assign_tile(&image, &centroids, &mut buffer, tile_x, tile_y);
        for y in 0..height {
            for x in 0..width {
                let i = (y * width + x) as usize;
                if x / 16 == tile_x && y / 16 == tile_y {
                    assert_eq!(buffer[i], all[i]);
                } else {
                    assert_eq!(buffer[i], 9);
                }
            }
        }
    }
}

#[test]
fn tile_beyond_the_image_touches_nothing() {
    let image = plaid(20, 20);
    let centroids = palette();
    let mut buffer = vec![9; 400];
    assign_tile(&image, &centroids, &mut buffer, 2, 0);
    assign_tile(&image, &centroids, &mut buffer, 0, 2);
    assign_tile(&image, &centroids, &mut buffer, u32::MAX, u32::MAX);
    assert_eq!(buffer, vec![9; 400]);
}

#[test]
fn assignment_of_empty_image_is_empty() {
    let image = Image::new((0, 7), vec![]);
    let centroids = vec![rgba(1, 2, 3, 4).to_centroid()];
    let mut buffer = Vec::new();
    assign_pixels(&image, &centroids, &mut buffer);
    assert!(buffer.is_empty());
}
