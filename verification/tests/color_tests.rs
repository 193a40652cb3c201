use kmeans_quant::color::{pixel_of, Centroid, Rgba, CHANNEL_MAX, SCALE};
use kmeans_quant::image::Image;

#[test]
fn pixel_becomes_centroid_exactly() {
    let p = Rgba { r: 255, g: 0, b: 1, a: 128 };
    let c = p.to_centroid();
    assert_eq!(c, Centroid { r: CHANNEL_MAX, g: 0, b: SCALE, a: 128 * SCALE });
    assert_eq!(c.to_pixel(), p);
}

#[test]
fn centroid_rounds_to_nearest_byte() {
    let c = Centroid {
        r: 127 * SCALE + 32767,
        g: 127 * SCALE + 32768,
        b: 254 * SCALE + 65535,
        a: 0,
    };
    assert_eq!(c.to_pixel(), Rgba { r: 127, g: 128, b: 255, a: 0 });
}

#[test]
fn distance_is_sum_of_squared_gaps() {
    let c = Centroid { r: 10 * SCALE, g: 20 * SCALE + 1, b: 0, a: CHANNEL_MAX };
    let p = Rgba { r: 12, g: 20, b: 0, a: 255 };
    let two: u64 = 2 * 65536;
    assert_eq!(c.distance_squared(p), two * two + 1);
    assert_eq!(c.distance_squared(Rgba { r: 10, g: 20, b: 0, a: 255 }), 1);
}

#[test]
fn distance_between_opposite_corners() {
    let white = Rgba { r: 255, g: 255, b: 255, a: 255 };
    let black = Rgba { r: 0, g: 0, b: 0, a: 0 }.to_centroid();
    let side: u64 = 255 * 65536;
    assert_eq!(black.distance_squared(white), 4 * side * side);
}

#[test]
fn displacement_is_symmetric() {
    let a = Centroid { r: 5, g: 100, b: 0, a: 7 };
    let b = Centroid { r: 2, g: 104, b: 0, a: 7 };
    assert_eq!(a.displacement_squared(&b), 25);
    assert_eq!(b.displacement_squared(&a), 25);
    assert_eq!(a.displacement_squared(&a), 0);
}

#[test]
fn pixel_of_counts_row_by_row() {
    let bytes: Vec<u8> = (0u8..24).collect();
    let image = Image::new((2, 3), bytes);
    assert_eq!(pixel_of(&image, 0), Rgba { r: 0, g: 1, b: 2, a: 3 });
    assert_eq!(pixel_of(&image, 3), Rgba { r: 12, g: 13, b: 14, a: 15 });
    assert_eq!(pixel_of(&image, 5), Rgba { r: 20, g: 21, b: 22, a: 23 });
}
