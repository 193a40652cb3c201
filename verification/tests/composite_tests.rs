use kmeans_quant::color::{Centroid, Rgba};
use kmeans_quant::composite::composite;

#[test]
fn pixels_take_their_centroid_colour() {
    let centroids = vec![
        Rgba { r: 1, g: 2, b: 3, a: 4 }.to_centroid(),
        Centroid { r: 10 * 65536 + 32768, g: 32767, b: 255 * 65536, a: 128 * 65536 + 1 },
    ];
    let image = composite((3, 1), &vec![1, 0, 1], &centroids);
    assert_eq!(image.dimensions(), (3, 1));
    assert_eq!(image.raw_pixels(), &[11, 0, 255, 128, 1, 2, 3, 4, 11, 0, 255, 128]);
}

#[test]
fn empty_assignment_gives_empty_image() {
    let image = composite((0, 3), &Vec::new(), &Vec::new());
    assert_eq!(image.dimensions(), (0, 3));
    assert!(image.raw_pixels().is_empty());
}
