use kmeans_quant::image::Image;

#[test]
fn new_keeps_dimensions_and_bytes() {
    let bytes: Vec<u8> = (0u8..24).collect();
    let image = Image::new((3, 2), bytes.clone());
    assert_eq!(image.dimensions(), (3, 2));
    assert_eq!(image.raw_pixels(), &bytes[..]);
}

#[test]
fn get_pixel_reads_row_by_row() {
    let bytes: Vec<u8> = (0u8..24).collect();
    let image = Image::new((3, 2), bytes);
    assert_eq!(image.get_pixel(0, 0), &[0, 1, 2, 3]);
    assert_eq!(image.get_pixel(2, 0), &[8, 9, 10, 11]);
    assert_eq!(image.get_pixel(0, 1), &[12, 13, 14, 15]);
    assert_eq!(image.get_pixel(2, 1), &[20, 21, 22, 23]);
}
