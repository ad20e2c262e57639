use voxelens_core::image::RgbImage;

#[test]
fn pixel_access() {
    let img = RgbImage::from_rgb(2, 1, vec![10, 20, 30, 40, 50, 60]);
    assert_eq!(img.pixel(0, 0), [10, 20, 30]);
    assert_eq!(img.pixel(1, 0), [40, 50, 60]);
}

#[test]
fn pixels_are_row_major() {
    let data: Vec<u8> = (0..18).collect();
    let img = RgbImage::from_rgb(3, 2, data);
    assert_eq!((img.width(), img.height()), (3, 2));
    assert_eq!(img.pixel(2, 0), [6, 7, 8]);
    assert_eq!(img.pixel(0, 1), [9, 10, 11]);
    assert_eq!(img.pixel(2, 1), [15, 16, 17]);
}
