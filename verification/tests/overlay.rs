use voxelens_core::overlay::{class_color, rgba_to_rgb, segment_rgba};
use voxelens_core::segmentation::Class;

#[test]
fn class_colors() {
    assert_eq!(class_color(Class::Sky), [120, 170, 255]);
    assert_eq!(class_color(Class::Ground), [70, 150, 60]);
    assert_eq!(class_color(Class::Wood), [130, 80, 40]);
    assert_eq!(class_color(Class::Canopy), [30, 90, 25]);
    assert_eq!(class_color(Class::Other), [255, 0, 255]);
}

#[test]
fn rgba_to_rgb_drops_alpha_and_partial_pixels() {
    assert_eq!(
        rgba_to_rgb(&[1, 2, 3, 4, 5, 6, 7, 8, 9, 10]),
        vec![1, 2, 3, 5, 6, 7]
    );
    assert!(rgba_to_rgb(&[]).is_empty());
}

#[test]
fn segment_rgba_paints_each_pixel() {
    let rgba = [133, 174, 249, 0, 59, 47, 29, 17];
    assert_eq!(
        segment_rgba(&rgba, 2, 1),
        vec![120, 170, 255, 255, 130, 80, 40, 255]
    );
}
