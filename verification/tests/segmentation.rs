use voxelens_core::image::RgbImage;
use voxelens_core::segmentation::Class::{Canopy, Ground, Other, Sky, Wood};
use voxelens_core::segmentation::{classify, segment, BBox, Class, Segmentation};

#[test]
fn classifies_sampled_fixture_colours() {
    assert_eq!(classify([133, 174, 249]), Class::Sky);
    assert_eq!(classify([85, 110, 53]), Class::Ground);
    assert_eq!(classify([50, 64, 17]), Class::Canopy);
    assert_eq!(classify([59, 47, 29]), Class::Wood);
}

#[test]
fn greys_and_other_colours_are_other() {
    assert_eq!(classify([0, 0, 0]), Class::Other);
    assert_eq!(classify([255, 255, 255]), Class::Other);
    assert_eq!(classify([128, 128, 128]), Class::Other);
    assert_eq!(classify([200, 100, 0]), Class::Other);
}

#[test]
fn bright_blue_is_sky_and_dark_green_is_canopy() {
    assert_eq!(classify([100, 200, 255]), Class::Sky);
    assert_eq!(classify([30, 60, 10]), Class::Canopy);
    assert_eq!(classify([60, 80, 40]), Class::Ground);
}

#[test]
fn hue_bounds_are_inclusive() {
    // Hue 15 degrees, which single precision keeps exact, dark: wood.
    assert_eq!(classify([4, 1, 0]), Class::Wood);
    assert_eq!(classify([8, 2, 0]), Class::Wood);
}

#[test]
fn boundary_hues_fall_where_single_precision_puts_them() {
    // Hue exactly 50 degrees in real arithmetic; the single-precision hue
    // comes out just above 50, so the colour is not wood.
    assert_eq!(classify([6, 5, 0]), Class::Other);
    assert_eq!(classify([7, 6, 1]), Class::Other);
    // Hue exactly 15 degrees in real arithmetic, rounded just below 15.
    assert_eq!(classify([8, 5, 4]), Class::Other);
    // Saturation exactly 0.58: equal to the rounded threshold, so not
    // canopy, but ground.
    assert_eq!(classify([40, 50, 21]), Class::Ground);
}

fn seg(width: u32, height: u32, labels: Vec<Class>) -> Segmentation {
    Segmentation {
        width,
        height,
        labels,
    }
}

#[test]
fn count_counts_each_class() {
    let s = seg(3, 2, vec![Sky, Wood, Sky, Other, Sky, Wood]);
    assert_eq!(s.count(Sky), 3);
    assert_eq!(s.count(Wood), 2);
    assert_eq!(s.count(Other), 1);
    assert_eq!(s.count(Canopy), 0);
}

#[test]
fn bbox_is_the_tightest_box() {
    // 4 wide, 3 tall.
    let s = seg(
        4,
        3,
        vec![
            Other, Other, Other, Other, //
            Other, Wood, Other, Wood, //
            Other, Other, Wood, Other,
        ],
    );
    assert_eq!(
        s.bbox(Wood),
        Some(BBox {
            x0: 1,
            y0: 1,
            x1: 3,
            y1: 2
        })
    );
    assert_eq!(s.bbox(Sky), None);
    assert_eq!(
        s.bbox(Other),
        Some(BBox {
            x0: 0,
            y0: 0,
            x1: 3,
            y1: 2
        })
    );
}

#[test]
fn bbox_of_a_single_pixel() {
    let s = seg(2, 2, vec![Other, Other, Canopy, Other]);
    assert_eq!(
        s.bbox(Canopy),
        Some(BBox {
            x0: 0,
            y0: 1,
            x1: 0,
            y1: 1
        })
    );
}

#[test]
fn segment_labels_every_pixel_row_major() {
    let data = vec![
        133, 174, 249, 85, 110, 53, //
        50, 64, 17, 59, 47, 29, //
        0, 0, 0, 133, 174, 249,
    ];
    let img = RgbImage::from_rgb(2, 3, data);
    let s = segment(&img);
    assert_eq!((s.width, s.height), (2, 3));
    assert_eq!(
        s.labels,
        vec![
            Class::Sky,
            Class::Ground,
            Class::Canopy,
            Class::Wood,
            Class::Other,
            Class::Sky
        ]
    );
    assert_eq!(s.labels.len(), (s.width * s.height) as usize);
}

#[test]
fn segment_of_an_empty_image() {
    let img = RgbImage::from_rgb(0, 5, vec![]);
    let s = segment(&img);
    assert!(s.labels.is_empty());
    assert_eq!(s.bbox(Class::Sky), None);
}
