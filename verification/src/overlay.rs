//! Colour overlays of a segmentation, for display, and the RGBA input that
//! browser canvases hand over.
use vstd::prelude::*;

use crate::image::RgbImage;
use crate::segmentation::{class_of, segment, Class};

verus! {

/// The display colour of each class.
pub open spec fn color_of(class: Class) -> Seq<u8> {
    match class {
        Class::Sky => seq![120u8, 170u8, 255u8],
        Class::Ground => seq![70u8, 150u8, 60u8],
        Class::Wood => seq![130u8, 80u8, 40u8],
        Class::Canopy => seq![30u8, 90u8, 25u8],
        Class::Other => seq![255u8, 0u8, 255u8],
    }
}

/// The display colour of a class.
pub fn class_color(class: Class) -> (c: [u8; 3])
    ensures
        c@ == color_of(class),
{
    let c = match class {
        Class::Sky => [120, 170, 255],
        Class::Ground => [70, 150, 60],
        Class::Wood => [130, 80, 40],
        Class::Canopy => [30, 90, 25],
        Class::Other => [255, 0, 255],
    };
    assert(c@ =~= color_of(class));
    c
}

/// Drops the alpha byte of every complete 4-byte pixel (a trailing partial
/// pixel is ignored).
pub fn rgba_to_rgb(rgba: &[u8]) -> (rgb: Vec<u8>)
    ensures
        rgb@.len() == 3 * (rgba@.len() / 4),
        forall|k: int, c: int|
            0 <= k < rgba@.len() / 4 && 0 <= c < 3 ==> #[trigger] rgb@[3 * k + c] == rgba@[4 * k
                + c],
{
    let len = rgba.len();
    let n = len / 4;
    let mut rgb: Vec<u8> = Vec::new();
    let mut k: usize = 0;
    while k < n
        invariant
            n == rgba@.len() / 4,
            len == rgba@.len(),
            k <= n,
            rgb@.len() == 3 * k,
            forall|kk: int, c: int|
                0 <= kk < k && 0 <= c < 3 ==> #[trigger] rgb@[3 * kk + c] == rgba@[4 * kk + c],
        decreases n - k,
    {
        let ghost before = rgb@;
        assert(4 * k + 3 < len);
        rgb.push(rgba[4 * k]);
        rgb.push(rgba[4 * k + 1]);
        rgb.push(rgba[4 * k + 2]);
        assert forall|kk: int, c: int| 0 <= kk < k + 1 && 0 <= c < 3 implies #[trigger] rgb@[3
            * kk + c] == rgba@[4 * kk + c] by {
            if kk < k {
                assert(rgb@[3 * kk + c] == before[3 * kk + c]);
            }
        }
        k = k + 1;
    }
    rgb
}

/// Segment an RGBA image into scene classes; returns an RGBA overlay: each
/// pixel's class colour, fully opaque.
pub fn segment_rgba(rgba: &[u8], width: u32, height: u32) -> (out: Vec<u8>)
    requires
        rgba@.len() / 4 == width * height,
        width * height <= u32::MAX,
    ensures
        out@.len() == 4 * width * height,
        forall|i: int, c: int|
            0 <= i < width * height && 0 <= c < 3 ==> #[trigger] out@[4 * i + c] == color_of(
                class_of(rgba@.subrange(4 * i, 4 * i + 3)),
            )[c],
        forall|i: int| 0 <= i < width * height ==> #[trigger] out@[4 * i + 3] == 255,
{
    let rgb = rgba_to_rgb(rgba);
    assert(3 * (width * height) == 3 * width * height) by (nonlinear_arith);
    let img = RgbImage::from_rgb(width, height, rgb);
    let seg = segment(&img);
    let n = seg.labels.len();
    let mut out: Vec<u8> = Vec::new();
    let mut i: usize = 0;
    while i < n
        invariant
            n == seg.labels@.len(),
            n == width * height,
            rgba@.len() / 4 == width * height,
            seg.width == width,
            seg.height == height,
            img.dims() == (width as nat, height as nat),
            img.bytes() == rgb@,
            rgb@.len() == 3 * (rgba@.len() / 4),
            forall|k: int, c: int|
                0 <= k < rgba@.len() / 4 && 0 <= c < 3 ==> #[trigger] rgb@[3 * k + c] == rgba@[4
                    * k + c],
            forall|x: int, y: int|
                0 <= x < width && 0 <= y < height ==> #[trigger] seg.labels@[y * width + x]
                    == class_of(img.pixel_at(x, y)),
            i <= n,
            out@.len() == 4 * i,
            forall|k: int, c: int|
                0 <= k < i && 0 <= c < 3 ==> #[trigger] out@[4 * k + c] == color_of(
                    class_of(rgba@.subrange(4 * k, 4 * k + 3)),
                )[c],
            forall|k: int| 0 <= k < i ==> #[trigger] out@[4 * k + 3] == 255,
        decreases n - i,
    {
        let class = seg.labels[i];
        proof {
            let x = i as int % width as int;
            let y = i as int / width as int;
            assert(i == y * width + x) by (nonlinear_arith)
                requires
                    width > 0,
                    x == i as int % width as int,
                    y == i as int / width as int,
            ;
            assert(0 <= y < height) by (nonlinear_arith)
                requires
                    width > 0,
                    0 <= i < width * height,
                    y == i as int / width as int,
            ;
            assert(class == class_of(img.pixel_at(x, y)));
            assert(img.pixel_at(x, y) =~= rgba@.subrange(4 * i, 4 * i + 3)) by {
                assert(3 * (y * width + x) == 3 * i);
                assert(rgb@[3 * i + 0] == rgba@[4 * i + 0]);
                assert(rgb@[3 * i + 1] == rgba@[4 * i + 1]);
                assert(rgb@[3 * i + 2] == rgba@[4 * i + 2]);
            }
        }
        let color = class_color(class);
        let ghost before = out@;
        out.push(color[0]);
        out.push(color[1]);
        out.push(color[2]);
        out.push(255);
        assert forall|k: int, c: int| 0 <= k < i + 1 && 0 <= c < 3 implies #[trigger] out@[4 * k
            + c] == color_of(class_of(rgba@.subrange(4 * k, 4 * k + 3)))[c] by {
            if k < i {
                assert(out@[4 * k + c] == before[4 * k + c]);
            }
        }
        assert forall|k: int| 0 <= k < i + 1 implies #[trigger] out@[4 * k + 3] == 255 by {
            if k < i {
                assert(out@[4 * k + 3] == before[4 * k + 3]);
            }
        }
        i = i + 1;
    }
    assert(4 * (width * height) == 4 * width * height) by (nonlinear_arith);
    out
}

} // verus!
