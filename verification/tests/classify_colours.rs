//! Every 8-bit colour against the classifier written in single-precision
//! floating point, as the thresholds are documented.

use voxelens_core::segmentation::{classify, Class};

fn rgb_to_hsv(rgb: [u8; 3]) -> (f32, f32, f32) {
    let r = rgb[0] as f32 / 255.0;
    let g = rgb[1] as f32 / 255.0;
    let b = rgb[2] as f32 / 255.0;
    let max = r.max(g).max(b);
    let min = r.min(g).min(b);
    let delta = max - min;
    let hue = if delta == 0.0 {
        0.0
    } else if max == r {
        60.0 * (((g - b) / delta).rem_euclid(6.0))
    } else if max == g {
        60.0 * ((b - r) / delta + 2.0)
    } else {
        60.0 * ((r - g) / delta + 4.0)
    };
    let saturation = if max == 0.0 { 0.0 } else { delta / max };
    (hue, saturation, max)
}

fn float_class(rgb: [u8; 3]) -> Class {
    let (h, s, v) = rgb_to_hsv(rgb);
    if v > 0.70 && (195.0..=250.0).contains(&h) {
        Class::Sky
    } else if (15.0..=50.0).contains(&h) && v < 0.40 {
        Class::Wood
    } else if (60.0..=110.0).contains(&h) && v < 0.35 && s > 0.58 {
        Class::Canopy
    } else if (60.0..=115.0).contains(&h) && s > 0.30 {
        Class::Ground
    } else {
        Class::Other
    }
}

/// All colours whose red channel lies in `reds`.
fn check_reds(reds: std::ops::Range<u32>) {
    for r in reds {
        for g in 0..256u32 {
            for b in 0..256u32 {
                let rgb = [r as u8, g as u8, b as u8];
                assert_eq!(classify(rgb), float_class(rgb), "colour {:?}", rgb);
            }
        }
    }
}

#[test]
fn every_colour_matches_single_precision_reds_0_to_15() {
    check_reds(0..16);
}

#[test]
fn every_colour_matches_single_precision_reds_16_to_31() {
    check_reds(16..32);
}

#[test]
fn every_colour_matches_single_precision_reds_32_to_47() {
    check_reds(32..48);
}

#[test]
fn every_colour_matches_single_precision_reds_48_to_63() {
    check_reds(48..64);
}

#[test]
fn every_colour_matches_single_precision_reds_64_to_79() {
    check_reds(64..80);
}

#[test]
fn every_colour_matches_single_precision_reds_80_to_95() {
    check_reds(80..96);
}

#[test]
fn every_colour_matches_single_precision_reds_96_to_111() {
    check_reds(96..112);
}

#[test]
fn every_colour_matches_single_precision_reds_112_to_127() {
    check_reds(112..128);
}

#[test]
fn every_colour_matches_single_precision_reds_128_to_143() {
    check_reds(128..144);
}

#[test]
fn every_colour_matches_single_precision_reds_144_to_159() {
    check_reds(144..160);
}

#[test]
fn every_colour_matches_single_precision_reds_160_to_175() {
    check_reds(160..176);
}

#[test]
fn every_colour_matches_single_precision_reds_176_to_191() {
    check_reds(176..192);
}

#[test]
fn every_colour_matches_single_precision_reds_192_to_207() {
    check_reds(192..208);
}

#[test]
fn every_colour_matches_single_precision_reds_208_to_223() {
    check_reds(208..224);
}

#[test]
fn every_colour_matches_single_precision_reds_224_to_239() {
    check_reds(224..240);
}

#[test]
fn every_colour_matches_single_precision_reds_240_to_255() {
    check_reds(240..256);
}
