//! Per-pixel scene segmentation by colour.
//!
//! HSV thresholds calibrated on the wool-tree fixture (sampled colours):
//! sky `(219°, 0.46, 0.98)`, grass `(87°, 0.52, 0.43)`, green-wool
//! `(~79°, 0.72, 0.25)`, oak-log `(35°, 0.51, 0.23)`. Grass and the green wool
//! sit at nearly the same hue, so they separate on **value + saturation**: the
//! wool is markedly darker and more saturated than the grass.
//!
//! Hue, saturation and value are computed, and the thresholds compared, as
//! single-precision arithmetic gives them, rounding after every operation
//! (see [`crate::single`]), so a colour on a threshold falls on the side that
//! the rounded value does.
//!
//! Limitation: dark, saturated grass near the far horizon can still be mistaken
//! for canopy; cleaning that up needs connected-component / spatial reasoning
//! (a later step), not colour alone.
use vstd::prelude::*;

use crate::image::RgbImage;
use crate::single::{
    exact_binary32, lemma_round_near, lemma_two_to_values, round_signed, round_single,
    round_single_signed, ONE,
};

verus! {

/// Scene class for a pixel.
#[derive(Debug, Clone, Copy, PartialEq, Eq, Structural)]
pub enum Class {
    Sky,
    Ground,
    /// Tree trunk (oak log).
    Wood,
    /// Canopy (green wool, in this fixture).
    Canopy,
    Other,
}

/// A byte channel as the single-precision fraction `c / 255`, in grid steps.
pub open spec fn channel(c: int) -> int {
    round_single_signed(c * ONE, 255)
}

/// Single-precision `a - b`.
pub open spec fn sub_single(a: int, b: int) -> int {
    round_single_signed(a - b, 1)
}

/// Single-precision `a + b`.
pub open spec fn add_single(a: int, b: int) -> int {
    round_single_signed(a + b, 1)
}

/// Single-precision `a / b` (`b > 0`).
pub open spec fn div_single(a: int, b: int) -> int {
    round_single_signed(a * ONE, b)
}

/// Single-precision `60 * a`.
pub open spec fn times_60(a: int) -> int {
    round_single_signed(60 * a, 1)
}

/// `a.rem_euclid(6.0)` in single precision: the remainder of `a % 6.0`
/// (exact, with the sign of `a`), lifted by 6 when negative.
pub open spec fn rem_euclid_6(a: int) -> int {
    let m = 6 * ONE;
    let r = if a >= 0 {
        a % m
    } else {
        -((-a) % m)
    };
    if r < 0 {
        add_single(r, m)
    } else {
        r
    }
}

/// The larger of two numbers.
pub open spec fn max_single(a: int, b: int) -> int {
    if a >= b {
        a
    } else {
        b
    }
}

/// The smaller of two numbers.
pub open spec fn min_single(a: int, b: int) -> int {
    if a <= b {
        a
    } else {
        b
    }
}

/// Hue (degrees), saturation and value of an RGB triple, in grid steps, as
/// they come out of single-precision arithmetic: each channel is `c / 255`;
/// value is the largest channel, saturation `(max - min) / max` (0 for
/// black); the hue is measured from red when red is largest (ties go to red,
/// then green), from green (120°) when green is, from blue (240°) otherwise,
/// and is 0 for a grey.
pub open spec fn hsv_single(rgb: Seq<u8>) -> (int, int, int) {
    let r = channel(rgb[0] as int);
    let g = channel(rgb[1] as int);
    let b = channel(rgb[2] as int);
    let mx = max_single(max_single(r, g), b);
    let mn = min_single(min_single(r, g), b);
    let delta = sub_single(mx, mn);
    let hue = if delta == 0 {
        0
    } else if mx == r {
        times_60(rem_euclid_6(div_single(sub_single(g, b), delta)))
    } else if mx == g {
        times_60(add_single(div_single(sub_single(b, r), delta), 2 * ONE))
    } else {
        times_60(add_single(div_single(sub_single(r, g), delta), 4 * ONE))
    };
    let sat = if mx == 0 {
        0
    } else {
        div_single(delta, mx)
    };
    (hue, sat, mx)
}

/// The single-precision number written as the decimal `p / q`.
pub open spec fn literal(p: int, q: int) -> int {
    round_single_signed(p * ONE, q)
}

/// The class of an RGB triple, the thresholds compared in single precision:
/// sky if `V > 0.70` and `195 <= H <= 250`; else wood if `15 <= H <= 50` and
/// `V < 0.40`; else canopy if `60 <= H <= 110`, `V < 0.35` and `S > 0.58`;
/// else ground if `60 <= H <= 115` and `S > 0.30`; else other.
pub open spec fn class_of(rgb: Seq<u8>) -> Class {
    let (h, s, v) = hsv_single(rgb);
    if v > literal(70, 100) && 195 * ONE <= h <= 250 * ONE {
        Class::Sky
    } else if 15 * ONE <= h <= 50 * ONE && v < literal(40, 100) {
        Class::Wood
    } else if 60 * ONE <= h <= 110 * ONE && v < literal(35, 100) && s > literal(58, 100) {
        Class::Canopy
    } else if 60 * ONE <= h <= 115 * ONE && s > literal(30, 100) {
        Class::Ground
    } else {
        Class::Other
    }
}

/// Whether every rounding that `hsv_single` and `class_of` perform on
/// `rgb` is of a value that is zero or at least 2^-9 in magnitude, so that
/// each is exactly a binary32 rounding.
pub open spec fn hsv_rounds_in_binary32(rgb: Seq<u8>) -> bool {
    let (cr, cg, cb) = (rgb[0] as int, rgb[1] as int, rgb[2] as int);
    let r = channel(cr);
    let g = channel(cg);
    let b = channel(cb);
    let mx = max_single(max_single(r, g), b);
    let mn = min_single(min_single(r, g), b);
    let delta = sub_single(mx, mn);
    &&& exact_binary32(cr * ONE, 255)
    &&& exact_binary32(cg * ONE, 255)
    &&& exact_binary32(cb * ONE, 255)
    &&& exact_binary32(mx - mn, 1)
    &&& (delta != 0 && mx == r) ==> {
        let x = sub_single(g, b);
        let y = div_single(x, delta);
        &&& exact_binary32(g - b, 1)
        &&& exact_binary32(x * ONE, delta)
        &&& (y < 0 ==> exact_binary32(y + 6 * ONE, 1))
        &&& exact_binary32(60 * rem_euclid_6(y), 1)
    }
    &&& (delta != 0 && mx != r && mx == g) ==> {
        let x = sub_single(b, r);
        let y = div_single(x, delta);
        &&& exact_binary32(b - r, 1)
        &&& exact_binary32(x * ONE, delta)
        &&& exact_binary32(y + 2 * ONE, 1)
        &&& exact_binary32(60 * add_single(y, 2 * ONE), 1)
    }
    &&& (delta != 0 && mx != r && mx != g) ==> {
        let x = sub_single(r, g);
        let y = div_single(x, delta);
        &&& exact_binary32(r - g, 1)
        &&& exact_binary32(x * ONE, delta)
        &&& exact_binary32(y + 4 * ONE, 1)
        &&& exact_binary32(60 * add_single(y, 4 * ONE), 1)
    }
    &&& mx != 0 ==> exact_binary32(delta * ONE, mx)
    &&& exact_binary32(70 * ONE, 100)
    &&& exact_binary32(40 * ONE, 100)
    &&& exact_binary32(35 * ONE, 100)
    &&& exact_binary32(58 * ONE, 100)
    &&& exact_binary32(30 * ONE, 100)
}

proof fn lemma_channel(c: int)
    requires
        0 <= c <= 255,
    ensures
        exact_binary32(c * ONE, 255),
        0 <= channel(c),
        255 * channel(c) <= c * ONE + 65280,
        255 * channel(c) >= c * ONE - 65280,
{
    lemma_two_to_values();
    assert(c * ONE < 0x2_0000_0000 * 255);
    lemma_round_near(c * ONE, 255, 9);
    assert(((9 + 24) as nat) == 33nat);
    assert(channel(c) == round_single(c * ONE, 255));
}

proof fn lemma_channel_gap(c1: int, c2: int)
    requires
        0 <= c2 < c1 <= 255,
    ensures
        channel(c1) - channel(c2) >= 0x100_0000,
{
    lemma_channel(c1);
    lemma_channel(c2);
}

/// Rounding a channel difference.
proof fn lemma_difference(a: int)
    requires
        a == 0 || (0x100_0000 <= a <= ONE + 512) || (0x100_0000 <= -a <= ONE + 512),
    ensures
        exact_binary32(a, 1),
        a == 0 ==> round_single_signed(a, 1) == 0,
        a > 0 ==> 0x100_0000 <= round_single_signed(a, 1) && a - 256 <= round_single_signed(a, 1)
            <= a + 256,
        a < 0 ==> round_single_signed(a, 1) <= -0x100_0000 && a - 256 <= round_single_signed(a, 1)
            <= a + 256,
{
    lemma_two_to_values();
    assert(((9 + 24) as nat) == 33nat);
    if a >= 0 {
        lemma_round_near(a, 1, 9);
    } else {
        lemma_round_near(-a, 1, 9);
    }
}

/// Rounding a difference over the chroma.
proof fn lemma_quotient(x: int, delta: int)
    requires
        0x100_0000 <= delta <= ONE + 512,
        x == 0 || (0x100_0000 <= x <= delta + 512) || (0x100_0000 <= -x <= delta + 512),
    ensures
        exact_binary32(x * ONE, delta),
        x == 0 ==> round_single_signed(x * ONE, delta) == 0,
        x > 0 ==> 0x80_0000 <= round_single_signed(x * ONE, delta) <= ONE + 0x4_0000,
        x < 0 ==> -(ONE + 0x4_0000) <= round_single_signed(x * ONE, delta) <= -0x80_0000,
{
    lemma_two_to_values();
    assert(((10 + 24) as nat) == 34nat);
    let ax = if x >= 0 {
        x
    } else {
        -x
    };
    let n = ax * ONE;
    assert(n < 0x4_0000_0000 * delta) by (nonlinear_arith)
        requires
            n == ax * 0x1_0000_0000,
            ax <= delta + 512,
            delta >= 0x100_0000,
    ;
    lemma_round_near(n, delta, 10);
    let y = round_single(n, delta);
    if ax > 0 {
        assert(n >= 0x80_0000 * delta) by (nonlinear_arith)
            requires
                n == ax * 0x1_0000_0000,
                ax >= 0x100_0000,
                delta <= 0x1_0000_0000 + 512,
        ;
        assert(y * delta <= (0x1_0000_0000 + 0x4_0000) * delta) by (nonlinear_arith)
            requires
                2 * (y * delta - n) <= delta * 0x400,
                n == ax * 0x1_0000_0000,
                ax <= delta + 512,
                delta >= 0x100_0000,
        ;
        assert(y <= 0x1_0000_0000 + 0x4_0000) by (nonlinear_arith)
            requires
                y * delta <= (0x1_0000_0000 + 0x4_0000) * delta,
                delta > 0,
        ;
    }
}

/// Rounding a positive sum.
proof fn lemma_positive_sum(w: int)
    requires
        0x80_0000 <= w <= 7 * ONE,
    ensures
        exact_binary32(w, 1),
        round_single_signed(w, 1) >= 0x80_0000,
{
    lemma_two_to_values();
    assert(((11 + 24) as nat) == 35nat);
    lemma_round_near(w, 1, 11);
}

/// Law: every rounding in the colour classifier is of a value that is zero
/// or at least 2^-9 in magnitude, so `class_of` is exactly the
/// single-precision classifier on every colour.
pub proof fn lemma_hsv_rounds_in_binary32(rgb: Seq<u8>)
    requires
        rgb.len() == 3,
    ensures
        hsv_rounds_in_binary32(rgb),
{
    lemma_two_to_values();
    let (cr, cg, cb) = (rgb[0] as int, rgb[1] as int, rgb[2] as int);
    lemma_channel(cr);
    lemma_channel(cg);
    lemma_channel(cb);
    let r = channel(cr);
    let g = channel(cg);
    let b = channel(cb);
    // distinct channels are at least 2^24 steps apart
    assert forall|p: int, q: int|
        (p == cr || p == cg || p == cb) && (q == cr || q == cg || q == cb) && q < p implies channel(
        p,
    ) - channel(q) >= 0x100_0000 by {
        lemma_channel_gap(p, q);
    }
    if cr < cg {
        assert(g - r >= 0x100_0000);
    } else if cg < cr {
        assert(r - g >= 0x100_0000);
    }
    if cr < cb {
        assert(b - r >= 0x100_0000);
    } else if cb < cr {
        assert(r - b >= 0x100_0000);
    }
    if cg < cb {
        assert(b - g >= 0x100_0000);
    } else if cb < cg {
        assert(g - b >= 0x100_0000);
    }
    assert(r <= ONE + 256 && g <= ONE + 256 && b <= ONE + 256);
    let mx = max_single(max_single(r, g), b);
    let mn = min_single(min_single(r, g), b);
    lemma_difference(mx - mn);
    let delta = sub_single(mx, mn);
    lemma_difference(g - b);
    lemma_difference(b - r);
    lemma_difference(r - g);
    if delta != 0 {
        assert(mx - mn != 0);
        assert(0x100_0000 <= delta <= ONE + 512);
        if mx == r {
            let x = sub_single(g, b);
            lemma_quotient(x, delta);
            let y = div_single(x, delta);
            let m = 6 * ONE;
            if y < 0 {
                assert((-y) % m == -y) by (nonlinear_arith)
                    requires
                        0 < -y < m,
                ;
                lemma_positive_sum(y + m);
                assert(rem_euclid_6(y) == add_single(y, m));
            } else {
                assert(y % m == y) by (nonlinear_arith)
                    requires
                        0 <= y < m,
                ;
            }
        } else if mx == g {
            let x = sub_single(b, r);
            lemma_quotient(x, delta);
            let y = div_single(x, delta);
            lemma_positive_sum(y + 2 * ONE);
        } else {
            let x = sub_single(r, g);
            lemma_quotient(x, delta);
            let y = div_single(x, delta);
            lemma_positive_sum(y + 4 * ONE);
        }
    }
}

/// `a.rem_euclid(6.0)` in grid steps.
fn rem_euclid_six(a: i128) -> (r: i128)
    requires
        -0x10_0000_0000_0000_0000_0000 <= a <= 0x10_0000_0000_0000_0000_0000,
    ensures
        r == rem_euclid_6(a as int),
        0 <= r <= 0x100_0000_0000,
{
    let m: i128 = 6 * ONE;
    let t: i128 = if a >= 0 {
        ((a as u128) % (m as u128)) as i128
    } else {
        -((((-a) as u128) % (m as u128)) as i128)
    };
    if t < 0 {
        round_signed(t + m, 1)
    } else {
        t
    }
}

/// Hue, saturation and value of a pixel, in grid steps.
fn hsv(rgb: [u8; 3]) -> (t: (i128, i128, i128))
    ensures
        (t.0 as int, t.1 as int, t.2 as int) == hsv_single(rgb@),
{
    let r = round_signed(rgb[0] as i128 * ONE, 255);
    let g = round_signed(rgb[1] as i128 * ONE, 255);
    let b = round_signed(rgb[2] as i128 * ONE, 255);
    let rg = if r >= g { r } else { g };
    let mx = if rg >= b { rg } else { b };
    let rg_min = if r <= g { r } else { g };
    let mn = if rg_min <= b { rg_min } else { b };
    let delta = round_signed(mx - mn, 1);
    let hue = if delta == 0 {
        0
    } else if mx == r {
        let x = round_signed(g - b, 1);
        let y = round_signed(x * ONE, delta as u128);
        round_signed(60 * rem_euclid_six(y), 1)
    } else if mx == g {
        let x = round_signed(b - r, 1);
        let y = round_signed(x * ONE, delta as u128);
        round_signed(60 * round_signed(y + 2 * ONE, 1), 1)
    } else {
        let x = round_signed(r - g, 1);
        let y = round_signed(x * ONE, delta as u128);
        round_signed(60 * round_signed(y + 4 * ONE, 1), 1)
    };
    let sat = if mx == 0 {
        0
    } else {
        round_signed(delta * ONE, mx as u128)
    };
    (hue, sat, mx)
}

/// Classify a single RGB pixel.
pub fn classify(rgb: [u8; 3]) -> (c: Class)
    ensures
        c == class_of(rgb@),
{
    let (h, s, v) = hsv(rgb);
    if v > round_signed(70 * ONE, 100) && 195 * ONE <= h && h <= 250 * ONE {
        Class::Sky
    } else if 15 * ONE <= h && h <= 50 * ONE && v < round_signed(40 * ONE, 100) {
        Class::Wood
    } else if 60 * ONE <= h && h <= 110 * ONE && v < round_signed(35 * ONE, 100) && s
        > round_signed(58 * ONE, 100) {
        Class::Canopy
    } else if 60 * ONE <= h && h <= 115 * ONE && s > round_signed(30 * ONE, 100) {
        Class::Ground
    } else {
        Class::Other
    }
}

/// An inclusive axis-aligned pixel bounding box.
#[derive(Debug, Clone, Copy, PartialEq, Eq, Structural)]
pub struct BBox {
    pub x0: u32,
    pub y0: u32,
    pub x1: u32,
    pub y1: u32,
}

/// A per-pixel label map (`width * height`, row-major).
pub struct Segmentation {
    pub width: u32,
    pub height: u32,
    pub labels: Vec<Class>,
}

/// How many times `c` occurs in `labels`.
pub open spec fn occurrences(labels: Seq<Class>, c: Class) -> nat
    decreases labels.len(),
{
    if labels.len() == 0 {
        0
    } else {
        occurrences(labels.drop_last(), c) + if labels.last() == c {
            1nat
        } else {
            0nat
        }
    }
}

/// Law: the number of occurrences of `c` is the number of labels equal to
/// `c`, the length of the subsequence of such labels; in particular a map
/// labelled `c` throughout counts its length.
pub proof fn lemma_occurrences_counts_labels(labels: Seq<Class>, c: Class)
    ensures
        occurrences(labels, c) == labels.filter(|l: Class| l == c).len(),
        (forall|k: int| 0 <= k < labels.len() ==> labels[k] == c) ==> occurrences(labels, c)
            == labels.len(),
    decreases labels.len(),
{
    reveal_with_fuel(Seq::filter, 1);
    if labels.len() > 0 {
        lemma_occurrences_counts_labels(labels.drop_last(), c);
        assert((forall|k: int| 0 <= k < labels.len() ==> labels[k] == c) ==> (forall|k: int|
            0 <= k < labels.drop_last().len() ==> labels.drop_last()[k] == c));
    }
}

/// Column of position `i` in a row-major map `width` pixels wide (positions
/// are counted as `u32`, modulo 2^32).
pub open spec fn column_of(i: int, width: nat) -> int {
    (i % 0x1_0000_0000) % width as int
}

/// Row of position `i` in a row-major map `width` pixels wide (positions are
/// counted as `u32`, modulo 2^32).
pub open spec fn row_of(i: int, width: nat) -> int {
    (i % 0x1_0000_0000) / width as int
}

/// `b` is the tightest box around the positions of `c` in a row-major label
/// map `width` pixels wide: each edge is reached by some such pixel and no
/// such pixel lies outside.
pub open spec fn is_bbox_of(labels: Seq<Class>, width: nat, c: Class, b: BBox) -> bool {
    &&& exists|i: int| 0 <= i < labels.len() && labels[i] == c && column_of(i, width) == b.x0
    &&& exists|i: int| 0 <= i < labels.len() && labels[i] == c && row_of(i, width) == b.y0
    &&& exists|i: int| 0 <= i < labels.len() && labels[i] == c && column_of(i, width) == b.x1
    &&& exists|i: int| 0 <= i < labels.len() && labels[i] == c && row_of(i, width) == b.y1
    &&& forall|i: int|
        0 <= i < labels.len() && #[trigger] labels[i] == c ==> b.x0 <= column_of(i, width) <= b.x1
            && b.y0 <= row_of(i, width) <= b.y1
}

/// `i as u32` keeps `i` modulo 2^32.
fn index_bits(i: usize) -> (r: u32)
    ensures
        r as int == i as int % 0x1_0000_0000,
{
    let wide = i as u64;
    let r = (wide % 0x1_0000_0000) as u32;
    r
}

impl Segmentation {
    /// Number of pixels labelled `class`.
    pub fn count(&self, class: Class) -> (n: usize)
        ensures
            n == occurrences(self.labels@, class),
            n == self.labels@.filter(|l: Class| l == class).len(),
    {
        let mut n: usize = 0;
        let mut i: usize = 0;
        while i < self.labels.len()
            invariant
                i <= self.labels@.len(),
                n == occurrences(self.labels@.take(i as int), class),
                n <= i,
            decreases self.labels@.len() - i,
        {
            assert(self.labels@.take(i + 1int).drop_last() =~= self.labels@.take(i as int));
            if self.labels[i] == class {
                n = n + 1;
            }
            i = i + 1;
        }
        assert(self.labels@.take(i as int) =~= self.labels@);
        proof {
            lemma_occurrences_counts_labels(self.labels@, class);
        }
        n
    }

    /// Bounding box of all pixels of `class`, or `None` if there are none.
    pub fn bbox(&self, class: Class) -> (r: Option<BBox>)
        requires
            self.width > 0 || !self.labels@.contains(class),
        ensures
            r is None <==> !self.labels@.contains(class),
            r matches Some(b) ==> is_bbox_of(self.labels@, self.width as nat, class, b),
    {
        let mut x0: u32 = u32::MAX;
        let mut y0: u32 = u32::MAX;
        let mut x1: u32 = 0;
        let mut y1: u32 = 0;
        let mut any = false;
        let ghost w = self.width as int;
        let mut i: usize = 0;
        while i < self.labels.len()
            invariant
                i <= self.labels@.len(),
                w == self.width,
                self.width > 0 || !self.labels@.contains(class),
                any <==> exists|k: int| 0 <= k < i && self.labels@[k] == class,
                any ==> {
                    &&& exists|k: int| 0 <= k < i && self.labels@[k] == class && column_of(k, w as nat) == x0
                    &&& exists|k: int| 0 <= k < i && self.labels@[k] == class && row_of(k, w as nat) == y0
                    &&& exists|k: int| 0 <= k < i && self.labels@[k] == class && column_of(k, w as nat) == x1
                    &&& exists|k: int| 0 <= k < i && self.labels@[k] == class && row_of(k, w as nat) == y1
                },
                forall|k: int|
                    0 <= k < i && #[trigger] self.labels@[k] == class ==> x0 <= column_of(k, w as nat) <= x1
                        && y0 <= row_of(k, w as nat) <= y1,
            decreases self.labels@.len() - i,
        {
            if self.labels[i] == class {
                assert(self.labels@.contains(class));
                let bits = index_bits(i);
                let x = bits % self.width;
                let y = bits / self.width;
                if !any || x < x0 {
                    x0 = x;
                }
                if !any || y < y0 {
                    y0 = y;
                }
                if !any || x > x1 {
                    x1 = x;
                }
                if !any || y > y1 {
                    y1 = y;
                }
                any = true;
            }
            i = i + 1;
        }
        if any {
            Some(BBox { x0, y0, x1, y1 })
        } else {
            None
        }
    }
}

/// Pixels of earlier rows sit before row `y` in a row-major map.
proof fn lemma_row_major(xx: int, yy: int, y: int, w: int)
    requires
        0 <= xx < w,
        0 <= yy < y,
    ensures
        0 <= yy * w + xx < y * w,
{
    assert(0 <= yy * w + xx < y * w) by (nonlinear_arith)
        requires
            0 <= xx < w,
            0 <= yy < y,
    ;
}

/// Classify every pixel of an image.
pub fn segment(img: &RgbImage) -> (s: Segmentation)
    requires
        img.wf(),
        img.dims().0 * img.dims().1 <= u32::MAX,
    ensures
        s.width == img.dims().0,
        s.height == img.dims().1,
        s.labels@.len() == img.dims().0 * img.dims().1,
        forall|x: int, y: int|
            0 <= x < img.dims().0 && 0 <= y < img.dims().1 ==> #[trigger] s.labels@[y
                * img.dims().0 + x] == class_of(img.pixel_at(x, y)),
{
    let w = img.width();
    let h = img.height();
    let mut labels: Vec<Class> = Vec::with_capacity((w * h) as usize);
    let mut y: u32 = 0;
    while y < h
        invariant
            w == img.dims().0,
            h == img.dims().1,
            img.wf(),
            w * h <= u32::MAX,
            y <= h,
            labels@.len() == y * w,
            forall|xx: int, yy: int|
                0 <= xx < w && 0 <= yy < y ==> #[trigger] labels@[yy * w + xx] == class_of(
                    img.pixel_at(xx, yy),
                ),
        decreases h - y,
    {
        let mut x: u32 = 0;
        while x < w
            invariant
                w == img.dims().0,
                h == img.dims().1,
                img.wf(),
                y < h,
                x <= w,
                labels@.len() == y * w + x,
                forall|xx: int, yy: int|
                    0 <= xx < w && 0 <= yy < y ==> #[trigger] labels@[yy * w + xx] == class_of(
                        img.pixel_at(xx, yy),
                    ),
                forall|xx: int| 0 <= xx < x ==> #[trigger] labels@[y * w + xx] == class_of(img.pixel_at(xx, y as int)),
            decreases w - x,
        {
            let ghost before = labels@;
            labels.push(classify(img.pixel(x, y)));
            proof {
                assert forall|xx: int, yy: int|
                    0 <= xx < w && 0 <= yy < y implies #[trigger] labels@[yy * w + xx] == class_of(
                        img.pixel_at(xx, yy),
                    ) by {
                    lemma_row_major(xx, yy, y as int, w as int);
                    assert(labels@[yy * w + xx] == before[yy * w + xx]);
                }
                assert forall|xx: int| 0 <= xx < x + 1 implies #[trigger] labels@[y * w + xx]
                    == class_of(img.pixel_at(xx, y as int)) by {
                    if xx < x {
                        assert(labels@[y * w + xx] == before[y * w + xx]);
                    }
                }
            }
            x = x + 1;
        }
        assert((y + 1) * w == y * w + w) by (nonlinear_arith);
        assert forall|xx: int, yy: int|
            0 <= xx < w && 0 <= yy < y + 1 implies #[trigger] labels@[yy * w + xx] == class_of(
                img.pixel_at(xx, yy),
            ) by {
            if yy == y as int {
                assert(labels@[y * w + xx] == class_of(img.pixel_at(xx, y as int)));
            }
        }
        y = y + 1;
    }
    assert(h * w == w * h) by (nonlinear_arith);
    Segmentation { width: w, height: h, labels }
}

} // verus!
