//! Single-precision (IEEE 754 binary32) rounding, modelled on integers.
//!
//! A value is held as a whole number of grid steps of 2^-32: the integer `x`
//! stands for `x / 2^32`. Every single-precision number of magnitude at least
//! 2^-9 has a 24-bit significand whose last bit is worth at least 2^-32, so it
//! lies on this grid, and rounding to it is the round-to-nearest, ties-to-even
//! rounding of the hardware. Below 2^-9 the grid is coarser than single
//! precision; the colour classifier never rounds such a value other than
//! zero (`lemma_hsv_rounds_in_binary32` in the segmentation module).
use vstd::prelude::*;

verus! {

/// One, in grid steps (2^32).
pub const ONE: i128 = 0x1_0000_0000;

/// 2^e.
pub open spec fn two_to(e: nat) -> nat
    decreases e,
{
    if e == 0 {
        1
    } else {
        2 * two_to((e - 1) as nat)
    }
}

/// `n / d` rounded to the nearest integer, ties to the even one
/// (`n >= 0`, `d > 0`).
pub open spec fn round_half_even(n: int, d: int) -> int {
    let q = n / d;
    let r = n % d;
    if 2 * r > d || (2 * r == d && q % 2 == 1) {
        q + 1
    } else {
        q
    }
}

/// Whether the significand of `n / d` is counted in units of `2^s` grid
/// steps: `n / d < 2^(24 + s)`, and `n / d >= 2^(23 + s)` unless `s` is 0.
pub open spec fn in_binade(n: int, d: int, s: nat) -> bool {
    &&& n < two_to((s + 24) as nat) * d
    &&& (s == 0 || two_to((s + 23) as nat) * d <= n)
}

/// The significand unit exponent of `n / d`.
pub open spec fn binade(n: int, d: int) -> nat {
    choose|s: nat| in_binade(n, d, s)
}

/// The single-precision number nearest to `n / d` grid steps (`n >= 0`,
/// `d > 0`), ties to an even significand, in grid steps.
pub open spec fn round_single(n: int, d: int) -> int {
    let u = two_to(binade(n, d));
    round_half_even(n, d * u) * u
}

/// As `round_single`, for either sign: rounding is symmetric about zero.
pub open spec fn round_single_signed(n: int, d: int) -> int {
    if n >= 0 {
        round_single(n, d)
    } else {
        -round_single(-n, d)
    }
}

proof fn lemma_two_to_24()
    ensures
        two_to(24) == 0x100_0000,
{
    reveal_with_fuel(two_to, 25);
}

proof fn lemma_two_to_pos(e: nat)
    ensures
        two_to(e) >= 1,
    decreases e,
{
    if e > 0 {
        lemma_two_to_pos((e - 1) as nat);
    }
}

proof fn lemma_two_to_mono(a: nat, b: nat)
    requires
        a <= b,
    ensures
        two_to(a) <= two_to(b),
    decreases b,
{
    lemma_two_to_pos(b);
    if a < b {
        lemma_two_to_mono(a, (b - 1) as nat);
    }
}

proof fn lemma_two_to_grows(e: nat)
    ensures
        two_to(e) >= e + 1,
    decreases e,
{
    if e > 0 {
        lemma_two_to_grows((e - 1) as nat);
    }
}

/// The binade of a value is unique.
proof fn lemma_binade_unique(n: int, d: int, s1: nat, s2: nat)
    requires
        d > 0,
        in_binade(n, d, s1),
        in_binade(n, d, s2),
    ensures
        s1 == s2,
{
    if s1 < s2 {
        lemma_two_to_mono((s1 + 24) as nat, (s2 + 23) as nat);
        let a = two_to((s1 + 24) as nat) as int;
        let b = two_to((s2 + 23) as nat) as int;
        assert(a * d <= b * d) by (nonlinear_arith)
            requires
                a <= b,
                d > 0,
        ;
    } else if s2 < s1 {
        lemma_two_to_mono((s2 + 24) as nat, (s1 + 23) as nat);
        let a = two_to((s2 + 24) as nat) as int;
        let b = two_to((s1 + 23) as nat) as int;
        assert(a * d <= b * d) by (nonlinear_arith)
            requires
                a <= b,
                d > 0,
        ;
    }
}

/// Round `n / d` grid steps to single precision.
fn round_grid(n: u128, d: u128) -> (v: u128)
    requires
        0 < d <= 0x1_0000_0000_0000,
        n <= 0x10_0000_0000_0000_0000_0000_0000,
    ensures
        v == round_single(n as int, d as int),
        v * d <= 2 * n + d,
{
    let mut unit: u128 = 1;
    let mut top: u128 = d * 0x100_0000;
    let mut s: u128 = 0;
    proof {
        lemma_two_to_24();
        assert(two_to((s + 24) as nat) == two_to(24));
    }
    while top <= n
        invariant
            0 < d <= 0x1_0000_0000_0000,
            n <= 0x10_0000_0000_0000_0000_0000_0000,
            top <= 0x100_0000_0000_0000_0000 || top <= 2 * n,
            unit == two_to(s as nat),
            top == two_to((s + 24) as nat) * d,
            s == 0 || two_to((s + 23) as nat) * d <= n,
        decreases n - s,
    {
        proof {
            lemma_two_to_grows((s + 24) as nat);
            lemma_two_to_mono(s as nat, (s + 24) as nat);
            let t = two_to((s + 24) as nat) as int;
            assert(t <= t * d) by (nonlinear_arith)
                requires
                    d >= 1,
                    t >= 0,
            ;
        }
        let ghost t0 = top;
        unit = unit * 2;
        top = top * 2;
        s = s + 1;
        proof {
            assert(two_to((s + 24) as nat) == 2 * two_to((s + 23) as nat));
            let t = two_to((s + 23) as nat) as int;
            assert(top == 2 * t * d) by (nonlinear_arith)
                requires
                    top == 2 * t0,
                    t0 == t * d,
            ;
        }
    }
    let ghost sn = s as nat;
    proof {
        assert(in_binade(n as int, d as int, sn));
        lemma_binade_unique(n as int, d as int, binade(n as int, d as int), sn);
        lemma_two_to_pos(sn);
        lemma_two_to_mono(sn, (sn + 24) as nat);
        assert(two_to((sn + 24) as nat) == two_to(sn) * 0x100_0000) by {
            lemma_two_to_shift(sn, 24);
            lemma_two_to_24();
        }
    }
    proof {
        assert(top == 0x100_0000 * (d * unit)) by (nonlinear_arith)
            requires
                top == two_to(sn) * 0x100_0000 * d,
                unit == two_to(sn),
        ;
    }
    let dd = d * unit;
    let q = n / dd;
    let r = n % dd;
    proof {
        assert(q < 0x100_0000) by (nonlinear_arith)
            requires
                n < 0x100_0000 * dd,
                dd > 0,
                q == n / dd,
        ;
        assert(q * dd <= n) by (nonlinear_arith)
            requires
                dd > 0,
                q == n / dd,
        ;
    }
    let m = if 2 * r > dd || (2 * r == dd && q % 2 == 1) {
        q + 1
    } else {
        q
    };
    proof {
        assert(m * unit <= top) by (nonlinear_arith)
            requires
                m <= 0x100_0000,
                unit >= 1,
                d >= 1,
                top == 0x100_0000 * (d * unit),
        ;
        assert(dd <= n || dd == d) by {
            if sn > 0 {
                lemma_two_to_mono(sn, (sn + 23) as nat);
                let a = two_to(sn) as int;
                let b = two_to((sn + 23) as nat) as int;
                assert(d * a <= b * d) by (nonlinear_arith)
                    requires
                        a <= b,
                        d > 0,
                ;
            }
        }
        assert(m * unit * d <= 2 * n + d) by (nonlinear_arith)
            requires
                m <= q + 1,
                q * dd <= n,
                dd == d * unit,
                dd <= n || dd == d,
                unit >= 1,
                d > 0,
        ;
    }
    m * unit
}

proof fn lemma_two_to_shift(a: nat, b: nat)
    ensures
        two_to(a + b) == two_to(a) * two_to(b),
    decreases b,
{
    if b > 0 {
        let c = (b - 1) as nat;
        lemma_two_to_shift(a, c);
        let x = two_to(a) as int;
        let y = two_to(c) as int;
        assert(a + b == (a + c + 1) as nat);
        assert(two_to(a + b) == 2 * two_to(a + c));
        assert(two_to(b) == 2 * y);
        assert(x * (2 * y) == 2 * (x * y)) by (nonlinear_arith);
        assert(two_to(a + c) == x * y);
        assert(two_to(a + b) == x * (2 * y));
    } else {
        assert(two_to(b) == 1);
        assert(a + b == a);
    }
}

/// Round `n / d` grid steps, of either sign, to single precision.
pub fn round_signed(n: i128, d: u128) -> (v: i128)
    requires
        0 < d <= 0x1_0000_0000_0000,
        -0x10_0000_0000_0000_0000_0000_0000 <= n <= 0x10_0000_0000_0000_0000_0000_0000,
    ensures
        v == round_single_signed(n as int, d as int),
        n >= 0 ==> 0 <= v <= 2 * n + d,
        n < 0 ==> 2 * n - d <= v <= 0,
{
    if n >= 0 {
        let v = round_grid(n as u128, d);
        proof {
            assert(v <= 2 * n + d) by (nonlinear_arith)
                requires
                    v * d <= 2 * n + d,
                    d >= 1,
            ;
        }
        v as i128
    } else {
        let v = round_grid((-n) as u128, d);
        proof {
            assert(v <= -2 * n + d) by (nonlinear_arith)
                requires
                    v * d <= -2 * n + d,
                    d >= 1,
            ;
        }
        -(v as i128)
    }
}

/// Whether `n / d` grid steps is zero or of magnitude at least 2^-9 (2^23
/// steps): on such values `round_single_signed` is exactly binary32
/// round-to-nearest, ties to even.
pub open spec fn exact_binary32(n: int, d: int) -> bool {
    n == 0 || n >= two_to(23) * d || -n >= two_to(23) * d
}

proof fn lemma_binade_exists(n: int, d: int, s: nat)
    requires
        d > 0,
        n >= 0,
        s == 0 || two_to((s + 23) as nat) * d <= n,
    ensures
        exists|t: nat| in_binade(n, d, t),
    decreases n - two_to((s + 23) as nat) * d,
{
    if n < two_to((s + 24) as nat) * d {
        assert(in_binade(n, d, s));
    } else {
        assert(two_to((s + 24) as nat) == 2 * two_to((s + 23) as nat));
        lemma_two_to_pos((s + 23) as nat);
        let t = two_to((s + 23) as nat) as int;
        assert(t * d < 2 * t * d) by (nonlinear_arith)
            requires
                t >= 1,
                d > 0,
        ;
        assert(((s + 1) + 23) as nat == (s + 24) as nat);
        lemma_binade_exists(n, d, s + 1);
    }
}

/// Rounding `n / d` for `0 <= n / d < 2^(k + 24)`: the result is within
/// half of `2^k` of the value, keeps zero, and keeps the bounds 2^23 and
/// 2^24.
pub proof fn lemma_round_near(n: int, d: int, k: nat)
    requires
        d > 0,
        0 <= n < two_to((k + 24) as nat) * d,
    ensures
        0 <= round_single(n, d) <= two_to((k + 24) as nat),
        2 * (round_single(n, d) * d - n) <= d * two_to(k),
        2 * (n - round_single(n, d) * d) <= d * two_to(k),
        n == 0 ==> round_single(n, d) == 0,
        n >= two_to(23) * d ==> round_single(n, d) >= two_to(23),
        n >= two_to(24) * d ==> round_single(n, d) >= two_to(24),
{
    lemma_binade_exists(n, d, 0);
    let s = binade(n, d);
    assert(in_binade(n, d, s));
    let u = two_to(s) as int;
    lemma_two_to_pos(s);
    lemma_two_to_shift(s, 24);
    lemma_two_to_shift(s, 23);
    lemma_two_to_24();
    assert(two_to(23) * 2 == two_to(24));
    assert((s + 24) as nat == s + 24nat);
    assert((s + 23) as nat == s + 23nat);
    // the binade lies at or below k
    if s > k {
        lemma_two_to_mono((k + 24) as nat, (s + 23) as nat);
        let a = two_to((k + 24) as nat) as int;
        let b = two_to((s + 23) as nat) as int;
        assert(a * d <= b * d) by (nonlinear_arith)
            requires
                a <= b,
                d > 0,
        ;
    }
    lemma_two_to_mono(s, k);
    lemma_two_to_shift(k, 24);
    assert((k + 24) as nat == k + 24nat);
    let dd = d * u;
    let q = n / dd;
    let r = n % dd;
    assert(dd > 0) by (nonlinear_arith)
        requires
            d > 0,
            u >= 1,
            dd == d * u,
    ;
    assert(n == q * dd + r && 0 <= r < dd) by (nonlinear_arith)
        requires
            dd > 0,
            q == n / dd,
            r == n % dd,
    ;
    let m = round_half_even(n, dd);
    assert(round_single(n, d) == m * u);
    assert(m == q || m == q + 1);
    assert(m * u * d == m * dd) by (nonlinear_arith)
        requires
            dd == d * u,
    ;
    assert(2 * (m * dd - n) <= dd && 2 * (n - m * dd) <= dd) by (nonlinear_arith)
        requires
            n == q * dd + r,
            0 <= r < dd,
            m == q || m == q + 1,
            m == q + 1 ==> 2 * r >= dd,
            m == q ==> 2 * r <= dd,
    ;
    assert(dd <= d * two_to(k)) by (nonlinear_arith)
        requires
            dd == d * u,
            u <= two_to(k),
            d > 0,
    ;
    // the significand stays below 2^24
    assert(n < 0x100_0000 * dd) by (nonlinear_arith)
        requires
            n < two_to((s + 24) as nat) * d,
            two_to((s + 24) as nat) == u * 0x100_0000,
            dd == d * u,
    ;
    assert(q < 0x100_0000) by (nonlinear_arith)
        requires
            n < 0x100_0000 * dd,
            n == q * dd + r,
            0 <= r,
            dd > 0,
    ;
    assert(q >= 0) by (nonlinear_arith)
        requires
            n >= 0,
            n == q * dd + r,
            r < dd,
            dd > 0,
    ;
    assert(m * u <= 0x100_0000 * u) by (nonlinear_arith)
        requires
            m <= 0x100_0000,
            u >= 1,
    ;
    assert(0x100_0000 * u <= two_to((k + 24) as nat)) by (nonlinear_arith)
        requires
            two_to((k + 24) as nat) == two_to(k) * 0x100_0000,
            u <= two_to(k),
    ;
    assert(0 <= m * u) by (nonlinear_arith)
        requires
            m >= 0,
            u >= 1,
    ;
    if n == 0 {
        assert(q == 0 && r == 0) by (nonlinear_arith)
            requires
                n == q * dd + r,
                0 <= r < dd,
                q >= 0,
                n == 0,
        ;
        assert(m == 0);
        assert(m * u == 0) by (nonlinear_arith)
            requires
                m == 0,
        ;
    }
    if n >= two_to(23) * d {
        if s == 0 {
            assert(u == 1);
            assert(dd == d) by (nonlinear_arith)
                requires
                    u == 1,
                    dd == d * u,
            ;
            assert(q >= two_to(23)) by (nonlinear_arith)
                requires
                    n >= two_to(23) * d,
                    n == q * dd + r,
                    r < dd,
                    dd == d,
                    d > 0,
            ;
        } else {
            assert(two_to((s + 23) as nat) == u * two_to(23));
            assert(q >= two_to(23)) by (nonlinear_arith)
                requires
                    two_to((s + 23) as nat) * d <= n,
                    two_to((s + 23) as nat) == u * two_to(23),
                    dd == d * u,
                    n == q * dd + r,
                    r < dd,
                    dd > 0,
            ;
            assert(m * u >= two_to(23) * u) by (nonlinear_arith)
                requires
                    m >= two_to(23),
                    u >= 1,
            ;
        }
    }
    if n >= two_to(24) * d {
        if s == 0 {
            assert(false) by (nonlinear_arith)
                requires
                    n >= two_to(24) * d,
                    n < two_to((s + 24) as nat) * d,
                    s == 0,
            ;
        }
        lemma_two_to_mono(1, s);
        assert(two_to(0) == 1);
        assert(two_to(1) == 2);
        assert(two_to((s + 23) as nat) == u * two_to(23));
        assert(q >= two_to(23)) by (nonlinear_arith)
            requires
                two_to((s + 23) as nat) * d <= n,
                two_to((s + 23) as nat) == u * two_to(23),
                dd == d * u,
                n == q * dd + r,
                r < dd,
                dd > 0,
        ;
        assert(m * u >= two_to(23) * 2) by (nonlinear_arith)
            requires
                m >= two_to(23),
                u >= 2,
        ;
    }
}

/// Powers of two that the byte-channel bounds use.
pub proof fn lemma_two_to_values()
    ensures
        two_to(9) == 0x200,
        two_to(10) == 0x400,
        two_to(11) == 0x800,
        two_to(23) == 0x80_0000,
        two_to(24) == 0x100_0000,
        two_to(33) == 0x2_0000_0000,
        two_to(34) == 0x4_0000_0000,
        two_to(35) == 0x8_0000_0000,
{
    reveal_with_fuel(two_to, 36);
}

} // verus!
