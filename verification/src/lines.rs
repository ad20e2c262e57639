//! Hough line detection: the integer stage. The vote accumulator is filled
//! in floating point outside the library; choosing its peaks happens here.
use vstd::prelude::*;

verus! {

/// Whether cell `(nr, nt)` lies in the 5×5 window around `(ri, ti)` of an
/// accumulator with `rb` rho bins and `tb` theta bins.
pub open spec fn in_window(rb: int, tb: int, ri: int, ti: int, nr: int, nt: int) -> bool {
    &&& 0 <= nr < rb
    &&& 0 <= nt < tb
    &&& ri - 2 <= nr <= ri + 2
    &&& ti - 2 <= nt <= ti + 2
}

/// The votes of cell `(ri, ti)`; the accumulator is row-major by rho bin.
pub open spec fn votes_at(acc: Seq<u32>, tb: int, ri: int, ti: int) -> u32 {
    acc[ri * tb + ti]
}

/// Whether cell `(ri, ti)` is a peak: it has at least `threshold` votes and
/// no cell of its 5×5 window has more.
pub open spec fn is_peak(acc: Seq<u32>, rb: int, tb: int, threshold: u32, ri: int, ti: int) -> bool {
    &&& 0 <= ri < rb
    &&& 0 <= ti < tb
    &&& votes_at(acc, tb, ri, ti) >= threshold
    &&& forall|nr: int, nt: int| #[trigger]
        in_window(rb, tb, ri, ti, nr, nt) ==> votes_at(acc, tb, nr, nt) <= votes_at(
            acc,
            tb,
            ri,
            ti,
        )
}

/// The entry `(votes, rho bin, theta bin)` that stands for cell `(ri, ti)`.
pub open spec fn peak_entry(acc: Seq<u32>, tb: int, ri: int, ti: int) -> (u32, usize, usize) {
    (votes_at(acc, tb, ri, ti), ri as usize, ti as usize)
}

/// Whether entry `a` ranks before `b`: more votes first, and among equal
/// votes the earlier cell (row-major) first.
pub open spec fn ranks_before(a: (u32, usize, usize), b: (u32, usize, usize)) -> bool {
    a.0 > b.0 || (a.0 == b.0 && (a.1 < b.1 || (a.1 == b.1 && a.2 < b.2)))
}

/// Whether every entry of `r` ranks before `c`.
pub open spec fn all_rank_before(r: Seq<(u32, usize, usize)>, c: (u32, usize, usize)) -> bool {
    forall|k: int| 0 <= k < r.len() ==> ranks_before(#[trigger] r[k], c)
}

/// Whether `r` is in strict rank order.
pub open spec fn ranked(r: Seq<(u32, usize, usize)>) -> bool {
    forall|k: int, l: int| 0 <= k < l < r.len() ==> ranks_before(#[trigger] r[k], #[trigger] r[l])
}

/// Whether `r` lists the strongest peaks of the accumulator, strongest
/// first and, among equal votes, in row-major cell order; at most
/// `max_lines` of them, and every peak left out ranks after all listed ones.
pub open spec fn is_top_peaks(
    acc: Seq<u32>,
    rb: int,
    tb: int,
    threshold: u32,
    max_lines: int,
    r: Seq<(u32, usize, usize)>,
) -> bool {
    &&& r.len() <= max_lines
    &&& forall|k: int|
        0 <= k < r.len() ==> is_peak(acc, rb, tb, threshold, r[k].1 as int, r[k].2 as int) && r[k]
            == peak_entry(acc, tb, r[k].1 as int, r[k].2 as int)
    &&& ranked(r)
    &&& forall|ri: int, ti: int|
        #[trigger] is_peak(acc, rb, tb, threshold, ri, ti) && !r.contains(
            peak_entry(acc, tb, ri, ti),
        ) ==> r.len() == max_lines && all_rank_before(r, peak_entry(acc, tb, ri, ti))
}

/// Cell index of `(ri, ti)`.
proof fn lemma_cell(rb: int, tb: int, ri: int, ti: int)
    requires
        0 <= ri < rb,
        0 <= ti < tb,
    ensures
        0 <= ri * tb,
        0 <= ri * tb + ti < rb * tb,
{
    assert(0 <= ri * tb && 0 <= ri * tb + ti < rb * tb) by (nonlinear_arith)
        requires
            0 <= ri < rb,
            0 <= ti < tb,
    ;
}

/// Whether no cell of the 5×5 window around `(ri, ti)` has more votes.
fn window_max(acc: &Vec<u32>, rb: usize, tb: usize, ri: usize, ti: usize) -> (b: bool)
    requires
        acc@.len() == rb * tb,
        ri < rb,
        ti < tb,
    ensures
        b == forall|nr: int, nt: int| #[trigger]
            in_window(rb as int, tb as int, ri as int, ti as int, nr, nt) ==> votes_at(
                acc@,
                tb as int,
                nr,
                nt,
            ) <= votes_at(acc@, tb as int, ri as int, ti as int),
{
    proof {
        lemma_cell(rb as int, tb as int, ri as int, ti as int);
    }
    let n = acc.len();
    let v = acc[ri * tb + ti];
    let r_lo = if ri >= 2 { ri - 2 } else { 0 };
    let r_hi = if rb - ri > 2 { ri + 2 } else { rb - 1 };
    let t_lo = if ti >= 2 { ti - 2 } else { 0 };
    let t_hi = if tb - ti > 2 { ti + 2 } else { tb - 1 };
    let mut ok = true;
    let mut nr = r_lo;
    while nr <= r_hi
        invariant
            acc@.len() == rb * tb,
            n == rb * tb,
            ri < rb,
            ti < tb,
            v == votes_at(acc@, tb as int, ri as int, ti as int),
            r_lo <= nr <= r_hi + 1,
            r_hi < rb,
            t_hi < tb,
            r_lo == (if ri >= 2 { ri - 2 } else { 0 }),
            r_hi == (if ri + 2 < rb { ri + 2 } else { rb - 1 }),
            t_lo == (if ti >= 2 { ti - 2 } else { 0 }),
            t_hi == (if ti + 2 < tb { ti + 2 } else { tb - 1 }),
            ok == forall|ar: int, at: int| #[trigger]
                in_window(rb as int, tb as int, ri as int, ti as int, ar, at) && ar < nr
                    ==> votes_at(acc@, tb as int, ar, at) <= v,
        decreases r_hi + 1 - nr,
    {
        let mut nt = t_lo;
        while nt <= t_hi
            invariant
                acc@.len() == rb * tb,
                n == rb * tb,
                ri < rb,
                ti < tb,
                v == votes_at(acc@, tb as int, ri as int, ti as int),
                r_lo <= nr <= r_hi,
                t_lo <= nt <= t_hi + 1,
                r_hi < rb,
                t_hi < tb,
                r_lo == (if ri >= 2 { ri - 2 } else { 0 }),
                r_hi == (if ri + 2 < rb { ri + 2 } else { rb - 1 }),
                t_lo == (if ti >= 2 { ti - 2 } else { 0 }),
                t_hi == (if ti + 2 < tb { ti + 2 } else { tb - 1 }),
                ok == forall|ar: int, at: int| #[trigger]
                    in_window(rb as int, tb as int, ri as int, ti as int, ar, at) && (ar < nr || (
                    ar == nr && at < nt)) ==> votes_at(acc@, tb as int, ar, at) <= v,
            decreases t_hi + 1 - nt,
        {
            proof {
                lemma_cell(rb as int, tb as int, nr as int, nt as int);
                assert(in_window(rb as int, tb as int, ri as int, ti as int, nr as int, nt as int));
            }
            let u = acc[nr * tb + nt];
            ok = ok && u <= v;
            nt = nt + 1;
        }
        nr = nr + 1;
    }
    ok
}

/// Whether entry `a`'s cell comes before entry `b`'s, row-major.
spec fn cell_before(a: (u32, usize, usize), b: (u32, usize, usize)) -> bool {
    a.1 < b.1 || (a.1 == b.1 && a.2 < b.2)
}

/// Insert `e` into the ranked list `best`, keeping at most `max_lines`
/// entries; `e`'s cell comes after every listed one.
fn insert_ranked(best: &mut Vec<(u32, usize, usize)>, e: (u32, usize, usize), max_lines: usize)
    requires
        old(best)@.len() <= max_lines,
        ranked(old(best)@),
        forall|k: int| 0 <= k < old(best)@.len() ==> cell_before(#[trigger] old(best)@[k], e),
    ensures
        final(best)@.len() <= max_lines,
        ranked(final(best)@),
        forall|k: int|
            0 <= k < final(best)@.len() ==> #[trigger] final(best)@[k] == e || old(best)@.contains(
                final(best)@[k],
            ),
        forall|x: (u32, usize, usize)|
            (old(best)@.contains(x) || x == e) && !final(best)@.contains(x) ==> final(best)@.len()
                == max_lines && all_rank_before(final(best)@, x),
        forall|c: (u32, usize, usize)|
            old(best)@.len() == max_lines && #[trigger] all_rank_before(old(best)@, c)
                ==> all_rank_before(final(best)@, c),
        old(best)@.len() == max_lines ==> final(best)@.len() == max_lines,
{
    let ghost b0 = best@;
    let mut p: usize = 0;
    while p < best.len() && best[p].0 >= e.0
        invariant
            best@ == b0,
            p <= b0.len(),
            forall|k: int| 0 <= k < p ==> (#[trigger] b0[k]).0 >= e.0,
        decreases b0.len() - p,
    {
        p = p + 1;
    }
    best.insert(p, e);
    let ghost b1 = best@;
    proof {
        assert(b1 =~= b0.subrange(0, p as int).push(e) + b0.subrange(p as int, b0.len() as int));
        assert forall|k: int, l: int| 0 <= k < l < b1.len() implies ranks_before(
            #[trigger] b1[k],
            #[trigger] b1[l],
        ) by {
            if l < p {
                assert(ranks_before(b0[k], b0[l]));
            } else if l == p {
                assert(cell_before(b0[k], e));
            } else if k < p {
                assert(ranks_before(b0[k], b0[l - 1]));
            } else if k == p {
                assert(b0[l - 1].0 < e.0);
            } else {
                assert(ranks_before(b0[k - 1], b0[l - 1]));
            }
        }
        assert forall|x: (u32, usize, usize)| b0.contains(x) || x == e implies b1.contains(x) by {
            if x == e {
                assert(b1[p as int] == e);
            } else {
                let q = choose|q: int| 0 <= q < b0.len() && b0[q] == x;
                if q < p {
                    assert(b1[q] == x);
                } else {
                    assert(b1[q + 1] == x);
                }
            }
        }
        assert forall|k: int| 0 <= k < b1.len() implies #[trigger] b1[k] == e || b0.contains(
            b1[k],
        ) by {
            if k < p {
                assert(b1[k] == b0[k]);
            } else if k > p {
                assert(b1[k] == b0[k - 1]);
            }
        }
    }
    if best.len() > max_lines {
        let dropped = best.pop().unwrap();
        proof {
            let b2 = best@;
            assert(b2 =~= b1.subrange(0, b1.len() - 1));
            assert forall|x: (u32, usize, usize)|
                (b0.contains(x) || x == e) && !b2.contains(x) implies b2.len() == max_lines
                && all_rank_before(b2, x) by {
                assert(b1.contains(x));
                let q = choose|q: int| 0 <= q < b1.len() && b1[q] == x;
                if q < b2.len() {
                    assert(b2[q] == b1[q]);
                    assert(b2.contains(x));
                }
                assert(q == b1.len() - 1);
                assert forall|k: int| 0 <= k < b2.len() implies ranks_before(b2[k], x) by {
                    assert(ranks_before(b1[k], b1[b1.len() - 1]));
                }
            }
            assert forall|c: (u32, usize, usize)|
                b0.len() == max_lines && #[trigger] all_rank_before(b0, c) implies all_rank_before(
                b2,
                c,
            ) by {
                assert forall|k: int| 0 <= k < b2.len() implies ranks_before(b2[k], c) by {
                    if k < p {
                        assert(b2[k] == b0[k]);
                    } else if k == p {
                        assert(ranks_before(b1[p as int], b1[p + 1]));
                        assert(b1[p + 1] == b0[p as int]);
                        assert(ranks_before(b0[p as int], c));
                    } else {
                        assert(b2[k] == b0[k - 1]);
                    }
                }
            }
            assert forall|k: int| 0 <= k < b2.len() implies #[trigger] b2[k] == e || b0.contains(
                b2[k],
            ) by {
                assert(b2[k] == b1[k]);
            }
        }
    } else {
        proof {
            assert forall|c: (u32, usize, usize)|
                b0.len() == max_lines && #[trigger] all_rank_before(b0, c) implies all_rank_before(
                b1,
                c,
            ) by {
                assert(b1.len() == b0.len() + 1);
            }
        }
    }
}

/// The peaks of a Hough vote accumulator (`rho_bins` rows of `theta_bins`
/// cells): the cells with at least `threshold` votes that are maximal in
/// their 5×5 window, as `(votes, rho bin, theta bin)`, strongest first,
/// equal votes in row-major order, at most `max_lines` of them.
pub fn hough_peaks(
    acc: &Vec<u32>,
    rho_bins: usize,
    theta_bins: usize,
    threshold: u32,
    max_lines: usize,
) -> (r: Vec<(u32, usize, usize)>)
    requires
        acc@.len() == rho_bins * theta_bins,
    ensures
        is_top_peaks(acc@, rho_bins as int, theta_bins as int, threshold, max_lines as int, r@),
{
    let ghost rb = rho_bins as int;
    let ghost tb = theta_bins as int;
    let cells = acc.len();
    let mut best: Vec<(u32, usize, usize)> = Vec::new();
    let mut ri: usize = 0;
    while ri < rho_bins
        invariant
            acc@.len() == rho_bins * theta_bins,
            cells == rho_bins * theta_bins,
            rb == rho_bins,
            tb == theta_bins,
            ri <= rho_bins,
            best@.len() <= max_lines,
            ranked(best@),
            forall|k: int|
                0 <= k < best@.len() ==> is_peak(
                    acc@,
                    rb,
                    tb,
                    threshold,
                    best@[k].1 as int,
                    best@[k].2 as int,
                ) && best@[k] == peak_entry(acc@, tb, best@[k].1 as int, best@[k].2 as int)
                    && best@[k].1 < ri,
            forall|a: int, b: int|
                #[trigger] is_peak(acc@, rb, tb, threshold, a, b) && a < ri && !best@.contains(
                    peak_entry(acc@, tb, a, b),
                ) ==> best@.len() == max_lines && all_rank_before(best@, peak_entry(acc@, tb, a, b)),
        decreases rho_bins - ri,
    {
        let mut ti: usize = 0;
        while ti < theta_bins
            invariant
                acc@.len() == rho_bins * theta_bins,
                cells == rho_bins * theta_bins,
                rb == rho_bins,
                tb == theta_bins,
                ri < rho_bins,
                ti <= theta_bins,
                best@.len() <= max_lines,
                ranked(best@),
                forall|k: int|
                    0 <= k < best@.len() ==> is_peak(
                        acc@,
                        rb,
                        tb,
                        threshold,
                        best@[k].1 as int,
                        best@[k].2 as int,
                    ) && best@[k] == peak_entry(acc@, tb, best@[k].1 as int, best@[k].2 as int) && (
                    best@[k].1 < ri || (best@[k].1 == ri && best@[k].2 < ti)),
                forall|a: int, b: int|
                    #[trigger] is_peak(acc@, rb, tb, threshold, a, b) && (a < ri || (a == ri && b
                        < ti)) && !best@.contains(peak_entry(acc@, tb, a, b)) ==> best@.len()
                        == max_lines && all_rank_before(best@, peak_entry(acc@, tb, a, b)),
            decreases theta_bins - ti,
        {
            proof {
                lemma_cell(rb, tb, ri as int, ti as int);
            }
            let cell = ri * theta_bins + ti;
            let v = acc[cell];
            if v >= threshold && window_max(acc, rho_bins, theta_bins, ri, ti) {
                let ghost b0 = best@;
                let e = (v, ri, ti);
                assert(is_peak(acc@, rb, tb, threshold, ri as int, ti as int));
                assert(e == peak_entry(acc@, tb, ri as int, ti as int));
                insert_ranked(&mut best, e, max_lines);
                proof {
                    assert forall|k: int| 0 <= k < best@.len() implies is_peak(
                        acc@,
                        rb,
                        tb,
                        threshold,
                        best@[k].1 as int,
                        best@[k].2 as int,
                    ) && best@[k] == peak_entry(acc@, tb, best@[k].1 as int, best@[k].2 as int) && (
                    best@[k].1 < ri || (best@[k].1 == ri && best@[k].2 < ti + 1)) by {
                        if best@[k] != e {
                            assert(b0.contains(best@[k]));
                            let q = choose|q: int| 0 <= q < b0.len() && b0[q] == best@[k];
                        }
                    }
                    assert forall|a: int, b: int|
                        #[trigger] is_peak(acc@, rb, tb, threshold, a, b) && (a < ri || (a == ri
                            && b < ti + 1)) && !best@.contains(peak_entry(acc@, tb, a, b))
                            implies best@.len() == max_lines && all_rank_before(
                        best@,
                        peak_entry(acc@, tb, a, b),
                    ) by {
                        let c = peak_entry(acc@, tb, a, b);
                        if a == ri && b == ti {
                            assert(c == e);
                        } else if b0.contains(c) {
                        } else {
                            assert(all_rank_before(b0, c));
                        }
                    }
                }
            } else {
                proof {
                    assert(!is_peak(acc@, rb, tb, threshold, ri as int, ti as int));
                }
            }
            ti = ti + 1;
        }
        ri = ri + 1;
    }
    best
}

proof fn lemma_top_peaks_prefix(
    acc: Seq<u32>,
    rb: int,
    tb: int,
    threshold: u32,
    max_lines: int,
    r1: Seq<(u32, usize, usize)>,
    r2: Seq<(u32, usize, usize)>,
    k: int,
)
    requires
        is_top_peaks(acc, rb, tb, threshold, max_lines, r1),
        is_top_peaks(acc, rb, tb, threshold, max_lines, r2),
        0 <= k <= r1.len(),
        k <= r2.len(),
    ensures
        forall|j: int| 0 <= j < k ==> r1[j] == r2[j],
    decreases k,
{
    if k > 0 {
        let j = k - 1;
        lemma_top_peaks_prefix(acc, rb, tb, threshold, max_lines, r1, r2, j);
        let a = r1[j];
        let b = r2[j];
        if a != b {
            assert(is_peak(acc, rb, tb, threshold, a.1 as int, a.2 as int));
            assert(is_peak(acc, rb, tb, threshold, b.1 as int, b.2 as int));
            if ranks_before(a, b) {
                if r2.contains(a) {
                    let q = choose|q: int| 0 <= q < r2.len() && r2[q] == a;
                    if q < j {
                        assert(ranks_before(r1[q], r1[j]));
                    } else {
                        assert(ranks_before(r2[j], r2[q]));
                    }
                } else {
                    assert(ranks_before(r2[j], a));
                }
            } else {
                assert(ranks_before(b, a));
                if r1.contains(b) {
                    let q = choose|q: int| 0 <= q < r1.len() && r1[q] == b;
                    if q < j {
                        assert(ranks_before(r2[q], r2[j]));
                    } else {
                        assert(ranks_before(r1[j], r1[q]));
                    }
                } else {
                    assert(ranks_before(r1[j], b));
                }
            }
        }
    }
}

/// Law: the peak list is determined by the accumulator, the threshold and
/// the limit: two lists that both are its top peaks are the same.
pub proof fn lemma_top_peaks_unique(
    acc: Seq<u32>,
    rb: int,
    tb: int,
    threshold: u32,
    max_lines: int,
    r1: Seq<(u32, usize, usize)>,
    r2: Seq<(u32, usize, usize)>,
)
    requires
        is_top_peaks(acc, rb, tb, threshold, max_lines, r1),
        is_top_peaks(acc, rb, tb, threshold, max_lines, r2),
    ensures
        r1 == r2,
{
    let m = if r1.len() <= r2.len() {
        r1.len() as int
    } else {
        r2.len() as int
    };
    lemma_top_peaks_prefix(acc, rb, tb, threshold, max_lines, r1, r2, m);
    if r1.len() < r2.len() {
        let b = r2[m];
        assert(is_peak(acc, rb, tb, threshold, b.1 as int, b.2 as int));
        if r1.contains(b) {
            let q = choose|q: int| 0 <= q < r1.len() && r1[q] == b;
            assert(ranks_before(r2[q], r2[m]));
        }
    } else if r2.len() < r1.len() {
        let a = r1[m];
        assert(is_peak(acc, rb, tb, threshold, a.1 as int, a.2 as int));
        if r2.contains(a) {
            let q = choose|q: int| 0 <= q < r2.len() && r2[q] == a;
            assert(ranks_before(r1[q], r1[m]));
        }
    }
    assert(r1 =~= r2);
}

/// How many unsupported steps a run may bridge: `max_gap`, or none where
/// it is not positive.
pub open spec fn gap_limit(max_gap: i32) -> int {
    if max_gap > 0 {
        max_gap as int
    } else {
        0
    }
}

/// No step in `[a, b)` (clipped to the sequence) is supported.
pub open spec fn quiet(s: Seq<bool>, a: int, b: int) -> bool {
    forall|j: int| a <= j < b && 0 <= j < s.len() ==> !s[j]
}

/// Whether steps `st..=en` form a maximal run of support: both ends
/// supported, no `g + 1` consecutive unsupported steps inside, and at least
/// `g + 1` unsupported steps (or the end of the line) on either side.
pub open spec fn is_run(s: Seq<bool>, g: int, st: int, en: int) -> bool {
    &&& 0 <= st <= en < s.len()
    &&& s[st]
    &&& s[en]
    &&& quiet(s, st - g - 1, st)
    &&& quiet(s, en + 1, en + g + 2)
    &&& forall|i: int| st <= i && i + g < en ==> !#[trigger] quiet(s, i, i + g + 1)
}

/// Whether `r` lists, left to right, exactly the maximal runs of `s` that
/// span at least `min_steps` steps.
pub open spec fn is_run_list(s: Seq<bool>, g: int, min_steps: int, r: Seq<(usize, usize)>) -> bool {
    &&& forall|k: int|
        0 <= k < r.len() ==> is_run(s, g, r[k].0 as int, r[k].1 as int) && r[k].1 - r[k].0
            >= min_steps
    &&& forall|k: int, l: int| 0 <= k < l < r.len() ==> (#[trigger] r[k]).1 < (#[trigger] r[l]).0
    &&& forall|st: int, en: int|
        #[trigger] is_run(s, g, st, en) && en - st >= min_steps ==> r.contains(
            (st as usize, en as usize),
        )
}

/// A maximal run is determined by its last step.
proof fn lemma_run_start_unique(s: Seq<bool>, g: int, st1: int, st2: int, en: int)
    requires
        g >= 0,
        is_run(s, g, st1, en),
        is_run(s, g, st2, en),
    ensures
        st1 == st2,
{
    if st1 < st2 {
        assert(!(st2 - g - 1 <= st1));
        assert(quiet(s, st2 - g - 1, st2 - g - 1 + g + 1));
    } else if st2 < st1 {
        assert(!(st1 - g - 1 <= st2));
        assert(quiet(s, st1 - g - 1, st1 - g - 1 + g + 1));
    }
}

/// Cut a line's support into runs. `support[k]` says whether the `k`-th
/// step along the line is backed by the edge map. A run grows through at
/// most `max_gap` unsupported steps and ends at its last supported step;
/// runs spanning at least `min_steps` steps are returned as `(first, last)`
/// step pairs, left to right.
pub fn support_runs(support: &Vec<bool>, max_gap: i32, min_steps: u64) -> (r: Vec<(usize, usize)>)
    ensures
        is_run_list(support@, gap_limit(max_gap), min_steps as int, r@),
{
    let ghost s = support@;
    let ghost g = gap_limit(max_gap);
    let n = support.len();
    let mut r: Vec<(usize, usize)> = Vec::new();
    let mut open = false;
    let mut st: usize = 0;
    let mut last: usize = 0;
    let mut gap: usize = 0;
    let mut k: usize = 0;
    while k < n
        invariant
            s == support@,
            n == s.len(),
            g == gap_limit(max_gap),
            k <= n,
            forall|q: int|
                0 <= q < r@.len() ==> is_run(s, g, r@[q].0 as int, r@[q].1 as int) && r@[q].1
                    - r@[q].0 >= min_steps && r@[q].1 + g + 1 < k,
            forall|q: int, l: int|
                0 <= q < l < r@.len() ==> (#[trigger] r@[q]).1 < (#[trigger] r@[l]).0,
            forall|a: int, b: int|
                #[trigger] is_run(s, g, a, b) && b - a >= min_steps && b + g + 1 < k ==> r@.contains(
                    (a as usize, b as usize),
                ),
            open ==> {
                &&& st <= last < k
                &&& s[st as int]
                &&& s[last as int]
                &&& quiet(s, st - g - 1, st as int)
                &&& quiet(s, last + 1, k as int)
                &&& gap == k - 1 - last
                &&& gap <= g
                &&& forall|i: int| st <= i && i + g < last ==> !#[trigger] quiet(s, i, i + g + 1)
                &&& forall|q: int| 0 <= q < r@.len() ==> r@[q].1 < st
            },
            !open ==> quiet(s, last + 1, k as int) && (last + g + 1 < k || quiet(s, 0, k as int)),
        decreases n - k,
    {
        if support[k] {
            if !open {
                open = true;
                st = k;
            }
            proof {
                assert forall|i: int| st <= i && i + g < k implies !#[trigger] quiet(
                    s,
                    i,
                    i + g + 1,
                ) by {
                    if i + g >= last {
                        assert(s[last as int]);
                    }
                }
                assert forall|a: int, b: int|
                    #[trigger] is_run(s, g, a, b) && b - a >= min_steps && b + g + 1 < k + 1
                        implies r@.contains((a as usize, b as usize)) by {
                    if b + g + 1 == k {
                        assert(s[k as int]);
                    }
                }
            }
            last = k;
            gap = 0;
        } else if open {
            gap = gap + 1;
            if gap as i64 > max_gap as i64 {
                open = false;
                proof {
                    assert(is_run(s, g, st as int, last as int));
                }
                if (last - st) as u64 >= min_steps {
                    let ghost r0 = r@;
                    r.push((st, last));
                    proof {
                        assert forall|q: int| 0 <= q < r0.len() implies r@.contains(
                            #[trigger] r0[q],
                        ) by {
                            assert(r@[q] == r0[q]);
                        }
                        assert forall|a: int, b: int|
                            #[trigger] is_run(s, g, a, b) && b - a >= min_steps && b + g + 1 < k
                                + 1 implies r@.contains((a as usize, b as usize)) by {
                            if b + g + 1 == k {
                                lemma_run_start_unique(s, g, a, st as int, b);
                                assert(r@[r@.len() - 1] == (st, last));
                            } else {
                                let q = choose|q: int|
                                    0 <= q < r0.len() && r0[q] == (a as usize, b as usize);
                                assert(r@[q] == r0[q]);
                            }
                        }
                    }
                } else {
                    proof {
                        assert forall|a: int, b: int|
                            #[trigger] is_run(s, g, a, b) && b - a >= min_steps && b + g + 1 < k
                                + 1 implies r@.contains((a as usize, b as usize)) by {
                            if b + g + 1 == k {
                                lemma_run_start_unique(s, g, a, st as int, b);
                            }
                        }
                    }
                }
            } else {
                proof {
                    assert forall|a: int, b: int|
                        #[trigger] is_run(s, g, a, b) && b - a >= min_steps && b + g + 1 < k + 1
                            implies r@.contains((a as usize, b as usize)) by {
                        if b + g + 1 == k {
                            if b >= st {
                                assert(s[last as int]);
                            } else {
                                assert(s[b]);
                            }
                        }
                    }
                }
            }
        } else {
            proof {
                assert forall|a: int, b: int|
                    #[trigger] is_run(s, g, a, b) && b - a >= min_steps && b + g + 1 < k + 1
                        implies r@.contains((a as usize, b as usize)) by {
                    if b + g + 1 == k {
                        assert(s[b]);
                    }
                }
            }
        }
        k = k + 1;
    }
    if open {
        proof {
            assert(is_run(s, g, st as int, last as int));
        }
        if (last - st) as u64 >= min_steps {
            let ghost r0 = r@;
            r.push((st, last));
            proof {
                assert forall|a: int, b: int|
                    #[trigger] is_run(s, g, a, b) && b - a >= min_steps implies r@.contains(
                    (a as usize, b as usize),
                ) by {
                    if b + g + 1 >= n {
                        if b < last {
                            assert(s[last as int]);
                        }
                        lemma_run_start_unique(s, g, a, st as int, b);
                        assert(r@[r@.len() - 1] == (st, last));
                    } else {
                        let q = choose|q: int| 0 <= q < r0.len() && r0[q] == (a as usize, b as usize);
                        assert(r@[q] == r0[q]);
                    }
                }
            }
        } else {
            proof {
                assert forall|a: int, b: int|
                    #[trigger] is_run(s, g, a, b) && b - a >= min_steps implies r@.contains(
                    (a as usize, b as usize),
                ) by {
                    if b + g + 1 >= n {
                        if b < last {
                            assert(s[last as int]);
                        }
                        lemma_run_start_unique(s, g, a, st as int, b);
                    }
                }
            }
        }
    } else {
        proof {
            assert forall|a: int, b: int|
                #[trigger] is_run(s, g, a, b) && b - a >= min_steps implies r@.contains(
                (a as usize, b as usize),
            ) by {
                if b + g + 1 >= n {
                    assert(s[b]);
                }
            }
        }
    }
    r
}

proof fn lemma_run_list_prefix(
    s: Seq<bool>,
    g: int,
    min_steps: int,
    r1: Seq<(usize, usize)>,
    r2: Seq<(usize, usize)>,
    k: int,
)
    requires
        is_run_list(s, g, min_steps, r1),
        is_run_list(s, g, min_steps, r2),
        0 <= k <= r1.len(),
        k <= r2.len(),
    ensures
        forall|j: int| 0 <= j < k ==> r1[j] == r2[j],
    decreases k,
{
    if k > 0 {
        let j = k - 1;
        lemma_run_list_prefix(s, g, min_steps, r1, r2, j);
        let a = r1[j];
        let b = r2[j];
        if a != b {
            assert(is_run(s, g, a.0 as int, a.1 as int));
            assert(is_run(s, g, b.0 as int, b.1 as int));
            assert(r2.contains(a));
            assert(r1.contains(b));
            let q = choose|q: int| 0 <= q < r2.len() && r2[q] == a;
            let p = choose|p: int| 0 <= p < r1.len() && r1[p] == b;
            if q < j {
                assert(r1[q] == r2[q]);
                assert(r1[q].1 < r1[j].0);
            }
            if p < j {
                assert(r2[p] == r1[p]);
                assert(r2[p].1 < r2[j].0);
            }
            if q > j && p > j {
                assert(r2[j].1 < r2[q].0);
                assert(r1[j].1 < r1[p].0);
            }
        }
    }
}

/// Law: the run list is determined by the support, the gap limit and the
/// minimum span: two lists that both are its runs are the same.
pub proof fn lemma_run_list_unique(
    s: Seq<bool>,
    g: int,
    min_steps: int,
    r1: Seq<(usize, usize)>,
    r2: Seq<(usize, usize)>,
)
    requires
        is_run_list(s, g, min_steps, r1),
        is_run_list(s, g, min_steps, r2),
    ensures
        r1 == r2,
{
    let m = if r1.len() <= r2.len() {
        r1.len() as int
    } else {
        r2.len() as int
    };
    lemma_run_list_prefix(s, g, min_steps, r1, r2, m);
    if r1.len() < r2.len() {
        let b = r2[m];
        assert(is_run(s, g, b.0 as int, b.1 as int));
        assert(r1.contains(b));
        let p = choose|p: int| 0 <= p < r1.len() && r1[p] == b;
        assert(r2[p] == r1[p]);
        assert(r2[p].1 < r2[m].0);
    } else if r2.len() < r1.len() {
        let a = r1[m];
        assert(is_run(s, g, a.0 as int, a.1 as int));
        assert(r2.contains(a));
        let q = choose|q: int| 0 <= q < r2.len() && r2[q] == a;
        assert(r1[q] == r2[q]);
        assert(r1[q].1 < r1[m].0);
    }
    assert(r1 =~= r2);
}

} // verus!
