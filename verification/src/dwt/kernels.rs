//! One-level 1-D DWT kernels on integer samples.
//!
//! The analysis kernels convolve a boundary-extended signal with the reversed low-pass
//! and high-pass filters and keep every second output; the synthesis kernels upsample
//! the two sub-bands and convolve them with the reversed synthesis filters, even and odd
//! samples taking alternate taps.  The periodic forms wrap the signal around and handle
//! an odd length by carrying the last sample over as the last approximation coefficient.
use crate::boundarys::{
    antireflect_parts, fits_i64, lemma_parts_match_extension, option_view, part_weight,
    parts_value, parts_view, value_or_zero, BoundaryCondition, BoundaryExtension,
    PeriodicBoundary,
};
use vstd::arithmetic::div_mod::{lemma_fundamental_div_mod, lemma_mod_bound};
use crate::dwt::outlen_spec;
use crate::lwt::steps::{lift_sum, lift_term};
use vstd::prelude::*;

verus! {

// ---------------------------------------------------------------------------------------
// Analysis
// ---------------------------------------------------------------------------------------
/// A filter read backwards, in the order its taps meet the signal: tap `t` of `f` is
/// `f[f.len() - 1 - t]`.
pub open spec fn taps(f: Seq<i64>) -> Seq<i64> {
    Seq::new(f.len(), |t: int| f[f.len() - 1 - t])
}

/// First (virtual) signal index read by output `k` of a non-periodic analysis with a
/// filter of `width` taps: `2 * (k - width / 4) - (width - 2) / 2`.
pub open spec fn window_start(width: int, k: int) -> int {
    2 * (k - width / 4) - (width - 2) / 2
}

/// Analysis output over the window starting at `start`:
/// `sum_{t < width} ext(x, start + t) * f[width - 1 - t]`, a `None` extension counting zero.
pub open spec fn analysis_value<B: BoundaryExtension>(
    bc: B,
    f: Seq<i64>,
    x: Seq<i64>,
    start: int,
) -> int {
    lift_sum(bc, taps(f), x, start, f.len())
}

/// Whether the analysis of the window starting at `start` with filter `f` reads only
/// extensions the boundary condition computes, and every product and partial sum is an
/// `i64`.
pub open spec fn analysis_ok<B: BoundaryExtension>(
    bc: B,
    f: Seq<i64>,
    x: Seq<i64>,
    start: int,
) -> bool {
    &&& forall|q: int| start <= q < start + f.len() ==> #[trigger] bc.get_bc_ok(x, q)
    &&& forall|t: int| 0 <= t < f.len() ==> fits_i64(#[trigger] lift_term(bc, taps(f), x, start, t))
    &&& forall|k: nat| k <= f.len() ==> fits_i64(#[trigger] lift_sum(bc, taps(f), x, start, k))
}

/// [`analysis_ok`] for both filters of a pair.
pub open spec fn analysis_pair_ok<B: BoundaryExtension>(
    bc: B,
    g: Seq<i64>,
    h: Seq<i64>,
    x: Seq<i64>,
    start: int,
) -> bool {
    analysis_ok(bc, g, x, start) && analysis_ok(bc, h, x, start)
}

/// Both analysis sums of the window starting at `start`.
fn analysis_window<B: BoundaryExtension>(g: &[i64], h: &[i64], x: &[i64], bc: &B, start: isize) -> (r: (
    i64,
    i64,
))
    requires
        h@.len() == g@.len(),
        g@.len() <= isize::MAX / 2,
        -g@.len() <= start,
        start + g@.len() <= isize::MAX,
        analysis_pair_ok(*bc, g@, h@, x@, start as int),
    ensures
        r.0 == analysis_value(*bc, g@, x@, start as int),
        r.1 == analysis_value(*bc, h@, x@, start as int),
{
    let width = g.len();
    let mut acc_s: i64 = 0;
    let mut acc_d: i64 = 0;
    let mut t: usize = 0;
    while t < width
        invariant
            t <= width,
            width == g@.len(),
            width == h@.len(),
            width <= isize::MAX / 2,
            -width <= start,
            start + width <= isize::MAX,
            analysis_pair_ok(*bc, g@, h@, x@, start as int),
            acc_s == lift_sum(*bc, taps(g@), x@, start as int, t as nat),
            acc_d == lift_sum(*bc, taps(h@), x@, start as int, t as nat),
        decreases width - t,
    {
        let idx = start + (t as isize);
        proof {
            assert(bc.get_bc_ok(x@, idx as int));
            assert(fits_i64(lift_term(*bc, taps(g@), x@, start as int, t as int)));
            assert(fits_i64(lift_term(*bc, taps(h@), x@, start as int, t as int)));
            assert(fits_i64(lift_sum(*bc, taps(g@), x@, start as int, (t + 1) as nat)));
            assert(fits_i64(lift_sum(*bc, taps(h@), x@, start as int, (t + 1) as nat)));
            assert(taps(g@)[t as int] == g@[width - 1 - t]);
            assert(taps(h@)[t as int] == h@[width - 1 - t]);
        }
        match bc.get_bc(x, idx) {
            Some(xo) => {
                proof {
                    assert(bc.extension(x@, start + t) == Some(xo as int));
                    assert(lift_term(*bc, taps(g@), x@, start as int, t as int) == xo * g@[width - 1 - t]);
                    assert(lift_term(*bc, taps(h@), x@, start as int, t as int) == xo * h@[width - 1 - t]);
                }
                acc_s = acc_s + xo * g[width - 1 - t];
                acc_d = acc_d + xo * h[width - 1 - t];
            },
            None => {
                proof {
                    assert(0 * (taps(g@)[t as int] as int) == 0);
                    assert(0 * (taps(h@)[t as int] as int) == 0);
                }
            },
        }
        t += 1;
    }
    (acc_s, acc_d)
}

/// Non-periodic forward DWT: output `k` of the approximation `s` (low-pass `g`) and of
/// the detail `d` (high-pass `h`) is the analysis sum over the boundary-extended window of
/// `x` starting at [`window_start`]`(width, k)`; both sub-bands have the length
/// [`crate::dwt::get_outlen`] gives for `x`.  Inside the signal the boundary conditions of
/// this library extend to the sample itself
/// ([`crate::boundarys::lemma_extension_in_range`]), so windows that lie inside `x` are
/// plain convolutions.
pub fn dwt_forward<B: BoundaryExtension>(
    g: &[i64],
    h: &[i64],
    x: &[i64],
    s: &mut [i64],
    d: &mut [i64],
    bc: &B,
)
    requires
        g@.len() >= 2,
        g@.len() % 2 == 0,
        h@.len() == g@.len(),
        x@.len() + 2 * g@.len() <= isize::MAX,
        x@.len() >= pair_shift(g@.len() as int),
        old(s)@.len() == outlen_spec(g@.len() as int, x@.len() as int),
        old(d)@.len() == old(s)@.len(),
        forall|k: int|
            0 <= k < old(s)@.len() ==> analysis_pair_ok(
                *bc,
                g@,
                h@,
                x@,
                #[trigger] window_start(g@.len() as int, k),
            ),
    ensures
        final(s)@.len() == old(s)@.len(),
        final(d)@.len() == old(d)@.len(),
        forall|k: int|
            0 <= k < old(s)@.len() ==> final(s)@[k] == analysis_value(
                *bc,
                g@,
                x@,
                #[trigger] window_start(g@.len() as int, k),
            ),
        forall|k: int|
            0 <= k < old(d)@.len() ==> final(d)@[k] == analysis_value(
                *bc,
                h@,
                x@,
                #[trigger] window_start(g@.len() as int, k),
            ),
{
    let width = g.len();
    let ns = s.len();
    let n_bcs = (width / 4) as isize;
    let offset = ((width - 2) / 2) as isize;
    let mut k: usize = 0;
    while k < ns
        invariant
            k <= ns,
            ns == s@.len(),
            ns == d@.len(),
            ns == old(s)@.len(),
            width == g@.len(),
            width == h@.len(),
            width >= 2,
            x@.len() + 2 * width <= isize::MAX,
            ns == outlen_spec(width as int, x@.len() as int),
            n_bcs == width / 4,
            offset == (width - 2) / 2,
            forall|k: int|
                0 <= k < ns ==> analysis_pair_ok(
                    *bc,
                    g@,
                    h@,
                    x@,
                    #[trigger] window_start(width as int, k),
                ),
            forall|j: int|
                0 <= j < k ==> s@[j] == analysis_value(
                    *bc,
                    g@,
                    x@,
                    #[trigger] window_start(width as int, j),
                ),
            forall|j: int|
                0 <= j < k ==> d@[j] == analysis_value(
                    *bc,
                    h@,
                    x@,
                    #[trigger] window_start(width as int, j),
                ),
        decreases ns - k,
    {
        let start = 2 * (k as isize - n_bcs) - offset;
        proof {
            assert(start == window_start(width as int, k as int));
            assert(analysis_pair_ok(*bc, g@, h@, x@, window_start(width as int, k as int)));
        }
        let (vs, vd) = analysis_window(g, h, x, bc, start);
        s[k] = vs;
        d[k] = vd;
        k += 1;
    }
}

/// Periodic forward DWT.  `s.len() + d.len() == x.len()` with `s.len() - d.len()` zero or
/// one; for an odd length the last sample becomes the last approximation coefficient and
/// the rest of the transform runs on the first `2 * d.len()` samples `x'`.  Output `i < d.len()`
/// is the analysis sum over the window of `x'`, wrapped around, starting at
/// `2 * i - (width - 2) / 2`.
pub fn dwt_per_forward(g: &[i64], h: &[i64], x: &[i64], s: &mut [i64], d: &mut [i64])
    requires
        g@.len() >= 2,
        g@.len() % 2 == 0,
        h@.len() == g@.len(),
        x@.len() + 2 * g@.len() <= isize::MAX,
        old(s)@.len() == old(d)@.len() || old(s)@.len() == old(d)@.len() + 1,
        x@.len() == old(s)@.len() + old(d)@.len(),
        x@.len() >= pair_shift(g@.len() as int),
        forall|i: int|
            0 <= i < old(d)@.len() ==> analysis_pair_ok(
                PeriodicBoundary,
                g@,
                h@,
                x@.subrange(0, 2 * (old(d)@.len() as int)),
                #[trigger] per_window_start(g@.len() as int, i),
            ),
    ensures
        final(s)@.len() == old(s)@.len(),
        final(d)@.len() == old(d)@.len(),
        old(s)@.len() > old(d)@.len() ==> final(s)@[old(s)@.len() - 1] == x@[x@.len() - 1],
        forall|i: int|
            0 <= i < old(d)@.len() ==> final(s)@[i] == analysis_value(
                PeriodicBoundary,
                g@,
                x@.subrange(0, 2 * (old(d)@.len() as int)),
                #[trigger] per_window_start(g@.len() as int, i),
            ),
        forall|i: int|
            0 <= i < old(d)@.len() ==> final(d)@[i] == analysis_value(
                PeriodicBoundary,
                h@,
                x@.subrange(0, 2 * (old(d)@.len() as int)),
                #[trigger] per_window_start(g@.len() as int, i),
            ),
{
    let width = g.len();
    let nx = x.len();
    let ns = s.len();
    let nd = d.len();
    if ns > nd {
        s[ns - 1] = x[nx - 1];
    }
    if nd == 0 {
        return;
    }
    let (xp, _) = x.split_at(2 * nd);
    let offset = ((width - 2) / 2) as isize;
    let ghost s0 = s@;
    let mut i: usize = 0;
    while i < nd
        invariant
            i <= nd,
            nd == d@.len(),
            nd == old(d)@.len(),
            ns == s@.len(),
            ns == old(s)@.len(),
            nd <= ns,
            ns > nd ==> s@[ns - 1] == x@[nx - 1],
            nx == x@.len(),
            nx == ns + nd,
            width == g@.len(),
            width == h@.len(),
            width >= 2,
            x@.len() + 2 * width <= isize::MAX,
            offset == (width - 2) / 2,
            xp@ == x@.subrange(0, 2 * nd as int),
            forall|i: int|
                0 <= i < nd ==> analysis_pair_ok(
                    PeriodicBoundary,
                    g@,
                    h@,
                    xp@,
                    #[trigger] per_window_start(width as int, i),
                ),
            forall|j: int|
                0 <= j < i ==> s@[j] == analysis_value(
                    PeriodicBoundary,
                    g@,
                    xp@,
                    #[trigger] per_window_start(width as int, j),
                ),
            forall|j: int|
                0 <= j < i ==> d@[j] == analysis_value(
                    PeriodicBoundary,
                    h@,
                    xp@,
                    #[trigger] per_window_start(width as int, j),
                ),
        decreases nd - i,
    {
        let start = 2 * (i as isize) - offset;
        proof {
            assert(start == per_window_start(width as int, i as int));
            assert(analysis_pair_ok(
                PeriodicBoundary,
                g@,
                h@,
                xp@,
                per_window_start(width as int, i as int),
            ));
        }
        let (vs, vd) = analysis_window(g, h, xp, &PeriodicBoundary, start);
        s[i] = vs;
        d[i] = vd;
        i += 1;
    }
}

/// First signal index read by output `i` of a periodic analysis with a filter of `width`
/// taps: `2 * i - (width - 2) / 2`.
pub open spec fn per_window_start(width: int, i: int) -> int {
    2 * i - (width - 2) / 2
}

// ---------------------------------------------------------------------------------------
// Synthesis
// ---------------------------------------------------------------------------------------
/// Whether the odd-offset filters shift the sample pairs of a synthesis by one:
/// `((width - 2) / 2) % 2`.
pub open spec fn pair_shift(width: int) -> int {
    ((width - 2) / 2) % 2
}

/// Which taps sample `p` of a synthesis takes: `(p - pair_shift) mod 2`; parity `0` takes
/// the taps `width - 2 - 2c`, parity `1` the taps `width - 1 - 2c`.
pub open spec fn synthesis_parity(width: int, p: int) -> int {
    (p - pair_shift(width)) % 2
}

/// First sub-band coefficient read by sample `p` of a non-periodic synthesis:
/// `pair_shift + floor((p - pair_shift) / 2)`.
pub open spec fn synthesis_start(width: int, p: int) -> int {
    pair_shift(width) + (p - pair_shift(width)) / 2
}

/// First sub-band coefficient read by sample `p` of a periodic synthesis, before wrapping:
/// `floor((p - pair_shift) / 2) - (width / 4 - pair_shift)`.
pub open spec fn per_synthesis_start(width: int, p: int) -> int {
    (p - pair_shift(width)) / 2 - (width / 4 - pair_shift(width))
}

/// Term `c` of a synthesis window starting at coefficient `start` with parity `e`:
/// `s[j] * gi[width - 2 + e - 2c] + d[j] * hi[width - 2 + e - 2c]` with
/// `j = (start + c) mod s.len()`.
pub open spec fn synthesis_term(
    gi: Seq<i64>,
    hi: Seq<i64>,
    s: Seq<i64>,
    d: Seq<i64>,
    start: int,
    e: int,
    c: int,
) -> int {
    let j = (start + c) % (s.len() as int);
    let t = gi.len() - 2 + e - 2 * c;
    s[j] * gi[t] + d[j] * hi[t]
}

/// Sum of the first `k` terms of a synthesis window.
pub open spec fn synthesis_sum(
    gi: Seq<i64>,
    hi: Seq<i64>,
    s: Seq<i64>,
    d: Seq<i64>,
    start: int,
    e: int,
    k: nat,
) -> int
    decreases k,
{
    if k == 0 {
        0
    } else {
        synthesis_sum(gi, hi, s, d, start, e, (k - 1) as nat) + synthesis_term(
            gi,
            hi,
            s,
            d,
            start,
            e,
            k - 1,
        )
    }
}

/// A synthesised sample: the sum of the `width / 2` terms of its window.
pub open spec fn synthesis_value(
    gi: Seq<i64>,
    hi: Seq<i64>,
    s: Seq<i64>,
    d: Seq<i64>,
    start: int,
    e: int,
) -> int {
    synthesis_sum(gi, hi, s, d, start, e, gi.len() / 2)
}

/// Whether both products of term `c` and their sum are `i64` values.
pub open spec fn synthesis_term_fits(
    gi: Seq<i64>,
    hi: Seq<i64>,
    s: Seq<i64>,
    d: Seq<i64>,
    start: int,
    e: int,
    c: int,
) -> bool {
    let j = (start + c) % (s.len() as int);
    let t = gi.len() - 2 + e - 2 * c;
    &&& fits_i64(s[j] * gi[t])
    &&& fits_i64(d[j] * hi[t])
    &&& fits_i64(synthesis_term(gi, hi, s, d, start, e, c))
}

/// Whether every term and partial sum of a synthesis window is an `i64` value.
pub open spec fn synthesis_ok(
    gi: Seq<i64>,
    hi: Seq<i64>,
    s: Seq<i64>,
    d: Seq<i64>,
    start: int,
    e: int,
) -> bool {
    &&& forall|c: int|
        0 <= c < gi.len() / 2 ==> #[trigger] synthesis_term_fits(gi, hi, s, d, start, e, c)
    &&& forall|k: nat|
        k <= gi.len() / 2 ==> fits_i64(#[trigger] synthesis_sum(gi, hi, s, d, start, e, k))
}

/// `j mod n` for a non-empty length `n`.
fn wrap_index(j: isize, n: usize) -> (r: usize)
    requires
        0 < n <= isize::MAX,
    ensures
        r == (j as int) % (n as int),
        r < n,
{
    let r = match j.checked_rem_euclid(n as isize) {
        Some(v) => v,
        None => 0,
    };
    r as usize
}

/// One synthesised sample: the sum of the terms of the window starting at `start` with
/// parity `e`.
fn synthesis_window(gi: &[i64], hi: &[i64], s: &[i64], d: &[i64], start: isize, e: usize) -> (r:
    i64)
    requires
        gi@.len() >= 2,
        gi@.len() % 2 == 0,
        hi@.len() == gi@.len(),
        gi@.len() <= isize::MAX / 2,
        0 < s@.len() <= isize::MAX,
        d@.len() == s@.len(),
        e < 2,
        -gi@.len() <= start,
        start + gi@.len() <= isize::MAX,
        synthesis_ok(gi@, hi@, s@, d@, start as int, e as int),
    ensures
        r == synthesis_value(gi@, hi@, s@, d@, start as int, e as int),
{
    let width = gi.len();
    let nh = width / 2;
    let n = s.len();
    let mut acc: i64 = 0;
    let mut c: usize = 0;
    while c < nh
        invariant
            c <= nh,
            nh == width / 2,
            width == gi@.len(),
            width == hi@.len(),
            width >= 2,
            width % 2 == 0,
            width <= isize::MAX / 2,
            n == s@.len(),
            n == d@.len(),
            0 < n <= isize::MAX,
            e < 2,
            -width <= start,
            start + width <= isize::MAX,
            synthesis_ok(gi@, hi@, s@, d@, start as int, e as int),
            acc == synthesis_sum(gi@, hi@, s@, d@, start as int, e as int, c as nat),
        decreases nh - c,
    {
        let j = wrap_index(start + c as isize, n);
        let t = width - 2 + e - 2 * c;
        proof {
            assert(synthesis_term_fits(gi@, hi@, s@, d@, start as int, e as int, c as int));
            assert(fits_i64(synthesis_sum(gi@, hi@, s@, d@, start as int, e as int, (c + 1) as nat)));
        }
        acc = acc + (s[j] * gi[t] + d[j] * hi[t]);
        c += 1;
    }
    acc
}

/// The windows of a non-periodic synthesis lie inside sub-bands of the length
/// [`crate::dwt::get_outlen`] gives.
proof fn lemma_synthesis_window_inside(width: int, nx: int, p: int)
    requires
        width >= 2,
        width % 2 == 0,
        0 <= p < nx,
    ensures
        0 <= synthesis_start(width, p),
        synthesis_start(width, p) + width / 2 <= outlen_spec(width, nx),
        0 <= synthesis_parity(width, p) < 2,
{
}

/// Non-periodic inverse DWT: sample `p` of `x` is the synthesis sum over the window of
/// `s` and `d` starting at [`synthesis_start`]`(width, p)` with parity
/// [`synthesis_parity`]`(width, p)`; that window lies inside the sub-bands.
pub fn dwt_inverse(gi: &[i64], hi: &[i64], s: &[i64], d: &[i64], x: &mut [i64])
    requires
        gi@.len() >= 2,
        gi@.len() % 2 == 0,
        hi@.len() == gi@.len(),
        old(x)@.len() + 2 * gi@.len() <= isize::MAX,
        old(x)@.len() >= pair_shift(gi@.len() as int),
        s@.len() == outlen_spec(gi@.len() as int, old(x)@.len() as int),
        d@.len() == s@.len(),
        forall|p: int|
            0 <= p < old(x)@.len() ==> synthesis_ok(
                gi@,
                hi@,
                s@,
                d@,
                #[trigger] synthesis_start(gi@.len() as int, p),
                synthesis_parity(gi@.len() as int, p),
            ),
    ensures
        final(x)@.len() == old(x)@.len(),
        forall|p: int|
            0 <= p < old(x)@.len() ==> 0 <= #[trigger] synthesis_start(gi@.len() as int, p)
                && synthesis_start(gi@.len() as int, p) + gi@.len() / 2 <= s@.len()
                && final(x)@[p] == synthesis_value(
                gi@,
                hi@,
                s@,
                d@,
                synthesis_start(gi@.len() as int, p),
                synthesis_parity(gi@.len() as int, p),
            ),
{
    let width = gi.len();
    let nx = x.len();
    let ps = ((width - 2) / 2) % 2;
    let mut p: usize = 0;
    while p < nx
        invariant
            p <= nx,
            nx == x@.len(),
            nx == old(x)@.len(),
            width == gi@.len(),
            width == hi@.len(),
            width >= 2,
            width % 2 == 0,
            nx + 2 * width <= isize::MAX,
            ps == pair_shift(width as int),
            s@.len() == outlen_spec(width as int, nx as int),
            d@.len() == s@.len(),
            forall|p: int|
                0 <= p < nx ==> synthesis_ok(
                    gi@,
                    hi@,
                    s@,
                    d@,
                    #[trigger] synthesis_start(width as int, p),
                    synthesis_parity(width as int, p),
                ),
            forall|q: int|
                0 <= q < p ==> 0 <= #[trigger] synthesis_start(width as int, q)
                    && synthesis_start(width as int, q) + width / 2 <= s@.len()
                    && x@[q] == synthesis_value(
                    gi@,
                    hi@,
                    s@,
                    d@,
                    synthesis_start(width as int, q),
                    synthesis_parity(width as int, q),
                ),
        decreases nx - p,
    {
        let (st, e) = if p < ps {
            (0usize, 1usize)
        } else {
            (ps + (p - ps) / 2, (p - ps) % 2)
        };
        proof {
            lemma_synthesis_window_inside(width as int, nx as int, p as int);
            assert(st == synthesis_start(width as int, p as int));
            assert(e == synthesis_parity(width as int, p as int));
        }
        let v = synthesis_window(gi, hi, s, d, st as isize, e);
        x[p] = v;
        p += 1;
    }
}

/// Periodic inverse DWT.  `s.len() + d.len() == x.len()` with `s.len() - d.len()` zero or
/// one; for an odd length the last approximation coefficient becomes the last sample and
/// the rest runs on the first `d.len()` coefficients `s'` of `s`.  Sample `p < 2 * d.len()`
/// is the synthesis sum over the window of `s'` and `d`, wrapped around, starting at
/// [`per_synthesis_start`]`(width, p)` with parity [`synthesis_parity`]`(width, p)`.
pub fn dwt_per_inverse(gi: &[i64], hi: &[i64], s: &[i64], d: &[i64], x: &mut [i64])
    requires
        gi@.len() >= 2,
        gi@.len() % 2 == 0,
        hi@.len() == gi@.len(),
        old(x)@.len() + 2 * gi@.len() <= isize::MAX,
        s@.len() == d@.len() || s@.len() == d@.len() + 1,
        old(x)@.len() == s@.len() + d@.len(),
        old(x)@.len() >= pair_shift(gi@.len() as int),
        forall|p: int|
            0 <= p < 2 * d@.len() ==> synthesis_ok(
                gi@,
                hi@,
                s@.subrange(0, d@.len() as int),
                d@,
                #[trigger] per_synthesis_start(gi@.len() as int, p),
                synthesis_parity(gi@.len() as int, p),
            ),
    ensures
        final(x)@.len() == old(x)@.len(),
        s@.len() > d@.len() ==> final(x)@[old(x)@.len() - 1] == s@[s@.len() - 1],
        forall|p: int|
            0 <= p < 2 * d@.len() ==> final(x)@[p] == synthesis_value(
                gi@,
                hi@,
                s@.subrange(0, d@.len() as int),
                d@,
                #[trigger] per_synthesis_start(gi@.len() as int, p),
                synthesis_parity(gi@.len() as int, p),
            ),
{
    let width = gi.len();
    let nx = x.len();
    let ns = s.len();
    let nd = d.len();
    if ns > nd {
        x[nx - 1] = s[ns - 1];
    }
    if nd == 0 {
        return;
    }
    let (sp, _) = s.split_at(nd);
    let ps = ((width - 2) / 2) % 2;
    let n_wrap = (width / 4 - ps) as isize;
    let mut p: usize = 0;
    while p < 2 * nd
        invariant
            p <= 2 * nd,
            0 < nd,
            nd == d@.len(),
            ns == s@.len(),
            nx == x@.len(),
            nx == old(x)@.len(),
            nx == ns + nd,
            nd <= ns,
            ns > nd ==> x@[nx - 1] == s@[ns - 1],
            width == gi@.len(),
            width == hi@.len(),
            width >= 2,
            width % 2 == 0,
            nx + 2 * width <= isize::MAX,
            ps == pair_shift(width as int),
            n_wrap == width / 4 - ps,
            sp@ == s@.subrange(0, nd as int),
            forall|p: int|
                0 <= p < 2 * nd ==> synthesis_ok(
                    gi@,
                    hi@,
                    sp@,
                    d@,
                    #[trigger] per_synthesis_start(width as int, p),
                    synthesis_parity(width as int, p),
                ),
            forall|q: int|
                0 <= q < p ==> x@[q] == synthesis_value(
                    gi@,
                    hi@,
                    sp@,
                    d@,
                    #[trigger] per_synthesis_start(width as int, q),
                    synthesis_parity(width as int, q),
                ),
        decreases 2 * nd - p,
    {
        let (m, e) = if p < ps {
            (-1isize, 1usize)
        } else {
            (((p - ps) / 2) as isize, (p - ps) % 2)
        };
        let start = m - n_wrap;
        proof {
            assert(start == per_synthesis_start(width as int, p as int));
            assert(e == synthesis_parity(width as int, p as int));
        }
        let v = synthesis_window(gi, hi, sp, d, start, e);
        x[p] = v;
        p += 1;
    }
}

// ---------------------------------------------------------------------------------------
// Adjoint of the analysis
// ---------------------------------------------------------------------------------------
/// Total weight with which a weighted index list reads sample `j` (an entry without a
/// weight reads it once).
pub open spec fn parts_weight_at(parts: Seq<(Option<int>, int)>, j: int) -> int
    decreases parts.len(),
{
    if parts.len() == 0 {
        0
    } else {
        parts_weight_at(parts.drop_last(), j) + if parts.last().1 == j {
            part_weight(parts.last().0)
        } else {
            0
        }
    }
}

/// What output `pos` sends back through tap `k`: `s[pos] * g_k + d[pos] * h_k`, with the
/// taps in convolution order.
pub open spec fn adjoint_coef(
    g: Seq<i64>,
    h: Seq<i64>,
    s: Seq<i64>,
    d: Seq<i64>,
    pos: int,
    k: int,
) -> int {
    s[pos] * taps(g)[k] + d[pos] * taps(h)[k]
}

/// Share of sample `j` of a length-`n` signal in what output `pos` sends back through tap
/// `k`: the coefficient times the weight with which the extended index of that tap reads
/// sample `j`.
pub open spec fn adjoint_term<B: BoundaryExtension>(
    bc: B,
    g: Seq<i64>,
    h: Seq<i64>,
    s: Seq<i64>,
    d: Seq<i64>,
    n: int,
    j: int,
    pos: int,
    k: int,
) -> int {
    adjoint_coef(g, h, s, d, pos, k) * parts_weight_at(
        bc.parts(n, window_start(g.len() as int, pos) + k),
        j,
    )
}

/// Sum of the shares of sample `j` over the first `kk` taps of output `pos`.
pub open spec fn adjoint_taps_sum<B: BoundaryExtension>(
    bc: B,
    g: Seq<i64>,
    h: Seq<i64>,
    s: Seq<i64>,
    d: Seq<i64>,
    n: int,
    j: int,
    pos: int,
    kk: nat,
) -> int
    decreases kk,
{
    if kk == 0 {
        0
    } else {
        adjoint_taps_sum(bc, g, h, s, d, n, j, pos, (kk - 1) as nat) + adjoint_term(
            bc,
            g,
            h,
            s,
            d,
            n,
            j,
            pos,
            kk - 1,
        )
    }
}

/// Sample `j` of the adjoint over the first `pp` outputs: the transpose of the analysis,
/// `sum_{pos < pp} sum_{k < width} (s[pos] g_k + d[pos] h_k) * w(pos, k, j)`, where
/// `w(pos, k, j)` is the weight with which the extended index read by tap `k` of output
/// `pos` reads sample `j`.
pub open spec fn adjoint_value<B: BoundaryExtension>(
    bc: B,
    g: Seq<i64>,
    h: Seq<i64>,
    s: Seq<i64>,
    d: Seq<i64>,
    n: int,
    j: int,
    pp: nat,
) -> int
    decreases pp,
{
    if pp == 0 {
        0
    } else {
        adjoint_value(bc, g, h, s, d, n, j, (pp - 1) as nat) + adjoint_taps_sum(
            bc,
            g,
            h,
            s,
            d,
            n,
            j,
            pp - 1,
            g.len(),
        )
    }
}

/// Whether scattering what output `pos` sends back through tap `k` stays inside the
/// signal and every product and running sum is an `i64`.
pub open spec fn adjoint_step_ok<B: BoundaryExtension>(
    bc: B,
    g: Seq<i64>,
    h: Seq<i64>,
    s: Seq<i64>,
    d: Seq<i64>,
    n: int,
    pos: int,
    k: int,
) -> bool {
    let c = adjoint_coef(g, h, s, d, pos, k);
    let q = window_start(g.len() as int, pos) + k;
    let parts = bc.parts(n, q);
    &&& fits_i64(s[pos] * taps(g)[k])
    &&& fits_i64(d[pos] * taps(h)[k])
    &&& fits_i64(c)
    &&& bc.get_parts_ok(n, q)
    &&& forall|i: int|
        0 <= i < parts.len() ==> 0 <= #[trigger] parts[i].1 < n && fits_i64(
            c * part_weight(parts[i].0),
        )
    &&& forall|i: int, j: int|
        0 <= i <= parts.len() && 0 <= j < n ==> fits_i64(
            adjoint_value(bc, g, h, s, d, n, j, pos as nat) + adjoint_taps_sum(
                bc,
                g,
                h,
                s,
                d,
                n,
                j,
                pos,
                k as nat,
            ) + c * #[trigger] parts_weight_at(parts.take(i), j),
        )
}

/// Adjoint (transpose) of the non-periodic forward DWT: `x` is cleared, then what each
/// output `pos` of `s` and `d` sends back through each tap `k` is scattered onto the
/// samples through the weighted index list of the extended index the tap reads.  Sample
/// `j` ends as [`adjoint_value`] over all outputs.
pub fn dwt_adjoint_forward<B: BoundaryExtension>(
    g: &[i64],
    h: &[i64],
    s: &[i64],
    d: &[i64],
    x: &mut [i64],
    bc: &B,
)
    requires
        g@.len() >= 2,
        g@.len() % 2 == 0,
        h@.len() == g@.len(),
        old(x)@.len() + 2 * g@.len() <= isize::MAX,
        s@.len() == outlen_spec(g@.len() as int, old(x)@.len() as int),
        d@.len() == s@.len(),
        forall|pos: int, k: int|
            0 <= pos < s@.len() && 0 <= k < g@.len() ==> #[trigger] adjoint_step_ok(
                *bc,
                g@,
                h@,
                s@,
                d@,
                old(x)@.len() as int,
                pos,
                k,
            ),
    ensures
        final(x)@.len() == old(x)@.len(),
        forall|j: int|
            0 <= j < old(x)@.len() ==> final(x)@[j] == adjoint_value(
                *bc,
                g@,
                h@,
                s@,
                d@,
                old(x)@.len() as int,
                j,
                s@.len(),
            ),
{
    let width = g.len();
    let nx = x.len();
    let ns = s.len();
    let n_bcs = (width / 4) as isize;
    let offset = ((width - 2) / 2) as isize;
    let mut j: usize = 0;
    while j < nx
        invariant
            j <= nx,
            nx == x@.len(),
            forall|q: int| 0 <= q < j ==> x@[q] == 0,
        decreases nx - j,
    {
        x[j] = 0;
        j += 1;
    }
    let mut pos: usize = 0;
    while pos < ns
        invariant
            pos <= ns,
            ns == s@.len(),
            ns == d@.len(),
            nx == x@.len(),
            nx == old(x)@.len(),
            width == g@.len(),
            width == h@.len(),
            width >= 2,
            nx + 2 * width <= isize::MAX,
            ns == outlen_spec(width as int, nx as int),
            n_bcs == width / 4,
            offset == (width - 2) / 2,
            forall|pos: int, k: int|
                0 <= pos < ns && 0 <= k < width ==> #[trigger] adjoint_step_ok(
                    *bc,
                    g@,
                    h@,
                    s@,
                    d@,
                    nx as int,
                    pos,
                    k,
                ),
            forall|q: int|
                0 <= q < nx ==> x@[q] == adjoint_value(
                    *bc,
                    g@,
                    h@,
                    s@,
                    d@,
                    nx as int,
                    q,
                    pos as nat,
                ),
        decreases ns - pos,
    {
        let ix = 2 * (pos as isize - n_bcs) - offset;
        proof {
            assert(ix == window_start(width as int, pos as int));
        }
        let mut k: usize = 0;
        while k < width
            invariant
                k <= width,
                pos < ns,
                ns == s@.len(),
                ns == d@.len(),
                nx == x@.len(),
                width == g@.len(),
                width == h@.len(),
                width >= 2,
                nx + 2 * width <= isize::MAX,
                ns == outlen_spec(width as int, nx as int),
                ix == window_start(width as int, pos as int),
                forall|pos: int, k: int|
                    0 <= pos < ns && 0 <= k < width ==> #[trigger] adjoint_step_ok(
                        *bc,
                        g@,
                        h@,
                        s@,
                        d@,
                        nx as int,
                        pos,
                        k,
                    ),
                forall|q: int|
                    0 <= q < nx ==> x@[q] == adjoint_value(
                        *bc,
                        g@,
                        h@,
                        s@,
                        d@,
                        nx as int,
                        q,
                        pos as nat,
                    ) + adjoint_taps_sum(*bc, g@, h@, s@, d@, nx as int, q, pos as int, k as nat),
            decreases width - k,
        {
            proof {
                assert(adjoint_step_ok(*bc, g@, h@, s@, d@, nx as int, pos as int, k as int));
                assert(taps(g@)[k as int] == g@[width - 1 - k]);
                assert(taps(h@)[k as int] == h@[width - 1 - k]);
            }
            let c = s[pos] * g[width - 1 - k] + d[pos] * h[width - 1 - k];
            let parts = bc.get_parts(nx, ix + k as isize);
            let ghost pv = parts_view(parts@);
            let ghost q0 = window_start(width as int, pos as int) + k;
            let mut i: usize = 0;
            while i < parts.len()
                invariant
                    i <= parts@.len(),
                    pv == parts_view(parts@),
                    pv == bc.parts(nx as int, q0),
                    q0 == window_start(width as int, pos as int) + k,
                    c == adjoint_coef(g@, h@, s@, d@, pos as int, k as int),
                    pos < ns,
                    k < width,
                    nx == x@.len(),
                    width == g@.len(),
                    adjoint_step_ok(*bc, g@, h@, s@, d@, nx as int, pos as int, k as int),
                    forall|q: int|
                        0 <= q < nx ==> x@[q] == adjoint_value(
                            *bc,
                            g@,
                            h@,
                            s@,
                            d@,
                            nx as int,
                            q,
                            pos as nat,
                        ) + adjoint_taps_sum(
                            *bc,
                            g@,
                            h@,
                            s@,
                            d@,
                            nx as int,
                            q,
                            pos as int,
                            k as nat,
                        ) + c * parts_weight_at(pv.take(i as int), q),
                decreases parts@.len() - i,
            {
                let (w, jj) = parts[i];
                proof {
                    assert(pv[i as int] == (option_view(w), jj as int));
                    assert(0 <= pv[i as int].1 < nx);
                    assert(pv.take(i + 1).drop_last() =~= pv.take(i as int));
                    assert(pv.take(i + 1).last() == pv[i as int]);
                    assert forall|q: int| 0 <= q < nx implies c * parts_weight_at(pv.take(i + 1), q)
                        == c * parts_weight_at(pv.take(i as int), q) + if q == jj {
                        c * part_weight(option_view(w))
                    } else {
                        0
                    } by {
                        let a = parts_weight_at(pv.take(i as int), q);
                        let b = if q == jj {
                            part_weight(option_view(w))
                        } else {
                            0
                        };
                        assert(parts_weight_at(pv.take(i + 1), q) == a + b);
                        assert(c * (a + b) == c * a + c * b) by (nonlinear_arith);
                        if q != jj {
                            assert(c * b == 0) by (nonlinear_arith)
                                requires
                                    b == 0,
                            ;
                        }
                    }
                    assert(fits_i64(c * part_weight(pv[i as int].0)));
                    assert(fits_i64(
                        adjoint_value(*bc, g@, h@, s@, d@, nx as int, jj as int, pos as nat)
                            + adjoint_taps_sum(
                            *bc,
                            g@,
                            h@,
                            s@,
                            d@,
                            nx as int,
                            jj as int,
                            pos as int,
                            k as nat,
                        ) + c * parts_weight_at(pv.take(i + 1), jj as int),
                    ));
                }
                let v = match w {
                    Some(wv) => c * wv,
                    None => c,
                };
                x[jj] = x[jj] + v;
                i += 1;
            }
            proof {
                assert(pv.take(parts@.len() as int) =~= pv);
                assert forall|q: int| 0 <= q < nx implies x@[q] == adjoint_value(
                    *bc,
                    g@,
                    h@,
                    s@,
                    d@,
                    nx as int,
                    q,
                    pos as nat,
                ) + adjoint_taps_sum(
                    *bc,
                    g@,
                    h@,
                    s@,
                    d@,
                    nx as int,
                    q,
                    pos as int,
                    (k + 1) as nat,
                ) by {
                    assert(adjoint_term(*bc, g@, h@, s@, d@, nx as int, q, pos as int, k as int)
                        == c * parts_weight_at(pv, q));
                }
            }
            k += 1;
        }
        pos += 1;
    }
}

// ---------------------------------------------------------------------------------------
// The adjoint is the transpose of the analysis
// ---------------------------------------------------------------------------------------
/// `f(0) + f(1) + ... + f(n - 1)`.
pub open spec fn sum_to(f: spec_fn(int) -> int, n: nat) -> int
    decreases n,
{
    if n == 0 {
        0
    } else {
        sum_to(f, (n - 1) as nat) + f(n - 1)
    }
}

/// Pairing of the analysis of `x` with the sub-bands `s` and `d` over the first `m`
/// outputs: `sum_{k < m} S[k] * s[k] + D[k] * d[k]`, where `S` and `D` are the outputs of
/// [`dwt_forward`] on `x`.
pub open spec fn analysis_pairing<B: BoundaryExtension>(
    bc: B,
    g: Seq<i64>,
    h: Seq<i64>,
    x: Seq<i64>,
    s: Seq<i64>,
    d: Seq<i64>,
    m: nat,
) -> int
    decreases m,
{
    if m == 0 {
        0
    } else {
        let k = m - 1;
        let start = window_start(g.len() as int, k);
        analysis_pairing(bc, g, h, x, s, d, (m - 1) as nat) + analysis_value(bc, g, x, start) * s[k]
            + analysis_value(bc, h, x, start) * d[k]
    }
}

/// Pairing of `x` with the adjoint of the sub-bands `s` and `d`:
/// `sum_{j < x.len()} x[j] * X[j]`, where `X` is the output of [`dwt_adjoint_forward`].
pub open spec fn adjoint_pairing<B: BoundaryExtension>(
    bc: B,
    g: Seq<i64>,
    h: Seq<i64>,
    x: Seq<i64>,
    s: Seq<i64>,
    d: Seq<i64>,
) -> int {
    sum_to(|j: int| x[j] * adjoint_value(bc, g, h, s, d, x.len() as int, j, s.len()), x.len())
}

proof fn lemma_sum_ext(f: spec_fn(int) -> int, g: spec_fn(int) -> int, n: nat)
    requires
        forall|j: int| 0 <= j < n ==> #[trigger] f(j) == g(j),
    ensures
        sum_to(f, n) == sum_to(g, n),
    decreases n,
{
    if n > 0 {
        lemma_sum_ext(f, g, (n - 1) as nat);
    }
}

proof fn lemma_sum_add(f: spec_fn(int) -> int, g: spec_fn(int) -> int, n: nat)
    ensures
        sum_to(|j: int| f(j) + g(j), n) == sum_to(f, n) + sum_to(g, n),
    decreases n,
{
    if n > 0 {
        lemma_sum_add(f, g, (n - 1) as nat);
    }
}

proof fn lemma_sum_scale(c: int, f: spec_fn(int) -> int, n: nat)
    ensures
        sum_to(|j: int| c * f(j), n) == c * sum_to(f, n),
    decreases n,
{
    if n > 0 {
        lemma_sum_scale(c, f, (n - 1) as nat);
        let a = sum_to(f, (n - 1) as nat);
        let b = f(n - 1);
        assert(c * (a + b) == c * a + c * b) by (nonlinear_arith);
    }
}

proof fn lemma_sum_delta(a: int, v: int, n: nat)
    ensures
        sum_to(|j: int| if j == a { v } else { 0 }, n) == if 0 <= a < n {
            v
        } else {
            0
        },
    decreases n,
{
    if n > 0 {
        lemma_sum_delta(a, v, (n - 1) as nat);
    }
}

/// Summing the weights a weighted index list gives each sample, times the sample, gives
/// the weighted sum the list describes.
proof fn lemma_sum_parts(parts: Seq<(Option<int>, int)>, x: Seq<i64>)
    requires
        forall|k: int| 0 <= k < parts.len() ==> 0 <= #[trigger] parts[k].1 < x.len(),
    ensures
        sum_to(|j: int| parts_weight_at(parts, j) * x[j], x.len()) == parts_value(parts, x),
    decreases parts.len(),
{
    let n = x.len();
    if parts.len() == 0 {
        lemma_sum_scale(0, |j: int| x[j] as int, n);
        lemma_sum_ext(
            |j: int| parts_weight_at(parts, j) * x[j],
            |j: int| 0 * (|j: int| x[j] as int)(j),
            n,
        );
    } else {
        let dl = parts.drop_last();
        let a = parts.last().1;
        let wt = part_weight(parts.last().0);
        assert forall|k: int| 0 <= k < dl.len() implies 0 <= #[trigger] dl[k].1 < x.len() by {
            assert(dl[k] == parts[k]);
        }
        lemma_sum_parts(dl, x);
        assert(parts[parts.len() - 1] == parts.last());
        let f1 = |j: int| parts_weight_at(dl, j) * x[j];
        let f2 = |j: int| if j == a { wt * x[a] } else { 0 };
        assert forall|j: int| 0 <= j < n implies parts_weight_at(parts, j) * x[j] == f1(j) + f2(
            j,
        ) by {
            let p = parts_weight_at(dl, j);
            let e = if j == a {
                wt
            } else {
                0
            };
            assert(parts_weight_at(parts, j) == p + e);
            let xj = x[j] as int;
            assert((p + e) * xj == p * xj + e * xj) by (nonlinear_arith);
        }
        lemma_sum_ext(|j: int| parts_weight_at(parts, j) * x[j], |j: int| f1(j) + f2(j), n);
        lemma_sum_add(f1, f2, n);
        lemma_sum_delta(a, wt * x[a], n);
    }
}

/// Euclidean quotient and remainder of `x` by a positive `d`.
proof fn lemma_divmod(x: int, d: int)
    requires
        d > 0,
    ensures
        x == d * (x / d) + x % d,
        0 <= x % d < d,
{
    lemma_fundamental_div_mod(x, d);
    lemma_mod_bound(x, d);
}

/// Every index of a weighted index list of a boundary condition lies inside the signal.
proof fn lemma_parts_in_range(bc: BoundaryCondition, n: int, i: int)
    requires
        n >= 0,
    ensures
        forall|k: int|
            0 <= k < bc.parts(n, i).len() ==> 0 <= #[trigger] bc.parts(n, i)[k].1 < n,
{
    if n <= 0 {
        return;
    }
    match bc {
        BoundaryCondition::Periodic => {
            lemma_divmod(i, n);
        },
        BoundaryCondition::Symmetric => {
            lemma_divmod(i, 2 * n);
        },
        BoundaryCondition::Antisymmetric => {
            lemma_divmod(i, 2 * n);
        },
        BoundaryCondition::Reflect => {
            if n >= 2 {
                lemma_divmod(i, 2 * (n - 1));
            }
        },
        BoundaryCondition::Antireflect => {
            if n >= 2 {
                let m = n - 1;
                if i > m {
                    lemma_divmod(i - 1, 2 * m);
                } else if i < 0 {
                    lemma_divmod(-i - 1, 2 * m);
                }
                let p = antireflect_parts(n, i);
                assert(0 <= p.0 < n);
                let parts = bc.parts(n, i);
                assert forall|k: int| 0 <= k < parts.len() implies 0 <= #[trigger] parts[k].1 < n by {
                    let first: Seq<(Option<int>, int)> = if p.2 != 0 {
                        seq![(Some(p.2), 0)]
                    } else {
                        seq![]
                    };
                    let last: Seq<(Option<int>, int)> = if p.3 != 0 {
                        seq![(Some(p.3), n - 1)]
                    } else {
                        seq![]
                    };
                    let c: Seq<(Option<int>, int)> = seq![
                        (if p.1 < 0 {
                            Some(-1)
                        } else {
                            None
                        }, p.0),
                    ];
                    assert(parts == first + last + c);
                    if k < first.len() {
                        assert(parts[k] == first[k]);
                    } else if k < first.len() + last.len() {
                        assert(parts[k] == last[k - first.len()]);
                    } else {
                        assert(parts[k] == c[k - first.len() - last.len()]);
                    }
                }
            }
        },
        _ => {},
    }
}

/// What output `m` of the analysis pairs with `s[m]` and `d[m]` equals what `x` pairs with
/// the first `t` taps of that output in the adjoint.
proof fn lemma_output_pairing(
    bc: BoundaryCondition,
    g: Seq<i64>,
    h: Seq<i64>,
    x: Seq<i64>,
    s: Seq<i64>,
    d: Seq<i64>,
    m: int,
    t: nat,
)
    requires
        h.len() == g.len(),
        t <= g.len(),
    ensures
        sum_to(
            |j: int| x[j] * adjoint_taps_sum(bc, g, h, s, d, x.len() as int, j, m, t),
            x.len(),
        ) == lift_sum(bc, taps(g), x, window_start(g.len() as int, m), t) * s[m] + lift_sum(
            bc,
            taps(h),
            x,
            window_start(g.len() as int, m),
            t,
        ) * d[m],
    decreases t,
{
    let n = x.len();
    let start = window_start(g.len() as int, m);
    if t == 0 {
        lemma_sum_scale(0, |j: int| x[j] as int, n);
        lemma_sum_ext(
            |j: int| x[j] * adjoint_taps_sum(bc, g, h, s, d, n as int, j, m, t),
            |j: int| 0 * (|j: int| x[j] as int)(j),
            n,
        );
        assert(0 * (s[m] as int) == 0);
        assert(0 * (d[m] as int) == 0);
    } else {
        let k = t - 1;
        lemma_output_pairing(bc, g, h, x, s, d, m, (t - 1) as nat);
        let c = adjoint_coef(g, h, s, d, m, k);
        let q = start + k;
        let parts = bc.parts(n as int, q);
        lemma_parts_in_range(bc, n as int, q);
        lemma_sum_parts(parts, x);
        lemma_parts_match_extension(bc, x, q);
        let prev = |j: int| x[j] * adjoint_taps_sum(bc, g, h, s, d, n as int, j, m, k as nat);
        let pw = |j: int| parts_weight_at(parts, j) * x[j];
        let step = |j: int| c * pw(j);
        assert forall|j: int| 0 <= j < n implies x[j] * adjoint_taps_sum(
            bc,
            g,
            h,
            s,
            d,
            n as int,
            j,
            m,
            t,
        ) == prev(j) + step(j) by {
            let a = adjoint_taps_sum(bc, g, h, s, d, n as int, j, m, k as nat);
            let w = parts_weight_at(parts, j);
            let xj = x[j] as int;
            assert(adjoint_taps_sum(bc, g, h, s, d, n as int, j, m, t) == a + c * w);
            assert(xj * (a + c * w) == xj * a + c * (w * xj)) by (nonlinear_arith);
        }
        lemma_sum_ext(
            |j: int| x[j] * adjoint_taps_sum(bc, g, h, s, d, n as int, j, m, t),
            |j: int| prev(j) + step(j),
            n,
        );
        lemma_sum_add(prev, step, n);
        lemma_sum_scale(c, pw, n);
        let v = value_or_zero(bc.extension(x, q));
        let tg = taps(g)[k] as int;
        let th = taps(h)[k] as int;
        assert(lift_term(bc, taps(g), x, start, k) == v * tg);
        assert(lift_term(bc, taps(h), x, start, k) == v * th);
        let lg = lift_sum(bc, taps(g), x, start, k as nat);
        let lh = lift_sum(bc, taps(h), x, start, k as nat);
        let sm = s[m] as int;
        let dm = d[m] as int;
        assert(c == sm * tg + dm * th);
        assert((lg + v * tg) * sm + (lh + v * th) * dm == lg * sm + lh * dm + c * v)
            by (nonlinear_arith)
            requires
                c == sm * tg + dm * th,
        ;
    }
}

/// The adjoint kernel is the transpose of the forward kernel: for every signal `x`, pair
/// of sub-bands `s`, `d` of one length and boundary condition, pairing the forward DWT of
/// `x` with `(s, d)` gives the same number as pairing `x` with the adjoint of `(s, d)`:
/// `<F x, (s, d)> == <x, F^T (s, d)>`.
pub proof fn lemma_adjoint_is_transpose(
    bc: BoundaryCondition,
    g: Seq<i64>,
    h: Seq<i64>,
    x: Seq<i64>,
    s: Seq<i64>,
    d: Seq<i64>,
)
    requires
        h.len() == g.len(),
        d.len() == s.len(),
    ensures
        analysis_pairing(bc, g, h, x, s, d, s.len()) == adjoint_pairing(bc, g, h, x, s, d),
{
    lemma_pairing_prefix(bc, g, h, x, s, d, s.len());
    lemma_sum_ext(
        |j: int| x[j] * adjoint_value(bc, g, h, s, d, x.len() as int, j, s.len()),
        |j: int| x[j] * adjoint_value(bc, g, h, s, d, x.len() as int, j, s.len() as nat),
        x.len(),
    );
}

/// [`lemma_adjoint_is_transpose`] over the first `m` outputs.
proof fn lemma_pairing_prefix(
    bc: BoundaryCondition,
    g: Seq<i64>,
    h: Seq<i64>,
    x: Seq<i64>,
    s: Seq<i64>,
    d: Seq<i64>,
    m: nat,
)
    requires
        h.len() == g.len(),
    ensures
        sum_to(|j: int| x[j] * adjoint_value(bc, g, h, s, d, x.len() as int, j, m), x.len())
            == analysis_pairing(bc, g, h, x, s, d, m),
    decreases m,
{
    let n = x.len();
    if m == 0 {
        lemma_sum_scale(0, |j: int| x[j] as int, n);
        lemma_sum_ext(
            |j: int| x[j] * adjoint_value(bc, g, h, s, d, n as int, j, m),
            |j: int| 0 * (|j: int| x[j] as int)(j),
            n,
        );
    } else {
        let k = m - 1;
        lemma_pairing_prefix(bc, g, h, x, s, d, k as nat);
        lemma_output_pairing(bc, g, h, x, s, d, k, g.len());
        let prev = |j: int| x[j] * adjoint_value(bc, g, h, s, d, n as int, j, k as nat);
        let out = |j: int| x[j] * adjoint_taps_sum(bc, g, h, s, d, n as int, j, k, g.len());
        assert forall|j: int| 0 <= j < n implies x[j] * adjoint_value(
            bc,
            g,
            h,
            s,
            d,
            n as int,
            j,
            m,
        ) == prev(j) + out(j) by {
            let a = adjoint_value(bc, g, h, s, d, n as int, j, k as nat);
            let b = adjoint_taps_sum(bc, g, h, s, d, n as int, j, k, g.len());
            let xj = x[j] as int;
            assert(adjoint_value(bc, g, h, s, d, n as int, j, m) == a + b);
            assert(xj * (a + b) == xj * a + xj * b) by (nonlinear_arith);
        }
        lemma_sum_ext(
            |j: int| x[j] * adjoint_value(bc, g, h, s, d, n as int, j, m),
            |j: int| prev(j) + out(j),
            n,
        );
        lemma_sum_add(prev, out, n);
    }
}

} // verus!
