//! Array layout utilities for wavelet sub-band manipulation.
//!
//! This module provides helpers for the even/odd index splitting (deinterleave) and
//! merging (interleave) that the lifting transform requires, together with the
//! row-major strides of a shape.
use vstd::arithmetic::div_mod::{
    lemma_fundamental_div_mod, lemma_fundamental_div_mod_converse, lemma_mod_bound,
};
use vstd::prelude::*;

mod cycles;
pub mod simd;

verus! {

// ---------------------------------------------------------------------------------------
// Shapes and strides
// ---------------------------------------------------------------------------------------
/// Number of elements of an array of the given shape (the product of its lengths).
pub open spec fn shape_prod(shape: Seq<usize>) -> int
    decreases shape.len(),
{
    if shape.len() == 0 {
        1
    } else {
        shape[0] * shape_prod(shape.drop_first())
    }
}

/// Row-major stride of axis `k`: the product of the lengths after `k`.
pub open spec fn row_major_stride(shape: Seq<usize>, k: int) -> int {
    shape_prod(shape.subrange(k + 1, shape.len() as int))
}

/// Every suffix product of the shape (the whole product included) is a `usize`.
pub open spec fn suffix_prods_fit(shape: Seq<usize>) -> bool {
    forall|k: int|
        0 <= k <= shape.len() ==> shape_prod(shape.subrange(k, shape.len() as int))
            <= usize::MAX
}

proof fn lemma_suffix_prods_fit_tail(shape: Seq<usize>)
    requires
        shape.len() >= 1,
        suffix_prods_fit(shape),
    ensures
        suffix_prods_fit(shape.drop_first()),
{
    let tail = shape.drop_first();
    assert forall|k: int| 0 <= k <= tail.len() implies shape_prod(
        tail.subrange(k, tail.len() as int),
    ) <= usize::MAX by {
        assert(tail.subrange(k, tail.len() as int) =~= shape.subrange(k + 1, shape.len() as int));
    }
}

pub(crate) proof fn lemma_shape_prod_nonneg(shape: Seq<usize>)
    ensures
        shape_prod(shape) >= 0,
    decreases shape.len(),
{
    if shape.len() > 0 {
        lemma_shape_prod_nonneg(shape.drop_first());
        assert(shape[0] * shape_prod(shape.drop_first()) >= 0) by (nonlinear_arith)
            requires
                shape_prod(shape.drop_first()) >= 0,
        ;
    }
}

/// The suffix product starting at `k` is the length at `k` times the next suffix product.
pub(crate) proof fn lemma_suffix_prod_step(shape: Seq<usize>, k: int)
    requires
        0 <= k < shape.len(),
    ensures
        shape_prod(shape.subrange(k, shape.len() as int)) == shape[k] * shape_prod(
            shape.subrange(k + 1, shape.len() as int),
        ),
{
    let s = shape.subrange(k, shape.len() as int);
    assert(s.drop_first() =~= shape.subrange(k + 1, shape.len() as int));
}

/// Compute the C-order (row-major) strides for a given shape.
///
/// `stride[i]` is the number of elements to skip to advance by one step along axis `i`.
pub fn stride_from_shape(shape: &[usize]) -> (stride: Vec<usize>)
    requires
        forall|k: int|
            1 <= k <= shape@.len() ==> shape_prod(shape@.subrange(k, shape@.len() as int))
                <= usize::MAX,
    ensures
        stride@.len() == shape@.len(),
        forall|k: int| 0 <= k < shape@.len() ==> stride@[k] == row_major_stride(shape@, k),
{
    let n = shape.len();
    let mut stride: Vec<usize> = Vec::new();
    let mut k: usize = 0;
    while k < n
        invariant
            k <= n,
            n == shape@.len(),
            stride@.len() == k,
            forall|j: int| 0 <= j < k ==> stride@[j] == 1,
        decreases n - k,
    {
        stride.push(1);
        k += 1;
    }
    if n == 0 {
        return stride;
    }
    proof {
        assert(shape@.subrange(n as int, n as int) =~= Seq::<usize>::empty());
    }
    let mut i = n - 1;
    // `stride[i..]` holds the final strides
    while i > 0
        invariant
            0 <= i < n,
            n == shape@.len(),
            stride@.len() == n,
            forall|k: int|
                1 <= k <= shape@.len() ==> shape_prod(shape@.subrange(k, shape@.len() as int))
                    <= usize::MAX,
            forall|j: int| i <= j < n ==> stride@[j] == row_major_stride(shape@, j),
        decreases i,
    {
        proof {
            lemma_suffix_prod_step(shape@, i as int);
            assert(shape@.subrange(i as int + 1, n as int) == shape@.subrange(
                (i - 1) as int + 1,
                n as int,
            ).drop_first()) by {
                assert(shape@.subrange(i as int + 1, n as int) =~= shape@.subrange(
                    i as int,
                    n as int,
                ).drop_first());
            }
        }
        proof {
            let a = stride@[i as int] as int;
            let b = shape@[i as int] as int;
            assert(a * b == b * a) by (nonlinear_arith);
        }
        let v = stride[i] * shape[i];
        stride.set(i - 1, v);
        i -= 1;
    }
    stride
}

// ---------------------------------------------------------------------------------------
// Even/odd splitting
// ---------------------------------------------------------------------------------------
/// `ceil(n / 2)` without overflow.
pub fn div_ceil2(n: usize) -> (r: usize)
    ensures
        r == (n + 1) / 2,
{
    n / 2 + n % 2
}

/// The even-indexed samples of `x` followed by nothing else: `result[i] == x[2i]`.
pub open spec fn evens_of<T>(x: Seq<T>) -> Seq<T> {
    Seq::new(((x.len() + 1) / 2) as nat, |i: int| x[2 * i])
}

/// The odd-indexed samples of `x`: `result[i] == x[2i + 1]`.
pub open spec fn odds_of<T>(x: Seq<T>) -> Seq<T> {
    Seq::new((x.len() / 2) as nat, |i: int| x[2 * i + 1])
}

/// The sequence whose even-indexed samples are `evens` and odd-indexed samples are `odds`.
pub open spec fn interleaved<T>(evens: Seq<T>, odds: Seq<T>) -> Seq<T> {
    Seq::new(
        evens.len() + odds.len(),
        |k: int|
            if k % 2 == 0 {
                evens[k / 2]
            } else {
                odds[k / 2]
            },
    )
}

/// Source position of output position `k` when `n` samples are deinterleaved into their
/// even-indexed samples followed by their odd-indexed samples.
pub open spec fn deint_src(n: int, k: int) -> int {
    if k < (n + 1) / 2 {
        2 * k
    } else {
        2 * (k - (n + 1) / 2) + 1
    }
}

/// Split a slice into its even-indexed and odd-indexed elements.
///
/// `evens[i] = x[2*i]` and `odds[i] = x[2*i + 1]`.  For odd-length `x` the extra
/// element goes into `evens`, so `evens.len() == (x.len() + 1) / 2` and
/// `odds.len() == x.len() / 2`.
pub fn deinterleave<T: Copy>(x: &[T], evens: &mut [T], odds: &mut [T])
    requires
        old(odds)@.len() == x@.len() / 2,
        old(evens)@.len() == (x@.len() + 1) / 2,
    ensures
        final(evens)@ == evens_of(x@),
        final(odds)@ == odds_of(x@),
{
    let nx = x.len();
    let n_o = nx / 2;
    let mut i: usize = 0;
    while i < n_o
        invariant
            n_o == x@.len() / 2,
            nx == x@.len(),
            i <= n_o,
            odds@.len() == n_o,
            evens@.len() == (x@.len() + 1) / 2,
            forall|j: int| 0 <= j < i ==> evens@[j] == x@[2 * j],
            forall|j: int| 0 <= j < i ==> odds@[j] == x@[2 * j + 1],
        decreases n_o - i,
    {
        evens[i] = x[2 * i];
        odds[i] = x[2 * i + 1];
        i += 1;
    }
    if nx % 2 == 1 {
        evens[n_o] = x[nx - 1];
    }
    proof {
        assert(evens@ =~= evens_of(x@));
        assert(odds@ =~= odds_of(x@));
    }
}

/// Interleave even- and odd-indexed elements back into a single flat slice.
///
/// Inverse of [`deinterleave`]: `x[2*i] = evens[i]`, `x[2*i+1] = odds[i]`.
pub fn interleave<T: Copy>(evens: &[T], odds: &[T], x: &mut [T])
    requires
        odds@.len() == old(x)@.len() / 2,
        evens@.len() == (old(x)@.len() + 1) / 2,
    ensures
        final(x)@ == interleaved(evens@, odds@),
{
    let nx = x.len();
    let n_o = nx / 2;
    let mut i: usize = 0;
    while i < n_o
        invariant
            n_o == nx / 2,
            nx == x@.len(),
            i <= n_o,
            odds@.len() == n_o,
            evens@.len() == (nx + 1) / 2,
            forall|k: int|
                0 <= k < 2 * i ==> x@[k] == (if k % 2 == 0 {
                    evens@[k / 2]
                } else {
                    odds@[k / 2]
                }),
        decreases n_o - i,
    {
        x[2 * i] = evens[i];
        x[2 * i + 1] = odds[i];
        i += 1;
    }
    if nx % 2 == 1 {
        x[nx - 1] = evens[n_o];
    }
    proof {
        assert(x@ =~= interleaved(evens@, odds@));
    }
}

/// Reverse `x[lo..hi]`.
fn reverse_range<T: Copy>(x: &mut [T], lo: usize, hi: usize)
    requires
        lo <= hi <= old(x)@.len(),
    ensures
        final(x)@.len() == old(x)@.len(),
        forall|r: int| lo <= r < hi ==> #[trigger] final(x)@[r] == old(x)@[lo + hi - 1 - r],
        forall|r: int| 0 <= r < old(x)@.len() && !(lo <= r < hi) ==> #[trigger] final(x)@[r] == old(x)@[r],
{
    let mut a = lo;
    let mut b = hi;
    while b - a >= 2
        invariant
            lo <= a <= b <= hi,
            hi <= x@.len(),
            x@.len() == old(x)@.len(),
            a - lo == hi - b,
            forall|r: int| lo <= r < a ==> #[trigger] x@[r] == old(x)@[lo + hi - 1 - r],
            forall|r: int| b <= r < hi ==> #[trigger] x@[r] == old(x)@[lo + hi - 1 - r],
            forall|r: int| a <= r < b ==> #[trigger] x@[r] == old(x)@[r],
            forall|r: int| 0 <= r < old(x)@.len() && !(lo <= r < hi) ==> #[trigger] x@[r] == old(x)@[r],
        decreases b - a,
    {
        let t = x[a];
        x[a] = x[b - 1];
        x[b - 1] = t;
        a += 1;
        b -= 1;
    }
}

/// Rotate `x[lo..hi]` right by `n`: its last `n` elements move to its front.
fn shift_n<T: Copy>(x: &mut [T], lo: usize, hi: usize, n: usize)
    requires
        lo <= hi <= old(x)@.len(),
        n <= hi - lo,
    ensures
        final(x)@.len() == old(x)@.len(),
        forall|r: int| lo <= r < lo + n ==> #[trigger] final(x)@[r] == old(x)@[hi - n + (r - lo)],
        forall|r: int| lo + n <= r < hi ==> #[trigger] final(x)@[r] == old(x)@[r - n],
        forall|r: int| 0 <= r < old(x)@.len() && !(lo <= r < hi) ==> #[trigger] final(x)@[r] == old(x)@[r],
{
    let ghost x0 = x@;
    reverse_range(x, lo, hi - n);
    let ghost x1 = x@;
    reverse_range(x, hi - n, hi);
    let ghost x2 = x@;
    reverse_range(x, lo, hi);
    proof {
        assert forall|r: int| lo <= r < lo + n implies #[trigger] x@[r] == x0[hi - n + (r - lo)] by {
            assert(x@[r] == x2[lo + hi - 1 - r]);
            assert(x2[lo + hi - 1 - r] == x1[(hi - n) + hi - 1 - (lo + hi - 1 - r)]);
        }
        assert forall|r: int| lo + n <= r < hi implies #[trigger] x@[r] == x0[r - n] by {
            assert(x@[r] == x2[lo + hi - 1 - r]);
            assert(x2[lo + hi - 1 - r] == x1[lo + hi - 1 - r]);
            assert(x1[lo + hi - 1 - r] == x0[lo + (hi - n) - 1 - (lo + hi - 1 - r)]);
        }
    }
}

/// The largest power of three `3^k` (with `k >= 1`) not above `n + 1`, or three when
/// `n + 1 < 3`.
fn lookup(n: usize) -> (r: usize)
    requires
        n < usize::MAX / 3,
    ensures
        exists|k: nat| k >= 1 && #[trigger] cycles::p3(k) == r,
        n + 1 >= 3 ==> r <= n + 1 < 3 * r,
        n + 1 < 3 ==> r == 3,
{
    let mut i: usize = 3;
    let ghost mut k: nat = 1;
    proof {
        cycles::lemma_p3_pos(1);
        cycles::lemma_p3_pos(0);
    }
    while i <= n + 1
        invariant
            n < usize::MAX / 3,
            k >= 1,
            i == cycles::p3(k),
            k >= 2 ==> i / 3 <= n + 1,
            i % 3 == 0,
            i <= 3 * (n + 1),
        decreases usize::MAX - i,
    {
        proof {
            cycles::lemma_p3_pos(k + 1);
        }
        i = i * 3;
        proof {
            k = k + 1;
        }
    }
    if i > 3 {
        proof {
            cycles::lemma_p3_pos(k);
            assert(k >= 2);
            assert(i / 3 == cycles::p3((k - 1) as nat));
        }
        i = i / 3;
        proof {
            k = (k - 1) as nat;
        }
    }
    i
}

/// Buffer index `i` was written by the first `t` steps of the cycle through `s` (positions
/// are one-based within the window starting at `base`).
spec fn cycle_wrote(n1: int, s: int, base: int, i: int, t: nat) -> bool {
    exists|q: nat| 1 <= q <= t && i == base + #[trigger] cycles::orb(n1, s, q) - 1
}

/// State of the buffer after `t` steps of the cycle through `s`: each visited position holds
/// the element of its predecessor, `carried` is the element displaced last, and everything
/// else is unchanged.
#[verifier::opaque]
spec fn cycle_state<T>(n1: int, s: int, base: int, old: Seq<T>, cur: Seq<T>, t: nat, carried: T) -> bool {
    &&& cur.len() == old.len()
    &&& carried == old[base + cycles::orb(n1, s, t) - 1]
    &&& forall|q: nat|
        1 <= q <= t ==> cur[base + #[trigger] cycles::orb(n1, s, q) - 1] == old[base
            + cycles::orb(n1, s, (q - 1) as nat) - 1]
    &&& forall|i: int| 0 <= i < cur.len() && !cycle_wrote(n1, s, base, i, t) ==> cur[i] == old[i]
}

/// One step of the cycle keeps the cycle state.
proof fn lemma_cycle_step<T>(k: nat, v: nat, base: int, old: Seq<T>, cur: Seq<T>, t: nat, carried: T)
    requires
        v < k,
        t < cycles::orbit_len(k, v),
        base >= 0,
        base + cycles::p3(k) - 1 <= old.len(),
        cycle_state(cycles::p3(k), cycles::p3(v), base, old, cur, t, carried),
    ensures
        ({
            let n1 = cycles::p3(k);
            let s = cycles::p3(v);
            let idx = base + cycles::orb(n1, s, t + 1) - 1;
            &&& 0 <= idx < old.len()
            &&& cycles::orb(n1, s, t + 1) == (2 * cycles::orb(n1, s, t)) % n1
            &&& cycle_state(n1, s, base, old, cur.update(idx, carried), t + 1, cur[idx])
        }),
{
    reveal(cycle_state);
    let n1 = cycles::p3(k);
    let s = cycles::p3(v);
    cycles::lemma_p3_pos(k);
    cycles::lemma_orb_step(n1, s, t);
    cycles::lemma_orb_form(k, v, t + 1);
    let idx = base + cycles::orb(n1, s, t + 1) - 1;
    let new = cur.update(idx, carried);
    // the new position has not been written yet
    if cycle_wrote(n1, s, base, idx, t) {
        let q = choose|q: nat| 1 <= q <= t && idx == base + #[trigger] cycles::orb(n1, s, q) - 1;
        cycles::lemma_orb_distinct(k, v, q, t + 1);
    }
    assert(cur[idx] == old[idx]);
    assert forall|q: nat| 1 <= q <= t + 1 implies new[base + #[trigger] cycles::orb(n1, s, q) - 1]
        == old[base + cycles::orb(n1, s, (q - 1) as nat) - 1] by {
        if q < t + 1 {
            cycles::lemma_orb_distinct(k, v, q, t + 1);
            cycles::lemma_orb_form(k, v, q);
        }
    }
    assert forall|i: int| 0 <= i < new.len() && !cycle_wrote(n1, s, base, i, t + 1) implies new[i]
        == old[i] by {
        if i == idx {
            assert(cycle_wrote(n1, s, base, i, t + 1));
        }
        if cycle_wrote(n1, s, base, i, t) {
            let q = choose|q: nat| 1 <= q <= t && i == base + #[trigger] cycles::orb(n1, s, q) - 1;
            assert(1 <= q <= t + 1);
        }
    }
}

/// Facts about the start of the cycle through `3^v` modulo `3^k`.
proof fn lemma_cycle_start(k: nat, v: nat)
    requires
        k >= 1,
        v < k,
    ensures
        1 <= cycles::p3(v) < cycles::p3(k),
        cycles::orb(cycles::p3(k), cycles::p3(v), 0) == cycles::p3(v),
        cycles::orbit_len(k, v) >= 2,
{
    cycles::lemma_p3_pos(k);
    cycles::lemma_p3_pos(v);
    cycles::lemma_p3_pos((k - v - 1) as nat);
    cycles::lemma_p3_pos((k - v) as nat);
    cycles::lemma_orb_form(k, v, 0);
    assert(cycles::p2(0) == 1);
    vstd::arithmetic::div_mod::lemma_small_mod(1, cycles::p3((k - v) as nat) as nat);
}

/// A completed cycle moved every element of the orbit one step along it and left every other
/// position alone.
proof fn lemma_cycle_done<T>(k: nat, v: nat, base: int, n: int, old: Seq<T>, cur: Seq<T>, t: nat, carried: T)
    requires
        v < k,
        n + 1 == cycles::p3(k),
        t == cycles::orbit_len(k, v),
        cycle_state(cycles::p3(k), cycles::p3(v), base, old, cur, t, carried),
    ensures
        cur.len() == old.len(),
        forall|q: nat|
            q < cycles::orbit_len(k, v) ==> cur[base + #[trigger] cycles::orb(
                n + 1,
                cycles::p3(v),
                q + 1,
            ) - 1] == old[base + cycles::orb(n + 1, cycles::p3(v), q) - 1],
        forall|i: int|
            0 <= i < old.len() && !(base <= i < base + n && cycles::v3(i - base + 1) == v)
                ==> #[trigger] cur[i] == old[i],
{
    reveal(cycle_state);
    let n1 = cycles::p3(k);
    let s = cycles::p3(v);
    assert forall|q: nat| q < t implies cur[base + #[trigger] cycles::orb(n1, s, q + 1) - 1]
        == old[base + cycles::orb(n1, s, q) - 1] by {
        assert(1 <= q + 1 <= t);
        assert((q + 1 - 1) as nat == q);
    }
    assert forall|i: int|
        0 <= i < old.len() && !(base <= i < base + n && cycles::v3(i - base + 1) == v) implies #[trigger] cur[i]
            == old[i] by {
        if cycle_wrote(n1, s, base, i, t) {
            let q = choose|q: nat| 1 <= q <= t && i == base + #[trigger] cycles::orb(n1, s, q) - 1;
            cycles::lemma_orb_form(k, v, q);
        }
    }
}

/// Move the elements of the window `x[base..base + n]` along the cycle of one-based
/// position `start` under `j -> 2j mod (n + 1)`: the element at position `j` goes to
/// position `2j mod (n + 1)`.
fn cycle<T: Copy>(x: &mut [T], base: usize, n: usize, start: usize, Ghost(k): Ghost<nat>, Ghost(v): Ghost<nat>)
    requires
        base + n <= old(x)@.len(),
        n + 1 == cycles::p3(k),
        k >= 1,
        v < k,
        start == cycles::p3(v),
        2 * n + 2 <= usize::MAX,
    ensures
        final(x)@.len() == old(x)@.len(),
        forall|q: nat|
            q < cycles::orbit_len(k, v) ==> final(x)@[base + #[trigger] cycles::orb(
                n + 1,
                start as int,
                q + 1,
            ) - 1] == old(x)@[base + cycles::orb(n + 1, start as int, q) - 1],
        forall|i: int|
            0 <= i < old(x)@.len() && !(base <= i < base + n && cycles::v3(i - base + 1) == v)
                ==> #[trigger] final(x)@[i] == old(x)@[i],
{
    let ghost n1 = n + 1;
    let ghost s = start as int;
    let ghost len = cycles::orbit_len(k, v);
    proof {
        lemma_cycle_start(k, v);
        assert(cycle_state(n1, s, base as int, old(x)@, x@, 0, x@[base + start - 1])) by {
            reveal(cycle_state);
        }
        lemma_cycle_step(k, v, base as int, old(x)@, x@, 0, x@[base + start - 1]);
        assert(1 <= start <= n);
        assert(base + n <= x.len());
    }
    let np1 = n + 1;
    let mut i_c = (start * 2) % np1;
    let mut t1 = x[base + start - 1];
    let tmp = x[base + i_c - 1];
    x[base + i_c - 1] = t1;
    t1 = tmp;
    let ghost mut t: nat = 1;
    while i_c != start
        invariant
            base + n <= x@.len(),
            x@.len() == old(x)@.len(),
            np1 == n1,
            n1 == n + 1,
            n1 == cycles::p3(k),
            k >= 1,
            v < k,
            s == start,
            start == cycles::p3(v),
            2 * n + 2 <= usize::MAX,
            len == cycles::orbit_len(k, v),
            1 <= t <= len,
            i_c == cycles::orb(n1, s, t),
            cycle_state(n1, s, base as int, old(x)@, x@, t, t1),
        decreases len - t,
    {
        proof {
            if t == len {
                cycles::lemma_orb_period(k, v);
            }
            lemma_cycle_step(k, v, base as int, old(x)@, x@, t, t1);
        }
        let i = (i_c * 2) % np1;
        proof {
            assert(i_c * 2 == 2 * i_c);
            assert(i == cycles::orb(n1, s, t + 1));
            assert(base + i - 1 < old(x)@.len());
            assert(x@.len() == x.len());
        }
        let tmp = x[base + i - 1];
        x[base + i - 1] = t1;
        t1 = tmp;
        i_c = i;
        proof {
            t = t + 1;
        }
    }
    proof {
        if t < len {
            cycles::lemma_orb_distinct(k, v, 0, t);
        }
        lemma_cycle_done(k, v, base as int, n as int, old(x)@, x@, t, t1);
    }
}

/// Window source index of output `r` of the in-shuffle of a window of even length `n`:
/// even outputs come from the second half and odd outputs from the first.
spec fn inshuffle_src(n: int, r: int) -> int {
    if r % 2 == 0 {
        n / 2 + r / 2
    } else {
        r / 2
    }
}

/// State of the window after the cycles through `3^0, ..., 3^(v-1)`: every position of
/// valuation below `v` has moved to its double, every other position is unchanged.
#[verifier::opaque]
spec fn shuffle_state<T>(k: nat, v: nat, base: int, old: Seq<T>, cur: Seq<T>) -> bool {
    let n1 = cycles::p3(k);
    &&& cur.len() == old.len()
    &&& forall|p: int|
        0 < p < n1 && cycles::v3(p) < v ==> cur[base + (2 * p) % n1 - 1] == #[trigger] old[base
            + p - 1]
    &&& forall|p: int|
        0 < p < n1 && cycles::v3(p) >= v ==> #[trigger] cur[base + p - 1] == old[base + p - 1]
    &&& forall|i: int|
        0 <= i < old.len() && !(base <= i < base + n1 - 1) ==> #[trigger] cur[i] == old[i]
}

/// The cycle through `3^v` extends the shuffle state to valuation `v`.
proof fn lemma_shuffle_step<T>(k: nat, v: nat, base: int, old: Seq<T>, cur: Seq<T>, new: Seq<T>)
    requires
        v < k,
        base >= 0,
        base + cycles::p3(k) - 1 <= old.len(),
        shuffle_state(k, v, base, old, cur),
        new.len() == cur.len(),
        forall|q: nat|
            q < cycles::orbit_len(k, v) ==> new[base + #[trigger] cycles::orb(
                cycles::p3(k),
                cycles::p3(v),
                q + 1,
            ) - 1] == cur[base + cycles::orb(cycles::p3(k), cycles::p3(v), q) - 1],
        forall|i: int|
            0 <= i < cur.len() && !(base <= i < base + cycles::p3(k) - 1 && cycles::v3(i - base + 1)
                == v) ==> #[trigger] new[i] == cur[i],
    ensures
        shuffle_state(k, v + 1, base, old, new),
{
    reveal(shuffle_state);
    let n1 = cycles::p3(k);
    cycles::lemma_p3_pos(k);
    assert forall|p: int| 0 < p < n1 && cycles::v3(p) < v + 1 implies new[base + (2 * p) % n1 - 1]
        == #[trigger] old[base + p - 1] by {
        cycles::lemma_double_v3(k, p);
        if cycles::v3(p) == v {
            cycles::lemma_orb_cover(k, v, p);
            let q = choose|q: nat| #[trigger] cycles::orb_hits(k, v, p, q);
            cycles::lemma_orb_step(n1, cycles::p3(v), q);
            assert(new[base + cycles::orb(n1, cycles::p3(v), q + 1) - 1] == cur[base + cycles::orb(
                n1,
                cycles::p3(v),
                q,
            ) - 1]);
        } else {
            let i = base + (2 * p) % n1 - 1;
            assert(i - base + 1 == (2 * p) % n1);
            assert(new[i] == cur[i]);
        }
    }
    assert forall|p: int| 0 < p < n1 && cycles::v3(p) >= v + 1 implies #[trigger] new[base + p - 1]
        == old[base + p - 1] by {
        let i = base + p - 1;
        assert(i - base + 1 == p);
        assert(new[i] == cur[i]);
    }
}

/// After the cycles through every power of three below `3^k` the window is in-shuffled.
proof fn lemma_shuffle_done<T>(k: nat, base: int, n: int, old: Seq<T>, cur: Seq<T>)
    requires
        n + 1 == cycles::p3(k),
        k >= 1,
        shuffle_state(k, k, base, old, cur),
    ensures
        cur.len() == old.len(),
        forall|r: int| 0 <= r < n ==> cur[base + r] == #[trigger] old[base + inshuffle_src(n, r)],
        forall|i: int| 0 <= i < old.len() && !(base <= i < base + n) ==> #[trigger] cur[i] == old[i],
{
    reveal(shuffle_state);
    let n1 = cycles::p3(k);
    cycles::lemma_p3_pos(k);
    assert(n % 2 == 0) by {
        lemma_three_power_odd(k);
    }
    assert forall|r: int| 0 <= r < n implies cur[base + r] == #[trigger] old[base + inshuffle_src(n, r)] by {
        let p = inshuffle_src(n, r) + 1;
        assert(0 < p < n1);
        cycles::lemma_v3_bound(p, k);
        if r % 2 == 0 {
            assert(2 * p == n1 + (r + 1));
            lemma_fundamental_div_mod_converse(2 * p, n1, 1, r + 1);
        } else {
            assert(2 * p == r + 1);
            lemma_fundamental_div_mod_converse(2 * p, n1, 0, r + 1);
        }
        assert((2 * p) % n1 == r + 1);
        assert(cur[base + (2 * p) % n1 - 1] == old[base + p - 1]);
        assert(base + p - 1 == base + inshuffle_src(n, r));
    }
}

/// Powers of three are odd.
proof fn lemma_three_power_odd(k: nat)
    ensures
        cycles::p3(k) % 2 == 1,
    decreases k,
{
    if k > 0 {
        lemma_three_power_odd((k - 1) as nat);
        let q = cycles::p3((k - 1) as nat) / 2;
        lemma_fundamental_div_mod(cycles::p3((k - 1) as nat), 2);
        lemma_fundamental_div_mod_converse(cycles::p3(k), 2, 3 * q + 1, 1);
    }
}

/// In-shuffle the window `x[base..base + n]` whose length is one less than a power of three:
/// afterwards its first half and second half alternate, second half first.
fn perfect_shuffle<T: Copy>(x: &mut [T], base: usize, n: usize, Ghost(k): Ghost<nat>)
    requires
        base + n <= old(x)@.len(),
        n + 1 == cycles::p3(k),
        k >= 1,
        n < usize::MAX / 3,
    ensures
        final(x)@.len() == old(x)@.len(),
        forall|r: int|
            0 <= r < n ==> final(x)@[base + r] == #[trigger] old(x)@[base + inshuffle_src(
                n as int,
                r,
            )],
        forall|i: int|
            0 <= i < old(x)@.len() && !(base <= i < base + n) ==> #[trigger] final(x)@[i] == old(
                x,
            )@[i],
{
    proof {
        cycles::lemma_p3_pos(k);
        lemma_three_power_odd(k);
    }
    if n == 2 {
        proof {
            if k >= 2 {
                cycles::lemma_p3_pos((k - 1) as nat);
                cycles::lemma_p3_pos((k - 2) as nat);
            }
        }
        let t = x[base];
        x[base] = x[base + 1];
        x[base + 1] = t;
        return;
    }
    let mut i: usize = 1;
    let ghost mut v: nat = 0;
    proof {
        assert(cycles::p3(0) == 1);
        assert(shuffle_state(k, 0, base as int, old(x)@, x@)) by {
            reveal(shuffle_state);
        }
    }
    while i < n
        invariant
            base + n <= x@.len(),
            x@.len() == old(x)@.len(),
            n + 1 == cycles::p3(k),
            k >= 1,
            n < usize::MAX / 3,
            v <= k,
            i == cycles::p3(v),
            shuffle_state(k, v, base as int, old(x)@, x@),
        decreases k - v,
    {
        proof {
            if v == k {
                assert(false);
            }
            cycles::lemma_p3_pos(v + 1);
            cycles::lemma_p3_add(v + 1, (k - v - 1) as nat);
            cycles::lemma_p3_pos((k - v - 1) as nat);
            assert(cycles::p3(v + 1) <= cycles::p3(k)) by (nonlinear_arith)
                requires
                    cycles::p3(k) == cycles::p3(v + 1) * cycles::p3((k - v - 1) as nat),
                    cycles::p3((k - v - 1) as nat) >= 1,
                    cycles::p3(v + 1) >= 1,
            ;
        }
        let ghost cur = x@;
        cycle(x, base, n, i, Ghost(k), Ghost(v));
        proof {
            lemma_shuffle_step(k, v, base as int, old(x)@, cur, x@);
        }
        i = i * 3;
        proof {
            v = v + 1;
        }
    }
    proof {
        if v < k {
            cycles::lemma_p3_pos(v);
            cycles::lemma_p3_add(v, (k - v) as nat);
            cycles::lemma_p3_pos((k - v) as nat);
            assert(cycles::p3(v) * 3 <= cycles::p3(k)) by (nonlinear_arith)
                requires
                    cycles::p3(k) == cycles::p3(v) * cycles::p3((k - v) as nat),
                    cycles::p3((k - v) as nat) >= 3,
                    cycles::p3(v) >= 1,
            ;
        }
        assert(v == k);
        lemma_shuffle_done(k, base as int, n as int, old(x)@, x@);
    }
}

/// Window source index of position `r` of the part of a window of even length `len` that
/// is not in-shuffled yet, once its first `m` outputs are done: the remaining first-half
/// elements followed by the remaining second-half elements.
spec fn rest_src(len: int, m: int, r: int) -> int {
    if r < (len - m) / 2 {
        m / 2 + r
    } else {
        len / 2 + m / 2 + (r - (len - m) / 2)
    }
}

/// The window `x[off..off + len]` has its first `m` in-shuffle outputs in place and the
/// rest of its elements in order behind them; everything before `off` is untouched.
#[verifier::opaque]
spec fn inshuffle_state<T>(off: int, len: int, m: int, old: Seq<T>, cur: Seq<T>) -> bool {
    &&& cur.len() == old.len()
    &&& forall|i: int| 0 <= i < off ==> #[trigger] cur[i] == old[i]
    &&& forall|r: int| 0 <= r < m ==> #[trigger] cur[off + r] == old[off + inshuffle_src(len, r)]
    &&& forall|r: int| 0 <= r < len - m ==> #[trigger] cur[off + m + r] == old[off + rest_src(len, m, r)]
}

/// One round of the in-shuffle: rotating the middle of the remaining window and
/// in-shuffling its first `2h` elements places `2h` more outputs.
proof fn lemma_inshuffle_round<T>(
    off: int,
    len: int,
    m: int,
    h: int,
    old: Seq<T>,
    cur: Seq<T>,
    rotated: Seq<T>,
    shuffled: Seq<T>,
)
    requires
        0 <= off,
        off + len == old.len(),
        len % 2 == 0,
        m % 2 == 0,
        1 <= h,
        0 <= m,
        m + 2 * h <= len,
        inshuffle_state(off, len, m, old, cur),
        rotated.len() == cur.len(),
        forall|r: int|
            off + m + h <= r < off + m + h + h ==> #[trigger] rotated[r] == cur[off + m + h + (len
                - m) / 2 - h + (r - (off + m + h))],
        forall|r: int|
            off + m + h + h <= r < off + m + h + (len - m) / 2 ==> #[trigger] rotated[r] == cur[r
                - h],
        forall|r: int|
            0 <= r < cur.len() && !(off + m + h <= r < off + m + h + (len - m) / 2)
                ==> #[trigger] rotated[r] == cur[r],
        shuffled.len() == rotated.len(),
        forall|r: int|
            0 <= r < 2 * h ==> shuffled[off + m + r] == #[trigger] rotated[off + m + inshuffle_src(
                2 * h,
                r,
            )],
        forall|i: int|
            0 <= i < rotated.len() && !(off + m <= i < off + m + 2 * h) ==> #[trigger] shuffled[i]
                == rotated[i],
    ensures
        inshuffle_state(off, len, m + 2 * h, old, shuffled),
{
    reveal(inshuffle_state);
    let rr = (len - m) / 2;
    assert(h <= rr);
    assert forall|i: int| 0 <= i < off implies #[trigger] shuffled[i] == old[i] by {
        assert(shuffled[i] == rotated[i]);
        assert(rotated[i] == cur[i]);
    }
    assert forall|r: int| 0 <= r < m + 2 * h implies #[trigger] shuffled[off + r] == old[off
        + inshuffle_src(len, r)] by {
        if r < m {
            assert(shuffled[off + r] == rotated[off + r]);
            assert(rotated[off + r] == cur[off + r]);
        } else {
            let rho = r - m;
            let src = inshuffle_src(2 * h, rho);
            assert(shuffled[off + m + rho] == rotated[off + m + src]);
            if rho % 2 == 0 {
                assert(src == h + rho / 2);
                assert(rotated[off + m + src] == cur[off + m + (rr + rho / 2)]);
                assert(cur[off + m + (rr + rho / 2)] == old[off + rest_src(len, m, rr + rho / 2)]);
                assert(rest_src(len, m, rr + rho / 2) == len / 2 + m / 2 + rho / 2);
                assert(inshuffle_src(len, r) == len / 2 + m / 2 + rho / 2);
            } else {
                assert(src == rho / 2);
                assert(rotated[off + m + src] == cur[off + m + src]);
                assert(cur[off + m + src] == old[off + rest_src(len, m, src)]);
                assert(inshuffle_src(len, r) == m / 2 + rho / 2);
            }
        }
    }
    assert forall|r: int| 0 <= r < len - (m + 2 * h) implies #[trigger] shuffled[off + (m + 2 * h)
        + r] == old[off + rest_src(len, m + 2 * h, r)] by {
        let rho = r + 2 * h;
        assert(shuffled[off + m + rho] == rotated[off + m + rho]);
        if rho < h + rr {
            assert(rotated[off + m + rho] == cur[off + m + rho - h]);
            assert(cur[off + m + (rho - h)] == old[off + rest_src(len, m, rho - h)]);
        } else {
            assert(rotated[off + m + rho] == cur[off + m + rho]);
            assert(cur[off + m + rho] == old[off + rest_src(len, m, rho)]);
        }
    }
}

/// Interleave the two halves of `x` in place: the first `ceil(n/2)` elements are treated
/// as even-indexed and the remainder as odd-indexed, so that afterwards
/// `x[2*i] == old_x[i]` and `x[2*i+1] == old_x[ceil(n/2) + i]`.  Inverse of
/// [`deinterleave`] applied in place.
///
/// The elements move along the cycles of `j -> 2j mod 3^k` in windows whose length is one
/// less than a power of three, so no buffer is needed.
#[verifier::spinoff_prover]
#[verifier::rlimit(40)]
pub fn interleave_inplace<T: Copy>(x: &mut [T])
    requires
        old(x)@.len() < usize::MAX / 3,
    ensures
        final(x)@ == interleaved(
            old(x)@.subrange(0, ((old(x)@.len() + 1) / 2) as int),
            old(x)@.subrange(((old(x)@.len() + 1) / 2) as int, old(x)@.len() as int),
        ),
{
    let n = x.len();
    let ghost ne: int = (n + 1) / 2;
    let ghost evens = old(x)@.subrange(0, ne);
    let ghost odds = old(x)@.subrange(ne, n as int);
    if n < 2 {
        proof {
            assert(x@ =~= interleaved(evens, odds));
        }
        return;
    } else if n == 3 {
        let t = x[1];
        x[1] = x[2];
        x[2] = t;
        proof {
            assert(x@ =~= interleaved(evens, odds));
        }
        return;
    }
    let do_sub = n % 2 == 1;
    let off: usize = if do_sub {
        1
    } else {
        0
    };
    let len = n - off;
    let mut m: usize = 0;
    proof {
        assert(inshuffle_state(off as int, len as int, 0, old(x)@, x@)) by {
            reveal(inshuffle_state);
        }
    }
    while m < len
        invariant
            x@.len() == n,
            n == old(x)@.len(),
            n < usize::MAX / 3,
            off <= 1,
            len == n - off,
            len % 2 == 0,
            m % 2 == 0,
            m <= len,
            inshuffle_state(off as int, len as int, m as int, old(x)@, x@),
        decreases len - m,
    {
        let i = lookup(len - m);
        let ghost kk = choose|kk: nat| kk >= 1 && #[trigger] cycles::p3(kk) == i;
        proof {
            lemma_three_power_odd(kk);
            cycles::lemma_p3_pos(kk);
        }
        let h = (i - 1) / 2;
        let slice_start = m + h;
        let slice_len = (len - m) / 2;
        let ghost cur = x@;
        shift_n(x, off + slice_start, off + slice_start + slice_len, h);
        let ghost rotated = x@;
        perfect_shuffle(x, off + m, i - 1, Ghost(kk));
        proof {
            assert(i - 1 == 2 * h);
            lemma_inshuffle_round(off as int, len as int, m as int, h as int, old(x)@, cur, rotated, x@);
        }
        m += i - 1;
    }
    proof {
        reveal(inshuffle_state);
    }
    if !do_sub {
        let ghost y = x@;
        let mut c: usize = 0;
        while c < n / 2
            invariant
                n % 2 == 0,
                c <= n / 2,
                x@.len() == n,
                y.len() == n,
                forall|r: int|
                    0 <= r < 2 * c ==> #[trigger] x@[r] == y[if r % 2 == 0 {
                        r + 1
                    } else {
                        r - 1
                    }],
                forall|r: int| 2 * c <= r < n ==> #[trigger] x@[r] == y[r],
            decreases n / 2 - c,
        {
            let t = x[2 * c];
            x[2 * c] = x[2 * c + 1];
            x[2 * c + 1] = t;
            c += 1;
        }
        proof {
            assert forall|p: int| 0 <= p < n implies #[trigger] x@[p] == interleaved(evens, odds)[p] by {
                let q = p / 2;
                if p % 2 == 0 {
                    assert(x@[p] == y[p + 1]);
                    assert(y[0 + (p + 1)] == old(x)@[0 + inshuffle_src(len as int, p + 1)]);
                } else {
                    assert(x@[p] == y[p - 1]);
                    assert(y[0 + (p - 1)] == old(x)@[0 + inshuffle_src(len as int, p - 1)]);
                }
            }
            assert(x@ =~= interleaved(evens, odds));
        }
    } else {
        proof {
            assert forall|p: int| 0 <= p < n implies #[trigger] x@[p] == interleaved(evens, odds)[p] by {
                if p > 0 {
                    let r = p - 1;
                    assert(x@[1 + r] == old(x)@[1 + inshuffle_src(len as int, r)]);
                }
            }
            assert(x@ =~= interleaved(evens, odds));
        }
    }
}

/// Interleaving the even- and odd-indexed samples of a sequence gives the sequence back.
pub proof fn lemma_interleave_deinterleave<T>(x: Seq<T>)
    ensures
        interleaved(evens_of(x), odds_of(x)) == x,
{
    assert(interleaved(evens_of(x), odds_of(x)) =~= x);
}

/// Deinterleaving an interleaved pair gives the pair back.
pub proof fn lemma_deinterleave_interleave<T>(evens: Seq<T>, odds: Seq<T>)
    requires
        evens.len() == odds.len() || evens.len() == odds.len() + 1,
    ensures
        evens_of(interleaved(evens, odds)) == evens,
        odds_of(interleaved(evens, odds)) == odds,
{
    let x = interleaved(evens, odds);
    assert forall|i: int| 0 <= i < evens.len() implies evens_of(x)[i] == evens[i] by {
        assert((2 * i) % 2 == 0 && (2 * i) / 2 == i);
    }
    assert forall|i: int| 0 <= i < odds.len() implies odds_of(x)[i] == odds[i] by {
        assert((2 * i + 1) % 2 == 1 && (2 * i + 1) / 2 == i);
    }
    assert(evens_of(x) =~= evens);
    assert(odds_of(x) =~= odds);
}

// ---------------------------------------------------------------------------------------
// N-D deinterleave
// ---------------------------------------------------------------------------------------
/// Source flat index of output flat index `k` when a row-major array of shape `shape` is
/// deinterleaved along every axis (even-indexed entries before odd-indexed entries along
/// each axis, the axes nested in row-major order).
pub open spec fn deint_nd_src(shape: Seq<usize>, k: int) -> int
    decreases shape.len(),
{
    if shape.len() == 0 {
        k
    } else if shape.len() == 1 {
        deint_src(shape[0] as int, k)
    } else {
        let sub = shape_prod(shape.drop_first());
        deint_src(shape[0] as int, k / sub) * sub + deint_nd_src(shape.drop_first(), k % sub)
    }
}

proof fn lemma_deint_src_range(n: int, k: int)
    requires
        0 <= k < n,
    ensures
        0 <= deint_src(n, k) < n,
{
}

proof fn lemma_divmod(x: int, d: int)
    requires
        d > 0,
    ensures
        x == d * (x / d) + x % d,
        0 <= x % d < d,
{
    lemma_fundamental_div_mod(x, d);
    lemma_mod_bound(x, d);
}

proof fn lemma_row_col(r: int, c: int, sub: int)
    requires
        sub > 0,
        0 <= c < sub,
    ensures
        (r * sub + c) / sub == r,
        (r * sub + c) % sub == c,
{
    lemma_fundamental_div_mod_converse(r * sub + c, sub, r, c);
}

proof fn lemma_row_bound(r: int, c: int, sub: int, n: int)
    requires
        sub > 0,
        0 <= c < sub,
        0 <= r < n,
    ensures
        0 <= r * sub + c < n * sub,
{
    assert(0 <= r * sub + c < n * sub) by (nonlinear_arith)
        requires
            sub > 0,
            0 <= c < sub,
            0 <= r < n,
    ;
}

/// Every output position maps to a source position inside the array.
proof fn lemma_deint_nd_src_range(shape: Seq<usize>, k: int)
    requires
        0 <= k < shape_prod(shape),
        forall|j: int| 1 <= j < shape.len() ==> shape[j] > 0,
    ensures
        0 <= deint_nd_src(shape, k) < shape_prod(shape),
    decreases shape.len(),
{
    if shape.len() == 1 {
        assert(shape.drop_first() =~= Seq::<usize>::empty());
        assert(shape_prod(shape.drop_first()) == 1);
        assert(shape_prod(shape) == shape[0] * 1);
        assert(shape[0] * 1 == shape[0]);
        lemma_deint_src_range(shape[0] as int, k);
    } else if shape.len() >= 2 {
        let tail = shape.drop_first();
        let sub = shape_prod(tail);
        lemma_sub_prod_pos(shape);
        lemma_divmod(k, sub);
        let r = k / sub;
        let c = k % sub;
        assert(r < shape[0]) by (nonlinear_arith)
            requires
                k == sub * r + c,
                0 <= c,
                sub > 0,
                k < shape[0] * sub,
        ;
        assert(r >= 0) by (nonlinear_arith)
            requires
                k == sub * r + c,
                c < sub,
                sub > 0,
                k >= 0,
        ;
        lemma_deint_nd_src_range(tail, c);
        lemma_deint_src_range(shape[0] as int, r);
        lemma_row_bound(deint_src(shape[0] as int, r), deint_nd_src(tail, c), sub, shape[0] as int);
    }
}

/// The lengths after the first one multiply to a positive number.
proof fn lemma_sub_prod_pos(shape: Seq<usize>)
    requires
        shape.len() >= 1,
        forall|j: int| 1 <= j < shape.len() ==> shape[j] > 0,
    ensures
        shape_prod(shape.drop_first()) > 0,
    decreases shape.len(),
{
    let tail = shape.drop_first();
    if tail.len() > 0 {
        lemma_sub_prod_pos(tail);
        assert(tail[0] * shape_prod(tail.drop_first()) > 0) by (nonlinear_arith)
            requires
                tail[0] > 0,
                shape_prod(tail.drop_first()) > 0,
        ;
    }
}

/// Deinterleave the row-major sub-array of shape `shape` that starts at `in_off` in `input`
/// into `output` starting at `out_off`.
fn deinterleave_nd_unchecked<T: Copy>(
    input: &[T],
    in_off: usize,
    output: &mut [T],
    out_off: usize,
    shape: &[usize],
)
    requires
        shape@.len() >= 1,
        forall|j: int| 1 <= j < shape@.len() ==> shape@[j] > 0,
        suffix_prods_fit(shape@),
        in_off + shape_prod(shape@) <= input@.len(),
        out_off + shape_prod(shape@) <= old(output)@.len(),
    ensures
        final(output)@.len() == old(output)@.len(),
        forall|k: int|
            0 <= k < shape_prod(shape@) ==> final(output)@[out_off + k] == input@[in_off
                + deint_nd_src(shape@, k)],
        forall|j: int|
            0 <= j < old(output)@.len() && !(out_off <= j < out_off + shape_prod(shape@))
                ==> final(output)@[j] == old(output)@[j],
    decreases shape@.len(),
{
    proof {
        lemma_shape_prod_nonneg(shape@);
        assert(input@.len() == input.len());
        assert(output@.len() == output.len());
    }
    let n0 = shape[0];
    if shape.len() == 1 {
        proof {
            assert(shape@.drop_first() =~= Seq::<usize>::empty());
            assert(shape_prod(Seq::<usize>::empty()) == 1);
            assert(shape_prod(shape@) == n0 * 1);
        }
        let mut k: usize = 0;
        while k < n0
            invariant
                shape@.len() == 1,
                n0 == shape@[0],
                shape_prod(shape@) == n0,
                k <= n0,
                in_off + n0 <= input@.len(),
                out_off + n0 <= output@.len(),
                input@.len() <= usize::MAX,
                output@.len() <= usize::MAX,
                output@.len() == old(output)@.len(),
                forall|j: int|
                    0 <= j < k ==> output@[out_off + j] == input@[in_off + deint_src(
                        n0 as int,
                        j,
                    )],
                forall|j: int|
                    0 <= j < old(output)@.len() && !(out_off <= j < out_off + k) ==> output@[j]
                        == old(output)@[j],
            decreases n0 - k,
        {
            let half = div_ceil2(n0);
            let src = if k < half {
                2 * k
            } else {
                2 * (k - half) + 1
            };
            proof {
                lemma_deint_src_range(n0 as int, k as int);
            }
            output[out_off + k] = input[in_off + src];
            k += 1;
        }
        return;
    }
    let (_, tail) = shape.split_at(1);
    proof {
        assert(tail@ =~= shape@.drop_first());
        lemma_sub_prod_pos(shape@);
        lemma_shape_prod_nonneg(tail@);
        lemma_suffix_prods_fit_tail(shape@);
    }
    let ghost sub_i = shape_prod(tail@);
    let ghost total = shape_prod(shape@);
    let sub = total_len(tail);
    let half = div_ceil2(n0);
    let mut r: usize = 0;
    while r < n0
        invariant
            shape@.len() >= 2,
            tail@ == shape@.drop_first(),
            n0 == shape@[0],
            half == (n0 + 1) / 2,
            sub == sub_i,
            sub_i == shape_prod(tail@),
            sub_i > 0,
            total == shape_prod(shape@),
            total == n0 * sub_i,
            forall|j: int| 1 <= j < shape@.len() ==> shape@[j] > 0,
            suffix_prods_fit(tail@),
            r <= n0,
            in_off + total <= input@.len(),
            out_off + total <= output@.len(),
            input@.len() <= usize::MAX,
            output@.len() <= usize::MAX,
            output@.len() == old(output)@.len(),
            forall|k: int|
                0 <= k < r * sub_i ==> output@[out_off + k] == input@[in_off + deint_nd_src(
                    shape@,
                    k,
                )],
            forall|j: int|
                0 <= j < old(output)@.len() && !(out_off <= j < out_off + r * sub_i)
                    ==> output@[j] == old(output)@[j],
        decreases n0 - r,
    {
        let src_r = if r < half {
            2 * r
        } else {
            2 * (r - half) + 1
        };
        proof {
            lemma_deint_src_range(n0 as int, r as int);
            lemma_row_bound(src_r as int, 0, sub_i, n0 as int);
            lemma_row_bound(r as int, 0, sub_i, n0 as int);
            assert((src_r + 1) * sub_i <= total) by (nonlinear_arith)
                requires
                    src_r < n0,
                    total == n0 * sub_i,
                    sub_i > 0,
            ;
            assert((r + 1) * sub_i <= total) by (nonlinear_arith)
                requires
                    r < n0,
                    total == n0 * sub_i,
                    sub_i > 0,
            ;
            assert((r + 1) * sub_i == r * sub_i + sub_i) by (nonlinear_arith);
            assert((src_r + 1) * sub_i == src_r * sub_i + sub_i) by (nonlinear_arith);
        }
        let ghost prev = output@;
        deinterleave_nd_unchecked(input, in_off + src_r * sub, output, out_off + r * sub, tail);
        proof {
            assert forall|k: int| 0 <= k < (r + 1) * sub_i implies output@[out_off + k]
                == input@[in_off + deint_nd_src(shape@, k)] by {
                if k >= r * sub_i {
                    let c = k - r * sub_i;
                    assert(c < sub_i);
                    lemma_row_col(r as int, c, sub_i);
                    assert(k == r * sub_i + c);
                    assert(k / sub_i == r);
                    assert(k % sub_i == c);
                    assert(deint_src(n0 as int, r as int) == src_r);
                    assert(deint_nd_src(shape@, k) == deint_src(shape@[0] as int, k / sub_i) * sub_i
                        + deint_nd_src(shape@.drop_first(), k % sub_i));
                    assert(deint_nd_src(shape@, k) == src_r * sub_i + deint_nd_src(tail@, c));
                    assert(output@[out_off + r * sub_i + c] == input@[in_off + src_r * sub_i
                        + deint_nd_src(tail@, c)]);
                } else {
                    assert(prev[out_off + k] == output@[out_off + k]);
                }
            }
        }
        r += 1;
    }
}

/// Number of elements of an array of the given shape.
pub fn total_len(shape: &[usize]) -> (n: usize)
    requires
        suffix_prods_fit(shape@),
    ensures
        n == shape_prod(shape@),
{
    let mut n: usize = 1;
    let mut k = shape.len();
    proof {
        assert(shape@.subrange(k as int, k as int) =~= Seq::<usize>::empty());
    }
    while k > 0
        invariant
            k <= shape@.len(),
            suffix_prods_fit(shape@),
            n == shape_prod(shape@.subrange(k as int, shape@.len() as int)),
        decreases k,
    {
        proof {
            lemma_suffix_prod_step(shape@, k - 1);
        }
        n = shape[k - 1] * n;
        k -= 1;
    }
    proof {
        assert(shape@.subrange(0, shape@.len() as int) =~= shape@);
    }
    n
}

/// Product of a two-axis shape.
proof fn lemma_shape_prod_2(s: Seq<usize>)
    requires
        s.len() == 2,
    ensures
        shape_prod(s) == s[0] * s[1],
        shape_prod(s.drop_first()) == s[1],
{
    let t = s.drop_first();
    assert(t.drop_first() =~= Seq::<usize>::empty());
    assert(shape_prod(t.drop_first()) == 1);
    assert(shape_prod(t) == t[0] * 1);
    assert(t[0] == s[1]);
}

/// Deinterleave a 2-D row-major array: separate even- and odd-indexed elements along the
/// first axis, then along the second axis.
///
/// `shape` is `[rows, cols]`.  `output` receives the same elements rearranged so that
/// approximation coefficients precede detail coefficients along each axis.
pub fn deinterleave_2d<T: Copy>(input: &[T], output: &mut [T], shape: &[usize; 2])
    requires
        shape[0] * shape[1] <= usize::MAX,
        input@.len() == shape[0] * shape[1],
        old(output)@.len() == shape[0] * shape[1],
        0 < shape[1],
        2 * shape[1] <= usize::MAX,
    ensures
        final(output)@.len() == old(output)@.len(),
        forall|k: int|
            0 <= k < shape[0] * shape[1] ==> final(output)@[k] == input@[deint_nd_src(
                shape@,
                k,
            )],
{
    let sh = shape.as_slice();
    proof {
        let s = sh@;
        assert(s.len() == 2);
        lemma_shape_prod_2(s);
        assert(s.subrange(0, 2) =~= s);
        assert(s.subrange(1, 2) =~= s.drop_first());
        assert(s.subrange(2, 2) =~= Seq::<usize>::empty());
        assert(suffix_prods_fit(s));
    }
    deinterleave_nd_unchecked(input, 0, output, 0, sh);
}

/// Deinterleave an N-D row-major array along every axis.
///
/// Dispatches to [`deinterleave`] (the first `ceil(n/2)` entries of `output` receive the
/// even-indexed samples, the rest the odd-indexed ones), [`deinterleave_2d`], or a
/// recursive N-D implementation based on `shape.len()`.  An empty shape leaves `output`
/// untouched.
pub fn deinterleave_nd<T: Copy>(input: &[T], output: &mut [T], shape: &[usize])
    requires
        shape@.len() == 1 ==> ({
            let h = (shape@[0] + 1) / 2;
            &&& h <= old(output)@.len()
            &&& (input@.len() + 1) / 2 == h
            &&& input@.len() / 2 == old(output)@.len() - h
        }),
        shape@.len() >= 2 ==> ({
            &&& suffix_prods_fit(shape@)
            &&& input@.len() == shape_prod(shape@)
            &&& old(output)@.len() == shape_prod(shape@)
            &&& forall|j: int| 1 <= j < shape@.len() ==> shape@[j] > 0
            &&& 2 * shape_prod(shape@.drop_first()) <= usize::MAX
        }),
    ensures
        final(output)@.len() == old(output)@.len(),
        shape@.len() == 0 ==> final(output)@ == old(output)@,
        shape@.len() == 1 ==> final(output)@ == evens_of(input@) + odds_of(input@),
        shape@.len() >= 2 ==> forall|k: int|
            0 <= k < shape_prod(shape@) ==> final(output)@[k] == input@[deint_nd_src(
                shape@,
                k,
            )],
{
    if shape.len() == 0 {
        return;
    }
    if shape.len() == 1 {
        let (f, s) = output.split_at_mut(div_ceil2(shape[0]));
        deinterleave(input, f, s);
        return;
    }
    if shape.len() == 2 {
        let arr: [usize; 2] = [shape[0], shape[1]];
        proof {
            let s = shape@;
            assert(arr@ =~= s);
            lemma_shape_prod_2(s);
            assert(s.subrange(0, 2) =~= s);
            assert(shape_prod(s.subrange(0, 2)) <= usize::MAX);
        }
        deinterleave_2d(input, output, &arr);
        return;
    }
    deinterleave_nd_unchecked(input, 0, output, 0, shape);
}

} // verus!
