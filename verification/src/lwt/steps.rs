//! Lifting steps: update, predict and scaling of integer sub-bands.
use crate::boundarys::{fits_i64, value_or_zero, BoundaryExtension};
use vstd::prelude::*;

verus! {

// ---------------------------------------------------------------------------------------
// Offsets of a lifting filter
// ---------------------------------------------------------------------------------------
/// Index of the last input a filter of `N` taps starting at `offset` reads, relative to the
/// output index: `N - 1 - offset`.
pub fn max_offset<const N: usize>(offset: isize) -> (r: isize)
    requires
        N <= isize::MAX,
        isize::MIN <= N - 1 - offset <= isize::MAX,
    ensures
        r == N - 1 - offset,
{
    (N as isize) - 1 - offset
}

/// Start offset of the reversed (adjoint) filter: `-(N - 1 - offset)`.
pub fn offset_r<const N: usize>(offset: isize) -> (r: isize)
    requires
        N <= isize::MAX,
        isize::MIN < N - 1 - offset <= isize::MAX,
    ensures
        r == offset - (N - 1),
{
    -max_offset::<N>(offset)
}

/// Last-input offset of the reversed filter: `N - 1 + offset_r`, which is `offset`.
pub fn max_offset_r<const N: usize>(offset: isize) -> (r: isize)
    requires
        N <= isize::MAX,
        isize::MIN < N - 1 - offset <= isize::MAX,
    ensures
        r == offset,
{
    (N as isize) - 1 + offset_r::<N>(offset)
}

/// Number of leading outputs whose window starts before the first input.
pub fn n_front<const N: usize>(offset: isize) -> (r: usize)
    requires
        offset > isize::MIN,
    ensures
        r == if offset < 0 {
            -offset
        } else {
            0
        },
{
    if offset < 0 {
        (-offset) as usize
    } else {
        0
    }
}

/// Number of trailing outputs whose window reaches past the last input.
pub fn n_back<const N: usize>(offset: isize) -> (r: usize)
    requires
        N <= isize::MAX,
        isize::MIN <= N - 1 - offset <= isize::MAX,
    ensures
        r == if N - 1 - offset < 0 {
            0
        } else {
            N - 1 - offset
        },
{
    if max_offset::<N>(offset) < 0 {
        0
    } else {
        max_offset::<N>(offset) as usize
    }
}

/// [`n_front`] of the reversed filter.
pub fn n_front_r<const N: usize>(offset: isize) -> (r: usize)
    requires
        N <= isize::MAX,
        isize::MIN < N - 1 - offset <= isize::MAX,
    ensures
        r == if offset - (N - 1) < 0 {
            (N - 1) - offset
        } else {
            0
        },
{
    if offset_r::<N>(offset) < 0 {
        (-offset_r::<N>(offset)) as usize
    } else {
        0
    }
}

/// Back count of the reversed filter: zero when its last-input offset is negative and
/// otherwise the negated offset reinterpreted as a `usize` (wrapping).
pub fn n_back_r<const N: usize>(offset: isize) -> (r: usize)
    requires
        N <= isize::MAX,
        isize::MIN < N - 1 - offset <= isize::MAX,
        offset > isize::MIN,
    ensures
        r == if offset < 0 {
            0
        } else {
            (-offset) as usize
        },
{
    if max_offset_r::<N>(offset) < 0 {
        0
    } else {
        #[verifier::truncate]
        ((-max_offset_r::<N>(offset)) as usize)
    }
}

// ---------------------------------------------------------------------------------------
// The update step
// ---------------------------------------------------------------------------------------
/// Calls `num_traits::MulAdd::mul_add` for `i64`, which num-traits computes as
/// `(self * a) + b`; the contract states that value and excludes the operands on which
/// the integer arithmetic would overflow.
#[verifier::external_body]
pub(crate) fn fused_mul_add(x: i64, a: i64, b: i64) -> (r: i64)
    requires
        fits_i64(x * a),
        fits_i64(x * a + b),
    ensures
        r == x * a + b,
{
    <i64 as num_traits::MulAdd>::mul_add(x, a, b)
}

/// Contribution of tap `t` of the filter to the output whose window starts at input `j`.
pub open spec fn lift_term<BC: BoundaryExtension>(
    bc: BC,
    coefs: Seq<i64>,
    x: Seq<i64>,
    j: int,
    t: int,
) -> int {
    value_or_zero(bc.extension(x, j + t)) * coefs[t]
}

/// Sum of the first `k` taps for the window starting at input `j`.
pub open spec fn lift_sum<BC: BoundaryExtension>(
    bc: BC,
    coefs: Seq<i64>,
    x: Seq<i64>,
    j: int,
    k: nat,
) -> int
    decreases k,
{
    if k == 0 {
        0
    } else {
        lift_sum(bc, coefs, x, j, (k - 1) as nat) + lift_term(bc, coefs, x, j, k - 1)
    }
}

/// Output `i` after the update: `y[i] + sum_t coefs[t] * ext(x, i + offset + t)`.
pub open spec fn lift_output<BC: BoundaryExtension>(
    bc: BC,
    offset: int,
    coefs: Seq<i64>,
    x: Seq<i64>,
    y: Seq<i64>,
    i: int,
) -> int {
    y[i] + lift_sum(bc, coefs, x, i + offset, coefs.len())
}

/// Whether the update of output `i` reads only extensions the boundary can compute and
/// every partial result of the fused multiply-adds is an `i64`.
pub open spec fn lift_output_ok<BC: BoundaryExtension>(
    bc: BC,
    offset: int,
    coefs: Seq<i64>,
    x: Seq<i64>,
    y: Seq<i64>,
    i: int,
) -> bool {
    let j = i + offset;
    &&& j + coefs.len() <= isize::MAX
    &&& forall|q: int| j <= q < j + coefs.len() ==> #[trigger] bc.get_bc_ok(x, q)
    &&& forall|t: int| 0 <= t < coefs.len() ==> fits_i64(lift_term(bc, coefs, x, j, t))
    &&& forall|k: nat| k <= coefs.len() ==> fits_i64(lift_sum(bc, coefs, x, j, k))
    &&& fits_i64(lift_output(bc, offset, coefs, x, y, i))
}

/// Lifting update: add a boundary-extended filtering of `x` to `y`,
/// `y[i] += sum_t coefs[t] * ext(x, i + offset + t)`, where `ext` is the boundary
/// extension `bc` of `x` (a `None` extension contributes nothing).
pub fn update_step<const N: usize, BC: BoundaryExtension>(
    offset: isize,
    coefs: &[i64; N],
    x: &[i64],
    y: &mut [i64],
    bc: &BC,
)
    requires
        N <= isize::MAX,
        offset > isize::MIN / 2,
        old(y)@.len() <= isize::MAX / 2,
        forall|i: int|
            0 <= i < old(y)@.len() ==> lift_output_ok(*bc, offset as int, coefs@, x@, old(y)@, i),
    ensures
        final(y)@.len() == old(y)@.len(),
        forall|i: int|
            0 <= i < old(y)@.len() ==> final(y)@[i] == lift_output(
                *bc,
                offset as int,
                coefs@,
                x@,
                old(y)@,
                i,
            ),
{
    let ny = y.len();
    let mut i: usize = 0;
    while i < ny
        invariant
            ny == y@.len(),
            ny == old(y)@.len(),
            ny <= isize::MAX / 2,
            offset > isize::MIN / 2,
            i <= ny,
            N <= isize::MAX,
            forall|i: int|
                0 <= i < old(y)@.len() ==> lift_output_ok(
                    *bc,
                    offset as int,
                    coefs@,
                    x@,
                    old(y)@,
                    i,
                ),
            forall|k: int|
                0 <= k < i ==> y@[k] == lift_output(*bc, offset as int, coefs@, x@, old(y)@, k),
            forall|k: int| i <= k < ny ==> y@[k] == old(y)@[k],
        decreases ny - i,
    {
        proof {
            assert(lift_output_ok(*bc, offset as int, coefs@, x@, old(y)@, i as int));
        }
        let j = (i as isize) + offset;
        let mut acc: i64 = 0;
        let mut t: usize = 0;
        while t < N
            invariant
                t <= N,
                N == coefs@.len(),
                N <= isize::MAX,
                j == i + offset,
                lift_output_ok(*bc, offset as int, coefs@, x@, old(y)@, i as int),
                acc == lift_sum(*bc, coefs@, x@, j as int, t as nat),
            decreases N - t,
        {
            let idx = j + (t as isize);
            proof {
                assert(bc.get_bc_ok(x@, idx as int));
            }
            match bc.get_bc(x, idx) {
                Some(xo) => {
                    proof {
                        assert(bc.extension(x@, j + t) == Some(xo as int));
                        assert(fits_i64(lift_term(*bc, coefs@, x@, j as int, t as int)));
                        assert(fits_i64(lift_sum(*bc, coefs@, x@, j as int, (t + 1) as nat)));
                    }
                    acc = fused_mul_add(xo, coefs[t], acc);
                },
                None => {
                    proof {
                        assert(bc.extension(x@, j + t) == None::<int>);
                        assert(value_or_zero(bc.extension(x@, j + t)) == 0);
                        assert(0 * (coefs@[t as int] as int) == 0);
                        assert(lift_term(*bc, coefs@, x@, j as int, t as int) == 0);
                    }
                },
            }
            t += 1;
        }
        y[i] = y[i] + acc;
        i += 1;
    }
}

/// Scale every entry of `x` by `s`.
pub fn scale_slice(s: i64, x: &mut [i64])
    requires
        forall|k: int| 0 <= k < old(x)@.len() ==> fits_i64(old(x)@[k] * s),
    ensures
        final(x)@.len() == old(x)@.len(),
        forall|k: int| 0 <= k < old(x)@.len() ==> final(x)@[k] == old(x)@[k] * s,
{
    let n = x.len();
    let mut k: usize = 0;
    while k < n
        invariant
            n == x@.len(),
            n == old(x)@.len(),
            k <= n,
            forall|k: int| 0 <= k < old(x)@.len() ==> fits_i64(old(x)@[k] * s),
            forall|j: int| 0 <= j < k ==> x@[j] == old(x)@[j] * s,
            forall|j: int| k <= j < n ==> x@[j] == old(x)@[j],
        decreases n - k,
    {
        x[k] = x[k] * s;
        k += 1;
    }
}

// ---------------------------------------------------------------------------------------
// Lifting steps
// ---------------------------------------------------------------------------------------
/// The entries of an `i64` sequence read as integers.
pub open spec fn ints(s: Seq<i64>) -> Seq<int> {
    s.map_values(|v: i64| v as int)
}

/// The outputs of an update of `y` by the filtered extension of `x`.
pub open spec fn lifted<BC: BoundaryExtension>(
    bc: BC,
    offset: int,
    coefs: Seq<i64>,
    x: Seq<i64>,
    y: Seq<i64>,
) -> Seq<int> {
    Seq::new(y.len(), |i: int| lift_output(bc, offset, coefs, x, y, i))
}

/// Whether every output of the update of `y` can be computed.
pub open spec fn lifted_ok<BC: BoundaryExtension>(
    bc: BC,
    offset: int,
    coefs: Seq<i64>,
    x: Seq<i64>,
    y: Seq<i64>,
) -> bool {
    &&& coefs.len() <= isize::MAX
    &&& offset > isize::MIN / 2
    &&& y.len() <= isize::MAX / 2
    &&& forall|i: int| 0 <= i < y.len() ==> lift_output_ok(bc, offset, coefs, x, y, i)
}

/// The coefficients with their signs flipped.
pub open spec fn negated(coefs: Seq<i64>) -> Seq<i64> {
    coefs.map_values(|c: i64| (-c) as i64)
}

/// No coefficient is `i64::MIN`, so that every coefficient can be negated.
pub open spec fn negatable(coefs: Seq<i64>) -> bool {
    forall|k: int| 0 <= k < coefs.len() ==> coefs[k] != i64::MIN
}

/// The taps of the negated filter sum to the negated sum.
proof fn lemma_lift_sum_negated<BC: BoundaryExtension>(
    bc: BC,
    coefs: Seq<i64>,
    x: Seq<i64>,
    j: int,
    k: nat,
)
    requires
        negatable(coefs),
        k <= coefs.len(),
    ensures
        lift_sum(bc, negated(coefs), x, j, k) == -lift_sum(bc, coefs, x, j, k),
    decreases k,
{
    if k > 0 {
        lemma_lift_sum_negated(bc, coefs, x, j, (k - 1) as nat);
        let v = value_or_zero(bc.extension(x, j + k - 1));
        let c = coefs[k - 1] as int;
        assert(negated(coefs)[k - 1] == -c);
        assert(v * (-c) == -(v * c)) by (nonlinear_arith);
    }
}

/// A lifting update is undone by the update with negated coefficients: updating `y0` into
/// `y1` and then updating `y1` with the negated filter of the same `x` gives `y0` back.
pub proof fn lemma_update_undo<BC: BoundaryExtension>(
    bc: BC,
    offset: int,
    coefs: Seq<i64>,
    x: Seq<i64>,
    y0: Seq<i64>,
    y1: Seq<i64>,
)
    requires
        negatable(coefs),
        ints(y1) == lifted(bc, offset, coefs, x, y0),
    ensures
        lifted(bc, offset, negated(coefs), x, y1) == ints(y0),
{
    assert(y1.len() == ints(y1).len());
    assert forall|i: int| 0 <= i < y0.len() implies lifted(bc, offset, negated(coefs), x, y1)[i]
        == ints(y0)[i] by {
        lemma_lift_sum_negated(bc, coefs, x, i + offset, coefs.len());
        assert(ints(y1)[i] == y1[i] as int);
    }
    assert(lifted(bc, offset, negated(coefs), x, y1) =~= ints(y0));
}

/// Negate every coefficient of a filter.
fn negate_coefs<const N: usize>(coefs: &[i64; N]) -> (inv: [i64; N])
    requires
        negatable(coefs@),
    ensures
        inv@ == negated(coefs@),
{
    let mut inv = *coefs;
    let mut k: usize = 0;
    while k < N
        invariant
            k <= N,
            N == coefs@.len(),
            inv@.len() == N,
            negatable(coefs@),
            forall|j: int| 0 <= j < k ==> inv@[j] == -coefs@[j],
            forall|j: int| k <= j < N ==> inv@[j] == coefs@[j],
        decreases N - k,
    {
        let v = -inv[k];
        inv[k] = v;
        k += 1;
    }
    proof {
        assert(inv@ =~= negated(coefs@));
    }
    inv
}

/// Predict step: the detail channel is updated from the approximation channel,
/// `d[i] += sum_t coefs[t] * ext(s, i + offset + t)`.
pub struct UpdateD<const N: usize> {
    /// Position of the first tap relative to the output index.
    pub offset: isize,
    /// Filter taps.
    pub coefs: [i64; N],
}

impl<const N: usize> UpdateD<N> {
    /// Apply the predict step to `d`.
    pub fn forward<BC: BoundaryExtension>(&self, s: &mut [i64], d: &mut [i64], bc: &BC)
        requires
            lifted_ok(*bc, self.offset as int, self.coefs@, old(s)@, old(d)@),
        ensures
            final(s)@ == old(s)@,
            ints(final(d)@) == lifted(*bc, self.offset as int, self.coefs@, old(s)@, old(d)@),
    {
        update_step(self.offset, &self.coefs, s, d, bc);
        proof {
            assert(ints(d@) =~= lifted(*bc, self.offset as int, self.coefs@, old(s)@, old(d)@));
        }
    }

    /// Undo the predict step on `d`.
    pub fn inverse<BC: BoundaryExtension>(&self, s: &mut [i64], d: &mut [i64], bc: &BC)
        requires
            negatable(self.coefs@),
            lifted_ok(*bc, self.offset as int, negated(self.coefs@), old(s)@, old(d)@),
        ensures
            final(s)@ == old(s)@,
            ints(final(d)@) == lifted(
                *bc,
                self.offset as int,
                negated(self.coefs@),
                old(s)@,
                old(d)@,
            ),
    {
        let inv = negate_coefs(&self.coefs);
        update_step(self.offset, &inv, s, d, bc);
        proof {
            assert(ints(d@) =~= lifted(
                *bc,
                self.offset as int,
                negated(self.coefs@),
                old(s)@,
                old(d)@,
            ));
        }
    }
}

/// Update step: the approximation channel is updated from the detail channel,
/// `s[i] += sum_t coefs[t] * ext(d, i + offset + t)`.
pub struct UpdateS<const N: usize> {
    /// Position of the first tap relative to the output index.
    pub offset: isize,
    /// Filter taps.
    pub coefs: [i64; N],
}

impl<const N: usize> UpdateS<N> {
    /// Apply the update step to `s`.
    pub fn forward<BC: BoundaryExtension>(&self, s: &mut [i64], d: &mut [i64], bc: &BC)
        requires
            lifted_ok(*bc, self.offset as int, self.coefs@, old(d)@, old(s)@),
        ensures
            final(d)@ == old(d)@,
            ints(final(s)@) == lifted(*bc, self.offset as int, self.coefs@, old(d)@, old(s)@),
    {
        update_step(self.offset, &self.coefs, d, s, bc);
        proof {
            assert(ints(s@) =~= lifted(*bc, self.offset as int, self.coefs@, old(d)@, old(s)@));
        }
    }

    /// Undo the update step on `s`.
    pub fn inverse<BC: BoundaryExtension>(&self, s: &mut [i64], d: &mut [i64], bc: &BC)
        requires
            negatable(self.coefs@),
            lifted_ok(*bc, self.offset as int, negated(self.coefs@), old(d)@, old(s)@),
        ensures
            final(d)@ == old(d)@,
            ints(final(s)@) == lifted(
                *bc,
                self.offset as int,
                negated(self.coefs@),
                old(d)@,
                old(s)@,
            ),
    {
        let inv = negate_coefs(&self.coefs);
        update_step(self.offset, &inv, d, s, bc);
        proof {
            assert(ints(s@) =~= lifted(
                *bc,
                self.offset as int,
                negated(self.coefs@),
                old(d)@,
                old(s)@,
            ));
        }
    }
}

/// Integer quotient `1 / scale` (truncating, as Rust's integer division).
pub open spec fn reciprocal(scale: int) -> int {
    if scale == 1 {
        1
    } else if scale == -1 {
        -1
    } else {
        0
    }
}

/// Scaling step: `s` is multiplied by `scale` and `d` by `1 / scale` (forward), or the
/// other way round (inverse).  On integer samples the reciprocal is Rust's truncating
/// integer division `1 / scale`.
pub struct ScaleStep {
    /// Scale factor of the approximation channel.
    pub scale: i64,
}

impl ScaleStep {
    /// `1 / scale` in integer arithmetic (panics for a zero scale in Rust; excluded here).
    fn reciprocal(&self) -> (r: i64)
        requires
            self.scale != 0,
        ensures
            r == reciprocal(self.scale as int),
    {
        if self.scale == 1 {
            1
        } else if self.scale == -1 {
            -1
        } else {
            0
        }
    }

    /// Scale `s` by `scale` and `d` by `1 / scale`.
    pub fn forward(&self, s: &mut [i64], d: &mut [i64])
        requires
            self.scale != 0,
            forall|k: int| 0 <= k < old(s)@.len() ==> fits_i64(old(s)@[k] * self.scale),
            forall|k: int|
                0 <= k < old(d)@.len() ==> fits_i64(old(d)@[k] * reciprocal(self.scale as int)),
        ensures
            final(s)@.len() == old(s)@.len(),
            final(d)@.len() == old(d)@.len(),
            forall|k: int| 0 <= k < old(s)@.len() ==> final(s)@[k] == old(s)@[k] * self.scale,
            forall|k: int|
                0 <= k < old(d)@.len() ==> final(d)@[k] == old(d)@[k] * reciprocal(
                    self.scale as int,
                ),
    {
        scale_slice(self.scale, s);
        let r = self.reciprocal();
        scale_slice(r, d);
    }

    /// Scale `s` by `1 / scale` and `d` by `scale`.
    pub fn inverse(&self, s: &mut [i64], d: &mut [i64])
        requires
            self.scale != 0,
            forall|k: int| 0 <= k < old(d)@.len() ==> fits_i64(old(d)@[k] * self.scale),
            forall|k: int|
                0 <= k < old(s)@.len() ==> fits_i64(old(s)@[k] * reciprocal(self.scale as int)),
        ensures
            final(s)@.len() == old(s)@.len(),
            final(d)@.len() == old(d)@.len(),
            forall|k: int|
                0 <= k < old(s)@.len() ==> final(s)@[k] == old(s)@[k] * reciprocal(
                    self.scale as int,
                ),
            forall|k: int| 0 <= k < old(d)@.len() ==> final(d)@[k] == old(d)@[k] * self.scale,
    {
        let r = self.reciprocal();
        scale_slice(r, s);
        scale_slice(self.scale, d);
    }
}

} // verus!
