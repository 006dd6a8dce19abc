//! Boundary extension strategies for wavelet transforms.
//!
//! When a filter kernel reaches the edge of a signal it needs values outside the
//! array bounds.  Each type in this module implements a different convention for
//! providing those virtual out-of-bounds values.
//!
//! The signal samples handled here are `i64` values; every extension rule is stated
//! over mathematical integers so that the contracts say exactly which value is produced
//! for every virtual index.
use vstd::arithmetic::div_mod::{
    lemma_fundamental_div_mod, lemma_fundamental_div_mod_converse, lemma_mod_bound,
};
use vstd::prelude::*;

verus! {

// ---------------------------------------------------------------------------------------
// Arithmetic helpers
// ---------------------------------------------------------------------------------------
/// Whether an integer is representable as an `i64`.
pub open spec fn fits_i64(v: int) -> bool {
    i64::MIN <= v <= i64::MAX
}

/// Euclidean quotient and remainder of `x` by a positive `d`.
proof fn lemma_divmod(x: int, d: int)
    requires
        d > 0,
    ensures
        x == d * (x / d) + x % d,
        0 <= x % d < d,
{
    lemma_fundamental_div_mod(x, d);
    lemma_mod_bound(x, d);
}

/// The Euclidean quotient and remainder are the unique `q`, `r` with `x == q * d + r`.
proof fn lemma_divmod_of(x: int, d: int, q: int, r: int)
    requires
        d > 0,
        0 <= r < d,
        x == q * d + r,
    ensures
        x / d == q,
        x % d == r,
{
    lemma_fundamental_div_mod_converse(x, d, q, r);
}

// ---------------------------------------------------------------------------------------
// Index maps of the extension rules
// ---------------------------------------------------------------------------------------
/// Nearest in-bounds index (edge repetition) for a signal of length `n > 0`.
pub open spec fn clamp_index(n: int, i: int) -> int {
    if i < 0 {
        0
    } else if i > n - 1 {
        n - 1
    } else {
        i
    }
}

/// Mirror image of `i` for even reflection about the edge samples (edge repeated):
/// the extension is periodic with period `2n` and mirrored within each period.
pub open spec fn sym_index(n: int, i: int) -> int {
    let r = i % (2 * n);
    if r < n {
        r
    } else {
        2 * n - 1 - r
    }
}

/// Whether an even reflection of index `i` lands an odd number of mirrors away from the
/// signal, i.e. whether the block `i / n` that holds `i` is odd.
pub open spec fn sym_negated(n: int, i: int) -> bool {
    (i / n) % 2 != 0
}

/// Mirror image of `i` for reflection about the edge samples without repeating them:
/// the extension is periodic with period `2(n - 1)` (requires `n >= 2`).
pub open spec fn reflect_index(n: int, i: int) -> int {
    let p = 2 * (n - 1);
    let r = i % p;
    if r < n {
        r
    } else {
        p - r
    }
}

/// Decomposition of an index `j >= 1` to the right of the first sample for the odd
/// (antireflective) extension with last index `m >= 1`:
/// `(index, sign, weight of the first sample, weight of the last sample)`.
pub open spec fn upper_antireflection(m: int, j: int) -> (int, int, int, int) {
    let r = (j - 1) % (2 * m) + 1;
    let q = (j - 1) / (2 * m);
    if r <= m {
        (r, 1, -2 * q, 2 * q)
    } else {
        (2 * m - r, -1, -2 * q, 2 * q + 2)
    }
}

/// Decomposition of the antireflective extension of a signal of length `n >= 2` at index
/// `i` into `(index, sign, weight of data[0], weight of data[n - 1])`: the extended value is
/// `sign * data[index] + w0 * data[0] + w1 * data[n - 1]`.
pub open spec fn antireflect_parts(n: int, i: int) -> (int, int, int, int) {
    let m = n - 1;
    if 0 <= i <= m {
        (i, 1, 0, 0)
    } else if i > m {
        upper_antireflection(m, i)
    } else {
        let u = upper_antireflection(m, -i);
        (u.0, -u.1, 2 - u.2, -u.3)
    }
}

/// Value of the antireflective (odd-symmetric) extension of `data` (length >= 2) at `i`.
pub open spec fn antireflect_value(data: Seq<i64>, i: int) -> int {
    let p = antireflect_parts(data.len() as int, i);
    signed(p.1 < 0, data[p.0] as int) + (data[0] * p.2 + data[data.len() - 1] * p.3)
}

// ---------------------------------------------------------------------------------------
// Lemmas on the index maps
// ---------------------------------------------------------------------------------------
/// Inside the signal every index map is the identity.
proof fn lemma_in_range(n: int, i: int)
    requires
        n > 0,
        0 <= i < n,
    ensures
        sym_index(n, i) == i,
        !sym_negated(n, i),
        n >= 2 ==> reflect_index(n, i) == i,
{
    lemma_divmod_of(i, 2 * n, 0, i);
    lemma_divmod_of(i, n, 0, i);
    if n >= 2 {
        lemma_divmod_of(i, 2 * (n - 1), 0, i);
    }
}

/// Even reflection about the first sample: `i < 0` maps to `-(i + 1)`.
proof fn lemma_sym_left(n: int, i: int)
    requires
        n > 0,
        i < 0,
    ensures
        sym_index(n, i) == sym_index(n, -(i + 1)),
        sym_negated(n, i) != sym_negated(n, -(i + 1)),
{
    let d = 2 * n;
    lemma_divmod(i, d);
    let q = i / d;
    let r = i % d;
    assert(-(i + 1) == (-q - 1) * d + (d - 1 - r)) by (nonlinear_arith)
        requires
            i == d * q + r,
    ;
    lemma_divmod_of(-(i + 1), d, -q - 1, d - 1 - r);
    lemma_divmod(i, n);
    let b = i / n;
    let s = i % n;
    assert(-(i + 1) == (-b - 1) * n + (n - 1 - s)) by (nonlinear_arith)
        requires
            i == n * b + s,
    ;
    lemma_divmod_of(-(i + 1), n, -b - 1, n - 1 - s);
}

/// Even reflection about the last sample: `i >= n` maps to `2n - 1 - i`.
proof fn lemma_sym_right(n: int, i: int)
    requires
        n > 0,
        i >= n,
    ensures
        sym_index(n, i) == sym_index(n, 2 * n - 1 - i),
        sym_negated(n, i) != sym_negated(n, 2 * n - 1 - i),
{
    let d = 2 * n;
    lemma_divmod(i, d);
    let q = i / d;
    let r = i % d;
    assert(2 * n - 1 - i == (-q) * d + (d - 1 - r)) by (nonlinear_arith)
        requires
            i == d * q + r,
            d == 2 * n,
    ;
    lemma_divmod_of(2 * n - 1 - i, d, -q, d - 1 - r);
    lemma_divmod(i, n);
    let b = i / n;
    let s = i % n;
    assert(2 * n - 1 - i == (1 - b) * n + (n - 1 - s)) by (nonlinear_arith)
        requires
            i == n * b + s,
    ;
    lemma_divmod_of(2 * n - 1 - i, n, 1 - b, n - 1 - s);
}

/// Reflection about the first sample (no repetition): `i < 0` maps to `-i`.
proof fn lemma_reflect_left(n: int, i: int)
    requires
        n >= 2,
        i < 0,
    ensures
        reflect_index(n, i) == reflect_index(n, -i),
{
    let d = 2 * (n - 1);
    lemma_divmod(i, d);
    let q = i / d;
    let r = i % d;
    if r == 0 {
        assert(-i == (-q) * d + 0) by (nonlinear_arith)
            requires
                i == d * q + r,
                r == 0,
        ;
        lemma_divmod_of(-i, d, -q, 0);
    } else {
        assert(-i == (-q - 1) * d + (d - r)) by (nonlinear_arith)
            requires
                i == d * q + r,
        ;
        lemma_divmod_of(-i, d, -q - 1, d - r);
    }
}

/// Reflection about the last sample (no repetition): `i >= n` maps to `2(n - 1) - i`.
proof fn lemma_reflect_right(n: int, i: int)
    requires
        n >= 2,
        i >= n,
    ensures
        reflect_index(n, i) == reflect_index(n, 2 * (n - 1) - i),
{
    let d = 2 * (n - 1);
    lemma_divmod(i, d);
    let q = i / d;
    let r = i % d;
    if r == 0 {
        assert(d - i == (1 - q) * d + 0) by (nonlinear_arith)
            requires
                i == d * q + r,
                r == 0,
        ;
        lemma_divmod_of(d - i, d, 1 - q, 0);
    } else {
        assert(d - i == (-q) * d + (d - r)) by (nonlinear_arith)
            requires
                i == d * q + r,
        ;
        lemma_divmod_of(d - i, d, -q, d - r);
    }
}

/// Between the first and the last sample the antireflective decomposition is the identity.
proof fn lemma_upper_in_range(m: int, j: int)
    requires
        m >= 1,
        1 <= j <= m,
    ensures
        upper_antireflection(m, j) == (j, 1int, 0int, 0int),
{
    lemma_divmod_of(j - 1, 2 * m, 0, j - 1);
}

/// One mirror beyond the last sample.
proof fn lemma_upper_first_mirror(m: int, j: int)
    requires
        m >= 1,
        m < j <= 2 * m,
    ensures
        upper_antireflection(m, j) == (2 * m - j, -1int, 0int, 2int),
{
    lemma_divmod_of(j - 1, 2 * m, 0, j - 1);
}

/// Shifting by a full period `2m` adds one period's worth of trend.
proof fn lemma_upper_period(m: int, j: int)
    requires
        m >= 1,
        j >= 1,
    ensures
        ({
            let u = upper_antireflection(m, j);
            upper_antireflection(m, j + 2 * m) == (u.0, u.1, u.2 - 2, u.3 + 2)
        }),
{
    let d = 2 * m;
    lemma_divmod(j - 1, d);
    let q = (j - 1) / d;
    let r = (j - 1) % d;
    assert(j + d - 1 == (q + 1) * d + r) by (nonlinear_arith)
        requires
            j - 1 == d * q + r,
    ;
    lemma_divmod_of(j + d - 1, d, q + 1, r);
}


// ---------------------------------------------------------------------------------------
// Executable index folding
// ---------------------------------------------------------------------------------------
/// Distance measure that every folding step strictly decreases.
pub open spec fn fold_measure(i: int) -> int {
    if i < 0 {
        -2 * i + 1
    } else {
        2 * i
    }
}

/// Fold a virtual index into `[0, n)` by repeated even reflection about the edge samples,
/// tracking whether an odd number of reflections was taken.
fn symmetric_fold(n: isize, i: isize) -> (r: (isize, bool))
    requires
        1 <= n <= isize::MAX / 2,
    ensures
        r.0 == sym_index(n as int, i as int),
        r.1 == sym_negated(n as int, i as int),
        0 <= r.0 < n,
{
    let mut io = i;
    let mut neg = false;
    while io >= n || io < 0
        invariant
            1 <= n <= isize::MAX / 2,
            sym_index(n as int, io as int) == sym_index(n as int, i as int),
            sym_negated(n as int, i as int) == (neg != sym_negated(n as int, io as int)),
        decreases fold_measure(io as int),
    {
        if io < 0 {
            proof {
                lemma_sym_left(n as int, io as int);
            }
            io = -(io + 1);
        } else {
            proof {
                lemma_sym_right(n as int, io as int);
            }
            io = 2 * (n - 1) - (io - 1);
        }
        neg = !neg;
    }
    proof {
        lemma_in_range(n as int, io as int);
    }
    (io, neg)
}

/// Fold a virtual index into `[0, n)` by repeated reflection about the edge samples
/// without repeating them.
fn reflect_fold(n: isize, i: isize) -> (r: isize)
    requires
        2 <= n <= isize::MAX / 2,
        i > isize::MIN,
    ensures
        r == reflect_index(n as int, i as int),
        0 <= r < n,
{
    let mut io = i;
    while io >= n || io < 0
        invariant
            2 <= n <= isize::MAX / 2,
            io > isize::MIN,
            reflect_index(n as int, io as int) == reflect_index(n as int, i as int),
        decreases fold_measure(io as int),
    {
        if io < 0 {
            proof {
                lemma_reflect_left(n as int, io as int);
            }
            io = -io;
        } else {
            proof {
                lemma_reflect_right(n as int, io as int);
            }
            io = 2 * (n - 1) - io;
        }
    }
    proof {
        lemma_in_range(n as int, io as int);
    }
    io
}

/// `x` negated when `neg` holds.
pub open spec fn signed(neg: bool, x: int) -> int {
    if neg {
        -x
    } else {
        x
    }
}

/// Whether the weights of the antireflective decomposition at `i` are `i64` values.
pub open spec fn antireflect_weights_fit(n: int, i: int) -> bool {
    let p = antireflect_parts(n, i);
    fits_i64(p.2) && fits_i64(p.3)
}

/// Fold a virtual index into `[0, n)` by repeated odd reflection about the edge samples,
/// accumulating the weights that each reflection puts on the first and last samples.
/// Returns `(index, negated, weight of data[0], weight of data[n - 1])`.
fn antireflect_fold(n: isize, i: isize) -> (r: (isize, bool, i64, i64))
    requires
        2 <= n <= isize::MAX / 2,
        i > isize::MIN,
        antireflect_weights_fit(n as int, i as int),
    ensures
        ({
            let p = antireflect_parts(n as int, i as int);
            &&& r.0 == p.0
            &&& (if r.1 { -1int } else { 1int }) == p.1
            &&& r.2 == p.2
            &&& r.3 == p.3
        }),
        0 <= r.0 < n,
{
    let ghost m = n - 1;
    let mut io = i;
    let mut neg = false;
    let mut left_c: i128 = 0;
    let mut right_c: i128 = 0;
    let ghost mut steps: int = 0;
    while io >= n || io < 0
        invariant
            2 <= n <= isize::MAX / 2,
            m == n - 1,
            io > isize::MIN,
            0 <= steps,
            steps + fold_measure(io as int) <= fold_measure(i as int),
            -2 * steps <= left_c <= 2 * steps,
            -2 * steps <= right_c <= 2 * steps,
            ({
                let target = antireflect_parts(n as int, i as int);
                let cur = antireflect_parts(n as int, io as int);
                &&& target.0 == cur.0
                &&& target.1 == signed(neg, cur.1)
                &&& target.2 == left_c + signed(neg, cur.2)
                &&& target.3 == right_c + signed(neg, cur.3)
            }),
        decreases fold_measure(io as int),
    {
        if io < 0 {
            proof {
                if -io <= m {
                    lemma_upper_in_range(m, -io);
                }
            }
            io = -io;
            left_c += if neg { -2 } else { 2 };
        } else {
            proof {
                if io <= 2 * m {
                    lemma_upper_first_mirror(m, io as int);
                } else {
                    lemma_upper_period(m, io - 2 * m);
                    if io - 2 * m <= m {
                        lemma_upper_in_range(m, io - 2 * m);
                    }
                }
            }
            io = 2 * (n - 1) - io;
            right_c += if neg { -2 } else { 2 };
        }
        neg = !neg;
        proof {
            steps = steps + 1;
        }
    }
    (io, neg, left_c as i64, right_c as i64)
}

// ---------------------------------------------------------------------------------------
// The extension trait
// ---------------------------------------------------------------------------------------
/// An optional `i64` read as an optional integer.
pub open spec fn option_view(v: Option<i64>) -> Option<int> {
    match v {
        Some(x) => Some(x as int),
        None => None,
    }
}

/// Weighted index list read with integer weights and indices (`None` is a weight of one).
pub open spec fn parts_view(v: Seq<(Option<i64>, usize)>) -> Seq<(Option<int>, int)> {
    v.map_values(|p: (Option<i64>, usize)| (option_view(p.0), p.1 as int))
}

/// Weight of one entry of a weighted index list.
pub open spec fn part_weight(w: Option<int>) -> int {
    match w {
        Some(x) => x,
        None => 1,
    }
}

/// Value of the weighted sum `sum_k w_k * data[j_k]` described by a weighted index list.
pub open spec fn parts_value(parts: Seq<(Option<int>, int)>, data: Seq<i64>) -> int
    decreases parts.len(),
{
    if parts.len() == 0 {
        0
    } else {
        let last = parts.last();
        parts_value(parts.drop_last(), data) + part_weight(last.0) * data[last.1]
    }
}

/// Strategy for extending a signal beyond its boundaries.
///
/// Implementors define how out-of-bounds index `i` maps to an in-bounds value (or
/// a linear combination of in-bounds values):
///
/// - `get_bc` returns the extended value, used during the forward transform.
/// - `get_parts` returns a sparse weighted sum of in-bounds indices, used to build
///   the adjoint (transpose) of the forward transform.
pub trait BoundaryExtension {
    /// The extended signal at virtual index `i`; `None` stands for a zero contribution.
    spec fn extension(&self, data: Seq<i64>, i: int) -> Option<int>;

    /// The weighted index list whose sum is the extended value at `i` of a length-`n` signal.
    spec fn parts(&self, n: int, i: int) -> Seq<(Option<int>, int)>;

    /// Inputs on which `get_bc` computes without overflow.
    spec fn get_bc_ok(&self, data: Seq<i64>, i: int) -> bool;

    /// Inputs on which `get_parts` computes without overflow.
    spec fn get_parts_ok(&self, n: int, i: int) -> bool;

    /// Return the signal value at virtual index `i` under this boundary condition, or
    /// `None` when the boundary condition maps `i` to zero.
    fn get_bc(&self, data: &[i64], i: isize) -> (r: Option<i64>)
        requires
            self.get_bc_ok(data@, i as int),
        ensures
            option_view(r) == self.extension(data@, i as int),
    ;

    /// Decompose virtual index `i` into a weighted sum of in-bounds indices: each entry
    /// `(scale, j)` contributes `scale * data[j]` (or `data[j]` when `scale` is `None`).
    fn get_parts(&self, n: usize, i: isize) -> (r: Vec<(Option<i64>, usize)>)
        requires
            self.get_parts_ok(n as int, i as int),
        ensures
            parts_view(r@) == self.parts(n as int, i as int),
    ;

    /// Whether `get_parts` computes without overflow for a signal of length `n` at `i`.
    fn parts_defined(&self, n: usize, i: isize) -> (r: bool)
        ensures
            r == self.get_parts_ok(n as int, i as int),
    ;
}

/// Whether the weights of the antireflective decomposition at `i` of a signal of length
/// `n >= 2` are `i64` values.
fn antireflect_weights_fit_exec(n: usize, i: isize) -> (r: bool)
    requires
        2 <= n <= isize::MAX / 2,
    ensures
        r == antireflect_weights_fit(n as int, i as int),
{
    let m: i128 = n as i128 - 1;
    let ii: i128 = i as i128;
    if 0 <= ii && ii <= m {
        return true;
    }
    let j: i128 = if ii > m {
        ii
    } else {
        -ii
    };
    let q: i128 = (j - 1) / (2 * m);
    let r: i128 = (j - 1) % (2 * m) + 1;
    proof {
        assert(q == (j - 1) / (2 * m));
        assert(0 <= q <= j);
    }
    let big: i128 = i64::MAX as i128;
    if ii > m {
        if r <= m {
            2 * q <= big
        } else {
            2 * q + 2 <= big
        }
    } else {
        if r <= m {
            2 + 2 * q <= big
        } else {
            2 + 2 * q <= big
        }
    }
}

/// Runtime-selectable boundary extension condition.
///
/// | Variant | Extension rule |
/// |---------|---------------|
/// | `Zero` | Out-of-bounds values are zero (zero-padding). |
/// | `Periodic` | Signal repeats periodically. |
/// | `Constant` | Nearest edge value is repeated. |
/// | `Symmetric` | Signal is reflected about the edge sample (even symmetry). |
/// | `Reflect` | Signal is reflected about the point just outside the edge (point reflection). |
/// | `Antisymmetric` | Like `Symmetric` but with sign flip on each reflection. |
/// | `Smooth` | Linear extrapolation using the two nearest edge samples. |
/// | `Antireflect` | Odd-symmetric extension preserving derivatives at boundaries. |
#[derive(Clone, Copy, Debug)]
pub enum BoundaryCondition {
    /// Out-of-bounds indices contribute zero (zero-padding).
    Zero,
    /// Signal wraps around periodically.
    Periodic,
    /// Nearest edge sample is repeated for all out-of-bounds indices.
    Constant,
    /// Even (mirror) reflection about the edge sample.
    Symmetric,
    /// Odd reflection about the point just outside the edge (no edge repetition).
    Reflect,
    /// Even reflection with sign flip on each reflection.
    Antisymmetric,
    /// Linear extrapolation from the two nearest edge samples.
    Smooth,
    /// Odd-symmetric extension that preserves the first derivative at boundaries.
    Antireflect,
}

/// Smooth (linear) extrapolation of a signal of length >= 2 at `i`.
pub open spec fn smooth_value(data: Seq<i64>, i: int) -> int {
    let n = data.len() as int;
    if i < 0 {
        data[0] + (data[1] - data[0]) * i
    } else if i >= n {
        data[n - 1] + (data[n - 1] - data[n - 2]) * (i - (n - 1))
    } else {
        data[i] as int
    }
}

/// Whether the linear extrapolation at `i` is computed without `i64` overflow.
pub open spec fn smooth_fits(data: Seq<i64>, i: int) -> bool {
    let n = data.len() as int;
    if i < 0 {
        &&& fits_i64(data[1] - data[0])
        &&& fits_i64((data[1] - data[0]) * i)
        &&& fits_i64(data[0] + (data[1] - data[0]) * i)
    } else if i >= n {
        &&& fits_i64(data[n - 1] - data[n - 2])
        &&& fits_i64((data[n - 1] - data[n - 2]) * (i - (n - 1)))
        &&& fits_i64(data[n - 1] + (data[n - 1] - data[n - 2]) * (i - (n - 1)))
    } else {
        true
    }
}

/// Whether the antireflective extension at `i` is computed without `i64` overflow.
pub open spec fn antireflect_fits(data: Seq<i64>, i: int) -> bool {
    let n = data.len() as int;
    let p = antireflect_parts(n, i);
    &&& antireflect_weights_fit(n, i)
    &&& fits_i64(data[0] * p.2)
    &&& fits_i64(data[n - 1] * p.3)
    &&& fits_i64(data[0] * p.2 + data[n - 1] * p.3)
    &&& (p.1 == 1 || data[p.0] != i64::MIN)
    &&& fits_i64(antireflect_value(data, i))
}

/// Longest signal a boundary condition extends without overflowing `isize`: the
/// reflecting rules fold indices through `2 * (n - 1)`, the others only compare with `n`.
pub open spec fn length_limit(bc: BoundaryCondition) -> int {
    match bc {
        BoundaryCondition::Symmetric
        | BoundaryCondition::Reflect
        | BoundaryCondition::Antisymmetric
        | BoundaryCondition::Antireflect => isize::MAX / 2,
        _ => isize::MAX as int,
    }
}

impl BoundaryExtension for BoundaryCondition {
    open spec fn extension(&self, data: Seq<i64>, i: int) -> Option<int> {
        let n = data.len() as int;
        if n == 0 {
            None
        } else {
            match *self {
                BoundaryCondition::Zero => if 0 <= i < n {
                    Some(data[i] as int)
                } else {
                    None
                },
                BoundaryCondition::Periodic => Some(data[i % n] as int),
                BoundaryCondition::Constant => Some(data[clamp_index(n, i)] as int),
                BoundaryCondition::Symmetric => Some(data[sym_index(n, i)] as int),
                BoundaryCondition::Reflect => if n == 1 {
                    Some(data[0] as int)
                } else {
                    Some(data[reflect_index(n, i)] as int)
                },
                BoundaryCondition::Antisymmetric => Some(
                    signed(sym_negated(n, i), data[sym_index(n, i)] as int),
                ),
                BoundaryCondition::Smooth => if n == 1 {
                    Some(data[0] as int)
                } else {
                    Some(smooth_value(data, i))
                },
                BoundaryCondition::Antireflect => if n == 1 {
                    Some(data[0] as int)
                } else {
                    Some(antireflect_value(data, i))
                },
            }
        }
    }

    open spec fn parts(&self, n: int, i: int) -> Seq<(Option<int>, int)> {
        if n == 0 {
            seq![]
        } else {
            match *self {
                BoundaryCondition::Zero => if 0 <= i < n {
                    seq![(None, i)]
                } else {
                    seq![]
                },
                BoundaryCondition::Periodic => seq![(None, i % n)],
                BoundaryCondition::Constant => seq![(None, clamp_index(n, i))],
                BoundaryCondition::Symmetric => seq![(None, sym_index(n, i))],
                BoundaryCondition::Reflect => if n == 1 {
                    seq![(None, 0)]
                } else {
                    seq![(None, reflect_index(n, i))]
                },
                BoundaryCondition::Antisymmetric => if sym_negated(n, i) {
                    seq![(Some(-1), sym_index(n, i))]
                } else {
                    seq![(None, sym_index(n, i))]
                },
                BoundaryCondition::Smooth => if n == 1 {
                    seq![(None, 0)]
                } else if i < 0 {
                    seq![(Some(1 - i), 0), (Some(i), 1)]
                } else if i >= n {
                    seq![(Some(-(i - (n - 1))), n - 2), (Some(i - (n - 1) + 1), n - 1)]
                } else {
                    seq![(None, i)]
                },
                BoundaryCondition::Antireflect => if n == 1 {
                    seq![(None, 0)]
                } else {
                    let p = antireflect_parts(n, i);
                    let first: Seq<(Option<int>, int)> = if p.2 != 0 {
                        seq![(Some(p.2), 0)]
                    } else {
                        seq![]
                    };
                    let last: Seq<(Option<int>, int)> = if p.3 != 0 {
                        seq![(Some(p.3), n - 1)]
                    } else {
                        seq![]
                    };
                    first + last + seq![
                        (if p.1 < 0 {
                            Some(-1)
                        } else {
                            None
                        }, p.0),
                    ]
                },
            }
        }
    }

    open spec fn get_bc_ok(&self, data: Seq<i64>, i: int) -> bool {
        let n = data.len() as int;
        &&& n <= length_limit(*self)
        &&& (n == 0 || match *self {
            BoundaryCondition::Reflect => n == 1 || i > isize::MIN,
            BoundaryCondition::Antisymmetric => !sym_negated(n, i) || data[sym_index(n, i)]
                != i64::MIN,
            BoundaryCondition::Smooth => n == 1 || smooth_fits(data, i),
            BoundaryCondition::Antireflect => n == 1 || (i > isize::MIN && antireflect_fits(
                data,
                i,
            )),
            _ => true,
        })
    }

    open spec fn get_parts_ok(&self, n: int, i: int) -> bool {
        &&& n <= length_limit(*self)
        &&& (n == 0 || match *self {
            BoundaryCondition::Reflect => n == 1 || i > isize::MIN,
            BoundaryCondition::Smooth => n == 1 || i > isize::MIN + 1,
            BoundaryCondition::Antireflect => n == 1 || (i > isize::MIN
                && antireflect_weights_fit(n, i)),
            _ => true,
        })
    }

    fn parts_defined(&self, n: usize, i: isize) -> (r: bool) {
        let limit = match *self {
            BoundaryCondition::Symmetric
            | BoundaryCondition::Reflect
            | BoundaryCondition::Antisymmetric
            | BoundaryCondition::Antireflect => isize::MAX as usize / 2,
            _ => isize::MAX as usize,
        };
        if n > limit {
            return false;
        }
        if n <= 1 {
            return true;
        }
        match *self {
            BoundaryCondition::Reflect => i > isize::MIN,
            BoundaryCondition::Smooth => i > isize::MIN + 1,
            BoundaryCondition::Antireflect => i > isize::MIN && antireflect_weights_fit_exec(n, i),
            _ => true,
        }
    }

    fn get_bc(&self, data: &[i64], i: isize) -> (r: Option<i64>) {
        proof {
            assert(data@.len() <= length_limit(*self) <= isize::MAX);
        }
        if data.len() == 0 {
            return None;
        }
        let n = data.len() as isize;
        match self {
            BoundaryCondition::Zero => {
                if i >= 0 && (i as usize) < data.len() {
                    Some(data[i as usize])
                } else {
                    None
                }
            },
            BoundaryCondition::Periodic => {
                let io = match i.checked_rem_euclid(n) {
                    Some(r) => r,
                    None => 0,
                };
                Some(data[io as usize])
            },
            BoundaryCondition::Constant => {
                let io = if i < 0 {
                    0
                } else if i > n - 1 {
                    n - 1
                } else {
                    i
                };
                Some(data[io as usize])
            },
            BoundaryCondition::Symmetric => {
                let (io, _) = symmetric_fold(n, i);
                Some(data[io as usize])
            },
            BoundaryCondition::Reflect => {
                if data.len() == 1 {
                    return Some(data[0]);
                }
                let io = reflect_fold(n, i);
                Some(data[io as usize])
            },
            BoundaryCondition::Antisymmetric => {
                let (io, neg) = symmetric_fold(n, i);
                let v = data[io as usize];
                if neg {
                    Some(-v)
                } else {
                    Some(v)
                }
            },
            BoundaryCondition::Smooth => {
                if data.len() == 1 {
                    return Some(data[0]);
                }
                if i < 0 {
                    let scale = i as i64;
                    Some(data[0] + (data[1] - data[0]) * scale)
                } else if i >= n {
                    let last = data.len() - 1;
                    let scale = (i - (n - 1)) as i64;
                    Some(data[last] + (data[last] - data[last - 1]) * scale)
                } else {
                    Some(data[i as usize])
                }
            },
            BoundaryCondition::Antireflect => {
                if data.len() == 1 {
                    return Some(data[0]);
                }
                let (io, neg, left_c, right_c) = antireflect_fold(n, i);
                let last = data.len() - 1;
                let mut v: Option<i64> = None;
                if left_c != 0 {
                    v = Some(data[0] * left_c);
                }
                if right_c != 0 {
                    let u = data[last] * right_c;
                    v = match v {
                        Some(v) => Some(v + u),
                        None => Some(u),
                    };
                }
                let d = if neg {
                    -data[io as usize]
                } else {
                    data[io as usize]
                };
                match v {
                    Some(v) => Some(d + v),
                    None => Some(d),
                }
            },
        }
    }

    fn get_parts(&self, n: usize, i: isize) -> (r: Vec<(Option<i64>, usize)>) {
        if n == 0 {
            let r: Vec<(Option<i64>, usize)> = Vec::new();
            proof {
                assert(parts_view(r@) =~= self.parts(n as int, i as int));
            }
            return r;
        }
        let ni = n as isize;
        let mut r: Vec<(Option<i64>, usize)> = Vec::new();
        match self {
            BoundaryCondition::Zero => {
                if i >= 0 && i < ni {
                    r.push((None, i as usize));
                }
            },
            BoundaryCondition::Periodic => {
                let io = match i.checked_rem_euclid(ni) {
                    Some(v) => v,
                    None => 0,
                };
                r.push((None, io as usize));
            },
            BoundaryCondition::Constant => {
                let io = if i < 0 {
                    0
                } else if i > ni - 1 {
                    ni - 1
                } else {
                    i
                };
                r.push((None, io as usize));
            },
            BoundaryCondition::Symmetric => {
                let (io, _) = symmetric_fold(ni, i);
                r.push((None, io as usize));
            },
            BoundaryCondition::Reflect => {
                if n == 1 {
                    r.push((None, 0));
                } else {
                    let io = reflect_fold(ni, i);
                    r.push((None, io as usize));
                }
            },
            BoundaryCondition::Antisymmetric => {
                let (io, neg) = symmetric_fold(ni, i);
                if neg {
                    r.push((Some(-1), io as usize));
                } else {
                    r.push((None, io as usize));
                }
            },
            BoundaryCondition::Smooth => {
                if n == 1 {
                    r.push((None, 0));
                } else if i < 0 {
                    let scale_0 = (1 - i) as i64;
                    let scale_1 = i as i64;
                    r.push((Some(scale_0), 0));
                    r.push((Some(scale_1), 1));
                } else if i >= ni {
                    let d_i = i - (ni - 1);
                    let scale_m2 = (-d_i) as i64;
                    let scale_m1 = (d_i + 1) as i64;
                    r.push((Some(scale_m2), n - 2));
                    r.push((Some(scale_m1), n - 1));
                } else {
                    r.push((None, i as usize));
                }
            },
            BoundaryCondition::Antireflect => {
                if n == 1 {
                    r.push((None, 0));
                } else {
                    let (io, neg, left_c, right_c) = antireflect_fold(ni, i);
                    if left_c != 0 {
                        r.push((Some(left_c), 0));
                    }
                    if right_c != 0 {
                        r.push((Some(right_c), n - 1));
                    }
                    if neg {
                        r.push((Some(-1), io as usize));
                    } else {
                        r.push((None, io as usize));
                    }
                }
            },
        }
        proof {
            assert(parts_view(r@) =~= self.parts(n as int, i as int));
        }
        r
    }
}

/// Zero-padding boundary: out-of-bounds indices return `None` (treated as zero).
///
/// This is a zero-cost alternative to `BoundaryCondition::Zero` for contexts where
/// the boundary type is fixed at compile time.
#[derive(Clone, Copy, Debug)]
pub struct ZeroBoundary;

impl BoundaryExtension for ZeroBoundary {
    open spec fn extension(&self, data: Seq<i64>, i: int) -> Option<int> {
        if 0 <= i < data.len() {
            Some(data[i] as int)
        } else {
            None
        }
    }

    open spec fn parts(&self, n: int, i: int) -> Seq<(Option<int>, int)> {
        if 0 <= i < n {
            seq![(None, i)]
        } else {
            seq![]
        }
    }

    open spec fn get_bc_ok(&self, data: Seq<i64>, i: int) -> bool {
        true
    }

    open spec fn get_parts_ok(&self, n: int, i: int) -> bool {
        n <= isize::MAX
    }

    fn parts_defined(&self, n: usize, i: isize) -> (r: bool) {
        n <= isize::MAX as usize
    }

    fn get_bc(&self, data: &[i64], i: isize) -> (r: Option<i64>) {
        if i >= 0 && (i as usize) < data.len() {
            Some(data[i as usize])
        } else {
            None
        }
    }

    fn get_parts(&self, n: usize, i: isize) -> (r: Vec<(Option<i64>, usize)>) {
        let mut r: Vec<(Option<i64>, usize)> = Vec::new();
        if i >= 0 && i < n as isize {
            r.push((None, i as usize));
        }
        proof {
            assert(parts_view(r@) =~= self.parts(n as int, i as int));
        }
        r
    }
}

/// Periodic boundary: indices wrap around modulo the signal length.
///
/// This is a zero-cost alternative to `BoundaryCondition::Periodic`.
#[derive(Clone, Copy, Debug)]
pub struct PeriodicBoundary;

impl BoundaryExtension for PeriodicBoundary {
    open spec fn extension(&self, data: Seq<i64>, i: int) -> Option<int> {
        Some(data[i % (data.len() as int)] as int)
    }

    open spec fn parts(&self, n: int, i: int) -> Seq<(Option<int>, int)> {
        seq![(None, i % n)]
    }

    /// Wrapping needs a non-empty signal (the remainder by zero panics).
    open spec fn get_bc_ok(&self, data: Seq<i64>, i: int) -> bool {
        0 < data.len() <= isize::MAX
    }

    /// Wrapping needs a non-empty signal (the remainder by zero panics).
    open spec fn get_parts_ok(&self, n: int, i: int) -> bool {
        0 < n <= isize::MAX
    }

    fn parts_defined(&self, n: usize, i: isize) -> (r: bool) {
        0 < n && n <= isize::MAX as usize
    }

    fn get_bc(&self, data: &[i64], i: isize) -> (r: Option<i64>) {
        proof {
            assert(0 < data@.len() <= isize::MAX);
        }
        let io = match i.checked_rem_euclid(data.len() as isize) {
            Some(v) => v,
            None => 0,
        };
        Some(data[io as usize])
    }

    fn get_parts(&self, n: usize, i: isize) -> (r: Vec<(Option<i64>, usize)>) {
        let io = match i.checked_rem_euclid(n as isize) {
            Some(v) => v,
            None => 0,
        };
        let mut r: Vec<(Option<i64>, usize)> = Vec::new();
        r.push((None, io as usize));
        proof {
            assert(parts_view(r@) =~= self.parts(n as int, i as int));
        }
        r
    }
}

// ---------------------------------------------------------------------------------------
// Laws of the boundary extensions
// ---------------------------------------------------------------------------------------
/// Extended value of an optional extension, with `None` read as zero.
pub open spec fn value_or_zero(v: Option<int>) -> int {
    match v {
        Some(x) => x,
        None => 0,
    }
}

/// Inside the signal every boundary condition returns the sample itself.
pub proof fn lemma_extension_in_range(bc: BoundaryCondition, data: Seq<i64>, i: int)
    requires
        0 <= i < data.len(),
    ensures
        bc.extension(data, i) == Some(data[i] as int),
{
    let n = data.len() as int;
    lemma_in_range(n, i);
    lemma_divmod_of(i, n, 0, i);
    if n >= 2 {
        let p = antireflect_parts(n, i);
        assert(p == (i, 1int, 0int, 0int));
        lemma_mul_zero(data[0] as int, p.2);
        lemma_mul_zero(data[n - 1] as int, p.3);
    }
}

/// Sum of a one-entry weighted index list.
proof fn lemma_parts_value_1(a: (Option<int>, int), data: Seq<i64>)
    ensures
        parts_value(seq![a], data) == part_weight(a.0) * data[a.1],
{
    assert(seq![a].drop_last() =~= Seq::<(Option<int>, int)>::empty());
    assert(parts_value(Seq::<(Option<int>, int)>::empty(), data) == 0);
    assert(seq![a].last() == a);
}

/// A product with a zero factor vanishes.
proof fn lemma_mul_zero(x: int, y: int)
    requires
        y == 0,
    ensures
        x * y == 0,
{
    assert(x * y == 0) by (nonlinear_arith)
        requires
            y == 0,
    ;
}

/// Sum of a two-entry weighted index list.
proof fn lemma_parts_value_2(a: (Option<int>, int), b: (Option<int>, int), data: Seq<i64>)
    ensures
        parts_value(seq![a, b], data) == part_weight(a.0) * data[a.1] + part_weight(b.0)
            * data[b.1],
{
    assert(seq![a, b].drop_last() =~= seq![a]);
    lemma_parts_value_1(a, data);
}

/// Sum of a three-entry weighted index list.
proof fn lemma_parts_value_3(
    a: (Option<int>, int),
    b: (Option<int>, int),
    c: (Option<int>, int),
    data: Seq<i64>,
)
    ensures
        parts_value(seq![a, b, c], data) == part_weight(a.0) * data[a.1] + part_weight(b.0)
            * data[b.1] + part_weight(c.0) * data[c.1],
{
    assert(seq![a, b, c].drop_last() =~= seq![a, b]);
    lemma_parts_value_2(a, b, data);
}

/// The weighted index list of `get_parts` sums to the value that `get_bc` extends to:
/// the adjoint built from `get_parts` is the transpose of the extension.
pub proof fn lemma_parts_match_extension(bc: BoundaryCondition, data: Seq<i64>, i: int)
    ensures
        parts_value(bc.parts(data.len() as int, i), data) == value_or_zero(
            bc.extension(data, i),
        ),
{
    let n = data.len() as int;
    if n == 0 {
        assert(parts_value(seq![], data) == 0);
        return;
    }
    let parts = bc.parts(n, i);
    match bc {
        BoundaryCondition::Zero => {
            if 0 <= i < n {
                lemma_parts_value_1(parts[0], data);
            } else {
                assert(parts_value(seq![], data) == 0);
            }
        },
        BoundaryCondition::Antisymmetric => {
            lemma_parts_value_1(parts[0], data);
        },
        BoundaryCondition::Smooth => {
            if n >= 2 && i < 0 {
                lemma_parts_value_2(parts[0], parts[1], data);
                let x0 = data[0] as int;
                let x1 = data[1] as int;
                assert((1 - i) * x0 + i * x1 == x0 + (x1 - x0) * i) by (nonlinear_arith);
            } else if n >= 2 && i >= n {
                lemma_parts_value_2(parts[0], parts[1], data);
                let y0 = data[n - 2] as int;
                let y1 = data[n - 1] as int;
                let k = i - (n - 1);
                assert((-k) * y0 + (k + 1) * y1 == y1 + (y1 - y0) * k) by (nonlinear_arith);
            } else {
                lemma_parts_value_1(parts[0], data);
            }
        },
        BoundaryCondition::Antireflect => {
            if n >= 2 {
                let p = antireflect_parts(n, i);
                let x0 = data[0] as int;
                let xm = data[n - 1] as int;
                let xi = data[p.0] as int;
                let w: Option<int> = if p.1 < 0 {
                    Some(-1)
                } else {
                    None
                };
                if p.1 < 0 {
                    assert(part_weight(w) * xi == -xi);
                } else {
                    assert(part_weight(w) * xi == xi);
                }
                assert(p.2 * x0 == x0 * p.2) by (nonlinear_arith);
                assert(p.3 * xm == xm * p.3) by (nonlinear_arith);
                let a = (Some(p.2), 0int);
                let b = (Some(p.3), n - 1);
                let c = (w, p.0);
                if p.2 != 0 && p.3 != 0 {
                    assert(parts =~= seq![a, b, c]);
                    lemma_parts_value_3(a, b, c, data);
                } else if p.2 != 0 {
                    assert(parts =~= seq![a, c]);
                    lemma_parts_value_2(a, c, data);
                    lemma_mul_zero(xm as int, p.3);
                } else if p.3 != 0 {
                    assert(parts =~= seq![b, c]);
                    lemma_parts_value_2(b, c, data);
                    lemma_mul_zero(x0 as int, p.2);
                } else {
                    assert(parts =~= seq![c]);
                    lemma_parts_value_1(c, data);
                    lemma_mul_zero(x0 as int, p.2);
                    lemma_mul_zero(xm as int, p.3);
                }
            } else {
                lemma_parts_value_1(parts[0], data);
            }
        },
        _ => {
            lemma_parts_value_1(parts[0], data);
        },
    }
}

/// The zero-padding boundary's weighted index list sums to its extended value.
pub proof fn lemma_zero_parts_match_extension(data: Seq<i64>, i: int)
    ensures
        parts_value(ZeroBoundary.parts(data.len() as int, i), data) == value_or_zero(
            ZeroBoundary.extension(data, i),
        ),
{
    let parts = ZeroBoundary.parts(data.len() as int, i);
    if 0 <= i < data.len() {
        lemma_parts_value_1(parts[0], data);
    } else {
        assert(parts_value(seq![], data) == 0);
    }
}

/// The periodic boundary's weighted index list sums to its extended value.
pub proof fn lemma_periodic_parts_match_extension(data: Seq<i64>, i: int)
    ensures
        parts_value(PeriodicBoundary.parts(data.len() as int, i), data) == value_or_zero(
            PeriodicBoundary.extension(data, i),
        ),
{
    lemma_parts_value_1(PeriodicBoundary.parts(data.len() as int, i)[0], data);
}

/// The compile-time boundaries extend exactly as their runtime counterparts.
pub proof fn lemma_static_boundaries_match(data: Seq<i64>, i: int)
    requires
        data.len() > 0,
    ensures
        ZeroBoundary.extension(data, i) == BoundaryCondition::Zero.extension(data, i),
        PeriodicBoundary.extension(data, i) == BoundaryCondition::Periodic.extension(data, i),
        ZeroBoundary.parts(data.len() as int, i) == BoundaryCondition::Zero.parts(
            data.len() as int,
            i,
        ),
        PeriodicBoundary.parts(data.len() as int, i) == BoundaryCondition::Periodic.parts(
            data.len() as int,
            i,
        ),
{
}

/// The periodic extension repeats with period `n`.
pub proof fn lemma_periodic_period(data: Seq<i64>, i: int)
    requires
        data.len() > 0,
    ensures
        BoundaryCondition::Periodic.extension(data, i + data.len()) == BoundaryCondition::Periodic.extension(
            data,
            i,
        ),
{
    let n = data.len() as int;
    lemma_divmod(i, n);
    let q = i / n;
    let r = i % n;
    assert(i + n == (q + 1) * n + r) by (nonlinear_arith)
        requires
            i == n * q + r,
    ;
    lemma_divmod_of(i + n, n, q + 1, r);
}

/// The symmetric extension mirrors about the point half a sample before the first
/// sample, and the antisymmetric extension does the same with a sign flip.
pub proof fn lemma_symmetric_mirror(data: Seq<i64>, i: int)
    requires
        data.len() > 0,
    ensures
        BoundaryCondition::Symmetric.extension(data, -1 - i) == BoundaryCondition::Symmetric.extension(
            data,
            i,
        ),
        value_or_zero(BoundaryCondition::Antisymmetric.extension(data, -1 - i)) == -value_or_zero(
            BoundaryCondition::Antisymmetric.extension(data, i),
        ),
{
    let n = data.len() as int;
    if i < 0 {
        lemma_sym_left(n, i);
    } else {
        lemma_sym_left(n, -1 - i);
    }
}

/// The symmetric and antisymmetric extensions repeat with period `2n`.
pub proof fn lemma_symmetric_period(data: Seq<i64>, i: int)
    requires
        data.len() > 0,
    ensures
        BoundaryCondition::Symmetric.extension(data, i + 2 * data.len())
            == BoundaryCondition::Symmetric.extension(data, i),
        BoundaryCondition::Antisymmetric.extension(data, i + 2 * data.len())
            == BoundaryCondition::Antisymmetric.extension(data, i),
{
    let n = data.len() as int;
    let d = 2 * n;
    lemma_divmod(i, d);
    let q = i / d;
    let r = i % d;
    assert(i + d == (q + 1) * d + r) by (nonlinear_arith)
        requires
            i == d * q + r,
    ;
    lemma_divmod_of(i + d, d, q + 1, r);
    lemma_divmod(i, n);
    let b = i / n;
    let s = i % n;
    assert(i + d == (b + 2) * n + s) by (nonlinear_arith)
        requires
            i == n * b + s,
            d == 2 * n,
    ;
    lemma_divmod_of(i + d, n, b + 2, s);
}

/// The reflect extension mirrors about the first and about the last sample.
pub proof fn lemma_reflect_mirror(data: Seq<i64>, i: int)
    requires
        data.len() > 0,
    ensures
        BoundaryCondition::Reflect.extension(data, -i) == BoundaryCondition::Reflect.extension(
            data,
            i,
        ),
        BoundaryCondition::Reflect.extension(data, 2 * (data.len() - 1) - i)
            == BoundaryCondition::Reflect.extension(data, i),
{
    let n = data.len() as int;
    if n >= 2 {
        if i < 0 {
            lemma_reflect_left(n, i);
        } else if i > 0 {
            lemma_reflect_left(n, -i);
        }
        let j = 2 * (n - 1) - i;
        if i >= n {
            lemma_reflect_right(n, i);
        } else if j >= n {
            lemma_reflect_right(n, j);
        } else {
            // both `i` and its mirror lie in `[0, n)`: they coincide only at the
            // last sample, otherwise one of them is outside
            assert(i == n - 1);
        }
    }
}

/// The antireflective extension is point-symmetric about the first sample:
/// `e(i) + e(-i) == 2 * data[0]`.
pub proof fn lemma_antireflect_first_point(data: Seq<i64>, i: int)
    requires
        data.len() >= 2,
    ensures
        antireflect_value(data, i) + antireflect_value(data, -i) == 2 * data[0],
{
    let n = data.len() as int;
    let m = n - 1;
    if i == 0 {
        let p = antireflect_parts(n, 0);
        assert(p == (0int, 1int, 0int, 0int));
        lemma_mul_zero(data[0] as int, p.2);
        lemma_mul_zero(data[n - 1] as int, p.3);
        return;
    }
    let j = if i < 0 {
        -i
    } else {
        i
    };
    // `d` is the decomposition at the positive index `j`, `e` the one at `-j`
    if j <= m {
        lemma_upper_in_range(m, j);
    }
    let d = antireflect_parts(n, j);
    let e = antireflect_parts(n, -j);
    assert(e == (d.0, -d.1, 2 - d.2, -d.3));
    let x0 = data[0] as int;
    let xm = data[n - 1] as int;
    assert(x0 * (2 - d.2) == 2 * x0 - x0 * d.2) by (nonlinear_arith);
    assert(xm * (-d.3) == -(xm * d.3)) by (nonlinear_arith);
}

/// The antireflective extension is point-symmetric about the last sample:
/// `e(i) + e(2(n - 1) - i) == 2 * data[n - 1]`.
pub proof fn lemma_antireflect_last_point(data: Seq<i64>, i: int)
    requires
        data.len() >= 2,
    ensures
        antireflect_value(data, i) + antireflect_value(data, 2 * (data.len() - 1) - i) == 2
            * data[data.len() - 1],
{
    let n = data.len() as int;
    let m = n - 1;
    let j = if i > m {
        i
    } else {
        2 * m - i
    };
    if j == m {
        let p = antireflect_parts(n, m);
        assert(p == (m, 1int, 0int, 0int));
        lemma_mul_zero(data[0] as int, p.2);
        lemma_mul_zero(data[n - 1] as int, p.3);
        return;
    }
    // `j > m`; its mirror is `2m - j`
    let d = antireflect_parts(n, j);
    let e = antireflect_parts(n, 2 * m - j);
    let x0 = data[0] as int;
    let xm = data[n - 1] as int;
    if j <= 2 * m {
        lemma_upper_first_mirror(m, j);
        assert(d == (2 * m - j, -1int, 0int, 2int));
        assert(e == (2 * m - j, 1int, 0int, 0int));
        assert(x0 * 0 == 0);
        assert(xm * 2 == 2 * xm);
    } else {
        lemma_upper_period(m, j - 2 * m);
        if j - 2 * m <= m {
            lemma_upper_in_range(m, j - 2 * m);
        }
        let u = upper_antireflection(m, j - 2 * m);
        assert(d == (u.0, u.1, u.2 - 2, u.3 + 2));
        assert(e == (u.0, -u.1, 2 - u.2, -u.3));
        assert(x0 * (u.2 - 2) + x0 * (2 - u.2) == 0) by (nonlinear_arith);
        assert(xm * (u.3 + 2) + xm * (-u.3) == 2 * xm) by (nonlinear_arith);
    }
}

} // verus!
