//! Lane iteration over flat row-major arrays.
//!
//! A lane of an N-D array along `axis` is the 1-D run of elements obtained by varying the
//! index along `axis` while every other index is held fixed.  Lanes are enumerated in
//! row-major order of the remaining indices; the lane iterators keep a multi-index
//! (odometer) and the matching buffer offset for both ends of the enumeration.
use crate::iter::chunk_strided_slice::ChunkStridedSliceRef;
use crate::iter::strided_slice::StridedSliceRef;
use crate::utils::{
    row_major_stride, shape_prod, stride_from_shape, suffix_prods_fit,
};
use vstd::arithmetic::div_mod::{
    lemma_fundamental_div_mod, lemma_fundamental_div_mod_converse, lemma_mod_bound,
};
use vstd::prelude::*;

verus! {

// ---------------------------------------------------------------------------------------
// Multi-indices
// ---------------------------------------------------------------------------------------
/// Row-major multi-index of flat index `flat` in an array of shape `shape` (the last axis
/// varies fastest; the first index wraps modulo its length).
pub open spec fn unravel_spec(flat: int, shape: Seq<usize>) -> Seq<usize>
    decreases shape.len(),
{
    if shape.len() == 0 {
        seq![]
    } else {
        let n = shape.last() as int;
        unravel_spec(flat / n, shape.drop_last()).push((flat % n) as usize)
    }
}

/// The multi-index that follows `pos` in row-major order (the last axis varies fastest;
/// past the last position every index wraps to zero).
pub open spec fn increment_spec(pos: Seq<usize>, shape: Seq<usize>) -> Seq<usize>
    decreases shape.len(),
{
    if shape.len() == 0 || pos.len() == 0 {
        seq![]
    } else if pos.last() + 1 < shape.last() {
        pos.drop_last().push((pos.last() + 1) as usize)
    } else {
        increment_spec(pos.drop_last(), shape.drop_last()).push(0usize)
    }
}

/// The multi-index that precedes `pos` in row-major order (before the first position every
/// index wraps to its largest value).
pub open spec fn decrement_spec(pos: Seq<usize>, shape: Seq<usize>) -> Seq<usize>
    decreases shape.len(),
{
    if shape.len() == 0 || pos.len() == 0 {
        seq![]
    } else if pos.last() > 0 {
        pos.drop_last().push((pos.last() - 1) as usize)
    } else {
        decrement_spec(pos.drop_last(), shape.drop_last()).push((shape.last() - 1) as usize)
    }
}

/// All lengths of the shape are positive.
pub open spec fn all_positive(shape: Seq<usize>) -> bool {
    forall|k: int| 0 <= k < shape.len() ==> shape[k] > 0
}

/// Weighted sum `sum_k pos[k] * stride[k]`.
pub open spec fn dot(pos: Seq<usize>, stride: Seq<int>) -> int
    decreases pos.len(),
{
    if pos.len() == 0 {
        0
    } else {
        dot(pos.drop_last(), stride.drop_last()) + pos.last() * stride[pos.len() - 1]
    }
}

/// A sequence of `usize` read as integers.
pub open spec fn as_ints(s: Seq<usize>) -> Seq<int> {
    s.map_values(|x: usize| x as int)
}

/// Row-major strides of a shape.
pub open spec fn row_strides(shape: Seq<usize>) -> Seq<int> {
    Seq::new(shape.len(), |k: int| row_major_stride(shape, k))
}

/// `pos` is a multi-index inside `shape`.
pub open spec fn in_shape(pos: Seq<usize>, shape: Seq<usize>) -> bool {
    &&& pos.len() == shape.len()
    &&& forall|k: int| 0 <= k < shape.len() ==> pos[k] < shape[k]
}

proof fn lemma_divmod(x: int, d: int)
    requires
        d > 0,
    ensures
        x == d * (x / d) + x % d,
        0 <= x % d < d,
{
    lemma_fundamental_div_mod(x, d);
    lemma_mod_bound(x, d);
}

/// The row-major multi-index of a non-negative flat index has one in-range entry per axis.
pub(crate) proof fn lemma_unravel_shape(flat: int, shape: Seq<usize>)
    requires
        flat >= 0,
        all_positive(shape),
    ensures
        unravel_spec(flat, shape).len() == shape.len(),
        forall|k: int|
            0 <= k < shape.len() ==> #[trigger] unravel_spec(flat, shape)[k] < shape[k],
    decreases shape.len(),
{
    if shape.len() > 0 {
        let n = shape.last() as int;
        lemma_divmod(flat, n);
        assert(flat / n >= 0) by (nonlinear_arith)
            requires
                flat == n * (flat / n) + flat % n,
                0 <= flat % n < n,
                flat >= 0,
        ;
        lemma_unravel_shape(flat / n, shape.drop_last());
    }
}

/// The multi-index of `flat + 1` follows the multi-index of `flat`.
proof fn lemma_unravel_increment(flat: int, shape: Seq<usize>)
    requires
        flat >= 0,
        all_positive(shape),
    ensures
        unravel_spec(flat + 1, shape) == increment_spec(unravel_spec(flat, shape), shape),
    decreases shape.len(),
{
    if shape.len() > 0 {
        let n = shape.last() as int;
        lemma_divmod(flat, n);
        let q = flat / n;
        let r = flat % n;
        assert(q >= 0) by (nonlinear_arith)
            requires
                flat == n * q + r,
                0 <= r < n,
                flat >= 0,
        ;
        let pos = unravel_spec(flat, shape);
        assert(pos.drop_last() == unravel_spec(q, shape.drop_last()));
        assert(pos.last() == r);
        if r + 1 < n {
            lemma_fundamental_div_mod_converse(flat + 1, n, q, r + 1);
        } else {
            assert(flat + 1 == (q + 1) * n + 0) by (nonlinear_arith)
                requires
                    flat == n * q + r,
                    r + 1 == n,
            ;
            lemma_fundamental_div_mod_converse(flat + 1, n, q + 1, 0);
            lemma_unravel_increment(q, shape.drop_last());
        }
    }
}

/// The multi-index of `flat - 1` precedes the multi-index of `flat`.
proof fn lemma_unravel_decrement(flat: int, shape: Seq<usize>)
    requires
        flat >= 1,
        all_positive(shape),
    ensures
        unravel_spec(flat - 1, shape) == decrement_spec(unravel_spec(flat, shape), shape),
    decreases shape.len(),
{
    if shape.len() > 0 {
        let n = shape.last() as int;
        lemma_divmod(flat, n);
        let q = flat / n;
        let r = flat % n;
        assert(q >= 0) by (nonlinear_arith)
            requires
                flat == n * q + r,
                0 <= r < n,
                flat >= 0,
        ;
        let pos = unravel_spec(flat, shape);
        assert(pos.drop_last() == unravel_spec(q, shape.drop_last()));
        assert(pos.last() == r);
        if r > 0 {
            lemma_fundamental_div_mod_converse(flat - 1, n, q, r - 1);
        } else {
            assert(q >= 1) by (nonlinear_arith)
                requires
                    flat == n * q + r,
                    r == 0,
                    flat >= 1,
                    n > 0,
            ;
            assert(flat - 1 == (q - 1) * n + (n - 1)) by (nonlinear_arith)
                requires
                    flat == n * q + r,
                    r == 0,
            ;
            lemma_fundamental_div_mod_converse(flat - 1, n, q - 1, n - 1);
            lemma_unravel_decrement(q, shape.drop_last());
        }
    }
}

/// Row-major multi-index of `flat_index` in an array of compile-time rank `N`.
///
/// The last axis varies fastest; an index past the end wraps in the first axis.
pub fn unravel_array<const N: usize>(flat_index: usize, shape: &[usize; N]) -> (inds: [usize; N])
    requires
        all_positive(shape@),
    ensures
        inds@ == unravel_spec(flat_index as int, shape@),
{
    let mut inds: [usize; N] = [0; N];
    let mut flat = flat_index;
    let mut k: usize = N;
    proof {
        lemma_unravel_shape(flat_index as int, shape@);
        assert(shape@.subrange(0, N as int) =~= shape@);
        assert(unravel_spec(flat_index as int, shape@).subrange(0, N as int) =~= unravel_spec(
            flat_index as int,
            shape@,
        ));
    }
    while k > 0
        invariant
            k <= N,
            N == shape@.len(),
            inds@.len() == N,
            all_positive(shape@),
            unravel_spec(flat_index as int, shape@).len() == N,
            unravel_spec(flat_index as int, shape@).subrange(0, k as int) == unravel_spec(
                flat as int,
                shape@.subrange(0, k as int),
            ),
            forall|j: int|
                k <= j < N ==> inds@[j] == unravel_spec(flat_index as int, shape@)[j],
        decreases k,
    {
        let n = shape[k - 1];
        proof {
            let sub = shape@.subrange(0, k as int);
            assert(sub.drop_last() =~= shape@.subrange(0, k - 1));
            let full = unravel_spec(flat_index as int, shape@);
            assert(full.subrange(0, k - 1) =~= full.subrange(0, k as int).drop_last());
            assert(full[k - 1] == full.subrange(0, k as int)[k - 1]);
        }
        inds[k - 1] = flat % n;
        flat = flat / n;
        k -= 1;
    }
    proof {
        lemma_unravel_shape(flat_index as int, shape@);
        assert(inds@ =~= unravel_spec(flat_index as int, shape@));
    }
    inds
}

/// Row-major multi-index of `flat_index` in an array of shape `shape`.
///
/// The last axis varies fastest; an index past the end wraps in the first axis.
pub fn unravel(flat_index: usize, shape: &[usize]) -> (inds: Vec<usize>)
    requires
        all_positive(shape@),
    ensures
        inds@ == unravel_spec(flat_index as int, shape@),
{
    let n_dim = shape.len();
    let mut inds: Vec<usize> = Vec::new();
    let mut j: usize = 0;
    while j < n_dim
        invariant
            j <= n_dim,
            n_dim == shape@.len(),
            inds@.len() == j,
        decreases n_dim - j,
    {
        inds.push(0);
        j += 1;
    }
    let mut flat = flat_index;
    let mut k: usize = n_dim;
    proof {
        lemma_unravel_shape(flat_index as int, shape@);
        assert(shape@.subrange(0, n_dim as int) =~= shape@);
        assert(unravel_spec(flat_index as int, shape@).subrange(0, n_dim as int) =~= unravel_spec(
            flat_index as int,
            shape@,
        ));
    }
    while k > 0
        invariant
            k <= n_dim,
            n_dim == shape@.len(),
            inds@.len() == n_dim,
            all_positive(shape@),
            unravel_spec(flat_index as int, shape@).len() == n_dim,
            unravel_spec(flat_index as int, shape@).subrange(0, k as int) == unravel_spec(
                flat as int,
                shape@.subrange(0, k as int),
            ),
            forall|j: int|
                k <= j < n_dim ==> inds@[j] == unravel_spec(flat_index as int, shape@)[j],
        decreases k,
    {
        let n = shape[k - 1];
        proof {
            let sub = shape@.subrange(0, k as int);
            assert(sub.drop_last() =~= shape@.subrange(0, k - 1));
            let full = unravel_spec(flat_index as int, shape@);
            assert(full.subrange(0, k - 1) =~= full.subrange(0, k as int).drop_last());
            assert(full[k - 1] == full.subrange(0, k as int)[k - 1]);
        }
        inds.set(k - 1, flat % n);
        flat = flat / n;
        k -= 1;
    }
    proof {
        assert(inds@ =~= unravel_spec(flat_index as int, shape@));
    }
    inds
}

// ---------------------------------------------------------------------------------------
// Lemmas on products, strides and weighted sums
// ---------------------------------------------------------------------------------------
/// The product of a shape is the product of all but the last length times the last length.
proof fn lemma_prod_back(s: Seq<usize>)
    requires
        s.len() >= 1,
    ensures
        shape_prod(s) == shape_prod(s.drop_last()) * s.last(),
    decreases s.len(),
{
    let t = s.drop_first();
    if t.len() == 0 {
        assert(s.drop_last() =~= Seq::<usize>::empty());
        assert(shape_prod(t) == 1);
        assert(shape_prod(s.drop_last()) == 1);
        assert(s.last() == s[0]);
    } else {
        lemma_prod_back(t);
        assert(s.drop_last().drop_first() =~= t.drop_last());
        assert(s.drop_last()[0] == s[0]);
        let a = s[0] as int;
        let b = shape_prod(t.drop_last());
        let c = t.last() as int;
        assert(shape_prod(s.drop_last()) == a * b);
        assert(s.last() == t.last());
        assert(a * (b * c) == (a * b) * c) by (nonlinear_arith);
    }
}

proof fn lemma_prod_nonneg(s: Seq<usize>)
    ensures
        shape_prod(s) >= 0,
    decreases s.len(),
{
    if s.len() > 0 {
        lemma_prod_nonneg(s.drop_first());
        assert(s[0] * shape_prod(s.drop_first()) >= 0) by (nonlinear_arith)
            requires
                shape_prod(s.drop_first()) >= 0,
        ;
    }
}

pub(crate) proof fn lemma_prod_pos(s: Seq<usize>)
    requires
        all_positive(s),
    ensures
        shape_prod(s) >= 1,
    decreases s.len(),
{
    if s.len() > 0 {
        lemma_prod_pos(s.drop_first());
        assert(s[0] * shape_prod(s.drop_first()) >= 1) by (nonlinear_arith)
            requires
                shape_prod(s.drop_first()) >= 1,
                s[0] >= 1,
        ;
    }
}

/// Row-major strides of a shape extended by one axis are the old strides times the new
/// length, followed by one.
proof fn lemma_row_strides_back(s: Seq<usize>)
    requires
        s.len() >= 1,
    ensures
        row_strides(s)[s.len() - 1] == 1,
        forall|j: int|
            0 <= j < s.len() - 1 ==> row_strides(s)[j] == row_strides(s.drop_last())[j] * s.last(),
{
    let n = s.len() as int;
    assert(s.subrange(n, n) =~= Seq::<usize>::empty());
    assert forall|j: int| 0 <= j < n - 1 implies row_strides(s)[j] == row_strides(
        s.drop_last(),
    )[j] * s.last() by {
        let sub = s.subrange(j + 1, n);
        lemma_prod_back(sub);
        assert(sub.drop_last() =~= s.drop_last().subrange(j + 1, n - 1));
    }
}

/// Scaling every stride scales the weighted sum.
proof fn lemma_dot_scale(p: Seq<usize>, st: Seq<int>, c: int)
    requires
        p.len() == st.len(),
    ensures
        dot(p, Seq::new(st.len(), |j: int| st[j] * c)) == dot(p, st) * c,
    decreases p.len(),
{
    if p.len() > 0 {
        let sc = Seq::new(st.len(), |j: int| st[j] * c);
        lemma_dot_scale(p.drop_last(), st.drop_last(), c);
        assert(sc.drop_last() =~= Seq::new(st.drop_last().len(), |j: int| st.drop_last()[j] * c));
        let d = dot(p.drop_last(), st.drop_last());
        let x = p.last() as int;
        let y = st[p.len() - 1];
        assert((d + x * y) * c == d * c + x * (y * c)) by (nonlinear_arith);
    }
}

/// A multi-index inside a shape has a row-major flat index inside the array.
pub(crate) proof fn lemma_flat_bound(p: Seq<usize>, s: Seq<usize>)
    requires
        in_shape(p, s),
    ensures
        0 <= dot(p, row_strides(s)) < shape_prod(s),
    decreases s.len(),
{
    if s.len() == 0 {
        assert(shape_prod(s) == 1);
    } else {
        let s1 = s.drop_last();
        let p1 = p.drop_last();
        let n = s.last() as int;
        lemma_flat_bound(p1, s1);
        lemma_row_strides_back(s);
        lemma_prod_back(s);
        let rs1 = row_strides(s1);
        assert(row_strides(s).drop_last() =~= Seq::new(rs1.len(), |j: int| rs1[j] * n));
        lemma_dot_scale(p1, rs1, n);
        let d = dot(p1, rs1);
        let x = p.last() as int;
        let q = shape_prod(s1);
        assert(0 <= d * n + x < q * n) by (nonlinear_arith)
            requires
                0 <= d < q,
                0 <= x < n,
        ;
    }
}

/// Weighted sums are monotone in non-negative positions and strides.
proof fn lemma_dot_mono(p: Seq<usize>, s1: Seq<int>, s2: Seq<int>)
    requires
        p.len() == s1.len() == s2.len(),
        forall|j: int| 0 <= j < p.len() ==> 0 <= #[trigger] s1[j] <= s2[j],
    ensures
        0 <= dot(p, s1) <= dot(p, s2),
    decreases p.len(),
{
    if p.len() > 0 {
        lemma_dot_mono(p.drop_last(), s1.drop_last(), s2.drop_last());
        let x = p.last() as int;
        let a = s1[p.len() - 1];
        let b = s2[p.len() - 1];
        assert(0 <= x * a <= x * b) by (nonlinear_arith)
            requires
                x >= 0,
                0 <= a <= b,
        ;
    }
}

/// Changing one entry of the multi-index changes the weighted sum by the change times the
/// entry's stride.
proof fn lemma_dot_update(p: Seq<usize>, st: Seq<int>, k: int, v: usize)
    requires
        p.len() == st.len(),
        0 <= k < p.len(),
    ensures
        dot(p.update(k, v), st) == dot(p, st) + (v - p[k]) * st[k],
    decreases p.len(),
{
    let q = p.update(k, v);
    if k == p.len() - 1 {
        assert(q.drop_last() =~= p.drop_last());
        let y = st[k];
        assert(v * y == p[k] * y + (v - p[k]) * y) by (nonlinear_arith);
    } else {
        lemma_dot_update(p.drop_last(), st.drop_last(), k, v);
        assert(q.drop_last() =~= p.drop_last().update(k, v));
    }
}

/// Inserting an entry into the multi-index adds its weighted value to the sum over the
/// remaining strides.
pub(crate) proof fn lemma_dot_insert(p: Seq<usize>, st: Seq<int>, a: int, v: usize)
    requires
        st.len() == p.len() + 1,
        0 <= a <= p.len(),
    ensures
        dot(p.insert(a, v), st) == dot(p, st.remove(a)) + v * st[a],
    decreases p.len(),
{
    let q = p.insert(a, v);
    if a == p.len() {
        assert(q.drop_last() =~= p);
        assert(st.remove(a) =~= st.drop_last());
    } else {
        lemma_dot_insert(p.drop_last(), st.drop_last(), a, v);
        assert(q.drop_last() =~= p.drop_last().insert(a, v));
        assert(st.remove(a).drop_last() =~= st.drop_last().remove(a));
        assert(q.last() == p.last());
        assert(st.remove(a)[p.len() - 1] == st[p.len() as int]);
    }
}

/// The multi-index of the last flat index has every entry at its largest value.
proof fn lemma_unravel_last(s: Seq<usize>)
    requires
        all_positive(s),
    ensures
        unravel_spec(shape_prod(s) - 1, s) == Seq::new(s.len(), |k: int| (s[k] - 1) as usize),
    decreases s.len(),
{
    if s.len() == 0 {
        assert(unravel_spec(shape_prod(s) - 1, s) =~= Seq::new(s.len(), |k: int| (s[k] - 1) as usize));
    } else {
        let s1 = s.drop_last();
        let n = s.last() as int;
        lemma_prod_back(s);
        lemma_prod_pos(s1);
        let q = shape_prod(s1);
        assert(shape_prod(s) - 1 == (q - 1) * n + (n - 1)) by (nonlinear_arith)
            requires
                shape_prod(s) == q * n,
        ;
        lemma_fundamental_div_mod_converse(shape_prod(s) - 1, n, q - 1, n - 1);
        lemma_unravel_last(s1);
        assert(unravel_spec(shape_prod(s) - 1, s) =~= Seq::new(s.len(), |k: int| (s[k] - 1) as usize));
    }
}

/// Unravelling the row-major flat index of a multi-index gives the multi-index back.
pub(crate) proof fn lemma_unravel_dot(p: Seq<usize>, s: Seq<usize>)
    requires
        in_shape(p, s),
    ensures
        unravel_spec(dot(p, row_strides(s)), s) == p,
    decreases s.len(),
{
    if s.len() == 0 {
        assert(p =~= seq![]);
    } else {
        let s1 = s.drop_last();
        let p1 = p.drop_last();
        let n = s.last() as int;
        assert(in_shape(p1, s1));
        lemma_unravel_dot(p1, s1);
        lemma_flat_bound(p1, s1);
        lemma_row_strides_back(s);
        let rs1 = row_strides(s1);
        assert(row_strides(s).drop_last() =~= Seq::new(rs1.len(), |j: int| rs1[j] * n));
        lemma_dot_scale(p1, rs1, n);
        let d = dot(p1, rs1);
        let x = p.last() as int;
        assert(dot(p, row_strides(s)) == d * n + x);
        lemma_fundamental_div_mod_converse(d * n + x, n, d, x);
        assert(unravel_spec(dot(p, row_strides(s)), s) =~= p);
    }
}

/// The row-major flat index of the multi-index of `k` is `k`.
proof fn lemma_dot_unravel(k: int, s: Seq<usize>)
    requires
        all_positive(s),
        0 <= k < shape_prod(s),
    ensures
        dot(unravel_spec(k, s), row_strides(s)) == k,
    decreases s.len(),
{
    if s.len() > 0 {
        let s1 = s.drop_last();
        let n = s.last() as int;
        lemma_divmod(k, n);
        let q = k / n;
        let r = k % n;
        lemma_prod_back(s);
        lemma_prod_pos(s1);
        assert(q < shape_prod(s1)) by (nonlinear_arith)
            requires
                k == n * q + r,
                0 <= r < n,
                k < shape_prod(s1) * n,
        ;
        assert(q >= 0) by (nonlinear_arith)
            requires
                k == n * q + r,
                0 <= r < n,
                k >= 0,
        ;
        lemma_dot_unravel(q, s1);
        lemma_unravel_shape(q, s1);
        let u = unravel_spec(k, s);
        let u1 = unravel_spec(q, s1);
        assert(u.drop_last() =~= u1);
        lemma_row_strides_back(s);
        let rs1 = row_strides(s1);
        assert(row_strides(s).drop_last() =~= Seq::new(rs1.len(), |j: int| rs1[j] * n));
        lemma_dot_scale(u1, rs1, n);
        assert(q * n == n * q) by (nonlinear_arith);
    }
}

/// Different multi-indices inside a shape have different row-major flat indices.
proof fn lemma_dot_injective(p: Seq<usize>, q: Seq<usize>, s: Seq<usize>)
    requires
        in_shape(p, s),
        in_shape(q, s),
        dot(p, row_strides(s)) == dot(q, row_strides(s)),
    ensures
        p == q,
{
    lemma_unravel_dot(p, s);
    lemma_unravel_dot(q, s);
}

// ---------------------------------------------------------------------------------------
// Odometer steps
// ---------------------------------------------------------------------------------------
/// Every multi-index inside `shape` has a weighted sum that is a `usize`.
pub open spec fn offsets_fit(shape: Seq<usize>, stride: Seq<int>) -> bool {
    forall|p: Seq<usize>| in_shape(p, shape) ==> #[trigger] dot(p, stride) <= usize::MAX
}

/// All strides are non-negative.
pub open spec fn nonneg(stride: Seq<int>) -> bool {
    forall|j: int| 0 <= j < stride.len() ==> #[trigger] stride[j] >= 0
}

proof fn lemma_dot_nonneg(p: Seq<usize>, st: Seq<int>)
    requires
        p.len() == st.len(),
        nonneg(st),
    ensures
        dot(p, st) >= 0,
    decreases p.len(),
{
    if p.len() > 0 {
        lemma_dot_nonneg(p.drop_last(), st.drop_last());
        let x = p.last() as int;
        let y = st[p.len() - 1];
        assert(x * y >= 0) by (nonlinear_arith)
            requires
                x >= 0,
                y >= 0,
        ;
    }
}

/// Advance the multi-index `pos` to the next one in row-major order, keeping `offset` equal
/// to its weighted sum with `stride`.
fn odometer_increment(pos: &mut Vec<usize>, offset: &mut usize, shape: &Vec<usize>, stride: &Vec<usize>)
    requires
        all_positive(shape@),
        in_shape(old(pos)@, shape@),
        stride@.len() == shape@.len(),
        *old(offset) == dot(old(pos)@, as_ints(stride@)),
        offsets_fit(shape@, as_ints(stride@)),
    ensures
        final(pos)@ == increment_spec(old(pos)@, shape@),
        in_shape(final(pos)@, shape@),
        *final(offset) == dot(final(pos)@, as_ints(stride@)),
{
    let ghost orig = pos@;
    let ghost st = as_ints(stride@);
    let n = shape.len();
    let mut k = n;
    let mut done = false;
    proof {
        assert(orig.subrange(0, n as int) =~= orig);
        assert(shape@.subrange(0, n as int) =~= shape@);
        assert(orig.subrange(0, n as int) + Seq::new(0, |j: int| 0usize) =~= orig);
    }
    while k > 0 && !done
        invariant
            k <= n,
            n == shape@.len(),
            n == stride@.len(),
            st == as_ints(stride@),
            all_positive(shape@),
            in_shape(orig, shape@),
            in_shape(pos@, shape@),
            offsets_fit(shape@, st),
            *offset == dot(pos@, st),
            !done ==> pos@ == orig.subrange(0, k as int) + Seq::new((n - k) as nat, |j: int| 0usize),
            !done ==> increment_spec(orig, shape@) == increment_spec(
                orig.subrange(0, k as int),
                shape@.subrange(0, k as int),
            ) + Seq::new((n - k) as nat, |j: int| 0usize),
            done ==> pos@ == increment_spec(orig, shape@),
        decreases k + (if done {
            0int
        } else {
            1int
        }),
    {
        let d = k - 1;
        let ghost before = pos@;
        proof {
            assert(st[d as int] == stride@[d as int] as int);
            assert(stride@[d as int] >= 0);
            lemma_dot_update(pos@, st, d as int, 0);
        }
        if pos[d] + 1 < shape[d] {
            let v = pos[d] + 1;
            proof {
                lemma_dot_update(pos@, st, d as int, v);
                assert(in_shape(pos@.update(d as int, v), shape@));
                let x = pos@[d as int] as int;
                assert((v - x) * st[d as int] == st[d as int]);
            }
            pos.set(d, v);
            *offset = *offset + stride[d];
            proof {
                let ok = orig.subrange(0, k as int);
                let sk = shape@.subrange(0, k as int);
                assert(ok.last() == orig[d as int]);
                assert(ok.drop_last() =~= orig.subrange(0, d as int));
                assert(increment_spec(ok, sk) == ok.drop_last().push(v));
                assert(pos@ =~= increment_spec(ok, sk) + Seq::new((n - k) as nat, |j: int| 0usize));
            }
            done = true;
        } else {
            proof {
                let x = pos@[d as int] as int;
                let y = st[d as int];
                assert((0 - x) * y == -(x * y)) by (nonlinear_arith);
                assert(in_shape(pos@.update(d as int, 0), shape@));
                lemma_dot_nonneg(pos@.update(d as int, 0), st);
            }
            let sub = pos[d] * stride[d];
            *offset = *offset - sub;
            pos.set(d, 0);
            proof {
                let ok = orig.subrange(0, k as int);
                let sk = shape@.subrange(0, k as int);
                assert(ok.last() == orig[d as int]);
                assert(ok.drop_last() =~= orig.subrange(0, d as int));
                assert(sk.drop_last() =~= shape@.subrange(0, d as int));
                assert(increment_spec(ok, sk) == increment_spec(ok.drop_last(), sk.drop_last()).push(
                    0usize,
                ));
                assert(increment_spec(ok.drop_last(), sk.drop_last()).push(0usize) + Seq::new(
                    (n - k) as nat,
                    |j: int| 0usize,
                ) =~= increment_spec(ok.drop_last(), sk.drop_last()) + Seq::new(
                    (n - d) as nat,
                    |j: int| 0usize,
                ));
                assert(pos@ =~= orig.subrange(0, d as int) + Seq::new((n - d) as nat, |j: int| 0usize));
            }
            k = d;
        }
    }
    proof {
        if !done {
            assert(orig.subrange(0, 0) =~= Seq::<usize>::empty());
            assert(shape@.subrange(0, 0) =~= Seq::<usize>::empty());
            assert(increment_spec(Seq::<usize>::empty(), Seq::<usize>::empty()) == Seq::<usize>::empty());
            assert(pos@ =~= increment_spec(orig, shape@));
        }
    }
}

/// The largest index along every axis of `shape`.
pub open spec fn maxima(shape: Seq<usize>) -> Seq<usize> {
    Seq::new(shape.len(), |k: int| (shape[k] - 1) as usize)
}

/// Move the multi-index `pos` back to the previous one in row-major order, keeping `offset`
/// equal to its weighted sum with `stride`.
fn odometer_decrement(pos: &mut Vec<usize>, offset: &mut usize, shape: &Vec<usize>, stride: &Vec<usize>)
    requires
        all_positive(shape@),
        in_shape(old(pos)@, shape@),
        stride@.len() == shape@.len(),
        *old(offset) == dot(old(pos)@, as_ints(stride@)),
        offsets_fit(shape@, as_ints(stride@)),
    ensures
        final(pos)@ == decrement_spec(old(pos)@, shape@),
        in_shape(final(pos)@, shape@),
        *final(offset) == dot(final(pos)@, as_ints(stride@)),
{
    let ghost orig = pos@;
    let ghost st = as_ints(stride@);
    let n = shape.len();
    let mut k = n;
    let mut done = false;
    proof {
        assert(orig.subrange(0, n as int) =~= orig);
        assert(shape@.subrange(0, n as int) =~= shape@);
        assert(orig.subrange(0, n as int) + maxima(shape@.subrange(n as int, n as int)) =~= orig);
    }
    while k > 0 && !done
        invariant
            k <= n,
            n == shape@.len(),
            n == stride@.len(),
            st == as_ints(stride@),
            all_positive(shape@),
            in_shape(orig, shape@),
            in_shape(pos@, shape@),
            offsets_fit(shape@, st),
            *offset == dot(pos@, st),
            !done ==> pos@ == orig.subrange(0, k as int) + maxima(
                shape@.subrange(k as int, n as int),
            ),
            !done ==> decrement_spec(orig, shape@) == decrement_spec(
                orig.subrange(0, k as int),
                shape@.subrange(0, k as int),
            ) + maxima(shape@.subrange(k as int, n as int)),
            done ==> pos@ == decrement_spec(orig, shape@),
        decreases k + (if done {
            0int
        } else {
            1int
        }),
    {
        let d = k - 1;
        proof {
            assert(st[d as int] == stride@[d as int] as int);
        }
        if pos[d] == 0 {
            let v = shape[d] - 1;
            proof {
                lemma_dot_update(pos@, st, d as int, v);
                assert(in_shape(pos@.update(d as int, v), shape@));
                lemma_dot_nonneg(pos@.update(d as int, v), st);
                lemma_dot_update(pos@.update(d as int, v), st, d as int, 0);
                assert(pos@.update(d as int, v).update(d as int, 0) =~= pos@);
                let y = st[d as int];
                assert((v - 0) * y == v * y);
                assert(0 <= v * y) by (nonlinear_arith)
                    requires
                        v >= 0,
                        y >= 0,
                ;
            }
            let add = v * stride[d];
            *offset = *offset + add;
            pos.set(d, v);
            proof {
                let ok = orig.subrange(0, k as int);
                let sk = shape@.subrange(0, k as int);
                assert(ok.last() == orig[d as int]);
                assert(ok.drop_last() =~= orig.subrange(0, d as int));
                assert(sk.drop_last() =~= shape@.subrange(0, d as int));
                assert(sk.last() == shape@[d as int]);
                assert(decrement_spec(ok, sk) == decrement_spec(ok.drop_last(), sk.drop_last()).push(
                    v,
                ));
                assert(maxima(shape@.subrange(d as int, n as int)) =~= seq![v] + maxima(
                    shape@.subrange(k as int, n as int),
                ));
                assert(decrement_spec(ok.drop_last(), sk.drop_last()).push(v) + maxima(
                    shape@.subrange(k as int, n as int),
                ) =~= decrement_spec(ok.drop_last(), sk.drop_last()) + maxima(
                    shape@.subrange(d as int, n as int),
                ));
                assert(pos@ =~= orig.subrange(0, d as int) + maxima(
                    shape@.subrange(d as int, n as int),
                ));
            }
            k = d;
        } else {
            let v = pos[d] - 1;
            proof {
                lemma_dot_update(pos@, st, d as int, v);
                assert(in_shape(pos@.update(d as int, v), shape@));
                lemma_dot_nonneg(pos@.update(d as int, v), st);
                let y = st[d as int];
                assert((v - (v + 1)) * y == -y) by (nonlinear_arith);
            }
            *offset = *offset - stride[d];
            pos.set(d, v);
            proof {
                let ok = orig.subrange(0, k as int);
                let sk = shape@.subrange(0, k as int);
                assert(ok.last() == orig[d as int]);
                assert(ok.drop_last() =~= orig.subrange(0, d as int));
                assert(decrement_spec(ok, sk) == ok.drop_last().push(v));
                assert(pos@ =~= decrement_spec(ok, sk) + maxima(shape@.subrange(k as int, n as int)));
            }
            done = true;
        }
    }
    proof {
        if !done {
            assert(orig.subrange(0, 0) =~= Seq::<usize>::empty());
            assert(shape@.subrange(0, 0) =~= Seq::<usize>::empty());
            assert(decrement_spec(Seq::<usize>::empty(), Seq::<usize>::empty()) == Seq::<usize>::empty());
            assert(pos@ =~= decrement_spec(orig, shape@));
        }
    }
}

// ---------------------------------------------------------------------------------------
// Lane layout bounds
// ---------------------------------------------------------------------------------------
proof fn lemma_prod_mono(s1: Seq<usize>, s2: Seq<usize>)
    requires
        s1.len() == s2.len(),
        forall|j: int| 0 <= j < s1.len() ==> #[trigger] s1[j] <= s2[j],
    ensures
        0 <= shape_prod(s1) <= shape_prod(s2),
    decreases s1.len(),
{
    if s1.len() > 0 {
        lemma_prod_mono(s1.drop_first(), s2.drop_first());
        let a = s1[0] as int;
        let b = s2[0] as int;
        let p = shape_prod(s1.drop_first());
        let q = shape_prod(s2.drop_first());
        assert(0 <= a * p <= b * q) by (nonlinear_arith)
            requires
                0 <= a <= b,
                0 <= p <= q,
        ;
    }
}

proof fn lemma_prod_update_one(s: Seq<usize>, a: int)
    requires
        0 <= a < s.len(),
    ensures
        shape_prod(s.update(a, 1usize)) == shape_prod(s.remove(a)),
    decreases s.len(),
{
    let u = s.update(a, 1usize);
    assert(shape_prod(u) == u[0] * shape_prod(u.drop_first()));
    if a == 0 {
        assert(u.drop_first() =~= s.remove(0));
        assert(u[0] == 1);
        let x = shape_prod(u.drop_first());
        assert(u[0] * x == x) by (nonlinear_arith)
            requires
                u[0] == 1,
        ;
    } else {
        lemma_prod_update_one(s.drop_first(), a - 1);
        assert(u.drop_first() =~= s.drop_first().update(a - 1, 1usize));
        assert(s.remove(a).drop_first() =~= s.drop_first().remove(a - 1));
        assert(s.remove(a)[0] == s[0]);
        assert(u[0] == s[0]);
        assert(shape_prod(s.remove(a)) == s.remove(a)[0] * shape_prod(s.remove(a).drop_first()));
    }
}

/// Inside a shape, the product of every run of lengths is at most the whole product.
proof fn lemma_prod_subrange_le(s: Seq<usize>, i: int, j: int)
    requires
        all_positive(s),
        0 <= i <= j <= s.len(),
    ensures
        shape_prod(s.subrange(i, j)) <= shape_prod(s),
{
    let t = Seq::new(s.len(), |k: int| if i <= k < j { s[k] } else { 1usize });
    lemma_prod_mono(t, s);
    lemma_prod_ones_outside(s, i, j);
}

/// Replacing the lengths outside `[i, j)` by one leaves the product of the run.
proof fn lemma_prod_ones_outside(s: Seq<usize>, i: int, j: int)
    requires
        0 <= i <= j <= s.len(),
    ensures
        shape_prod(Seq::new(s.len(), |k: int| if i <= k < j { s[k] } else { 1usize }))
            == shape_prod(s.subrange(i, j)),
    decreases s.len(),
{
    let t = Seq::new(s.len(), |k: int| if i <= k < j { s[k] } else { 1usize });
    if s.len() == 0 {
        assert(s.subrange(i, j) =~= Seq::<usize>::empty());
    } else if i > 0 {
        assert(t[0] == 1);
        assert(shape_prod(t) == t[0] * shape_prod(t.drop_first()));
        lemma_prod_ones_outside(s.drop_first(), i - 1, j - 1);
        assert(t.drop_first() =~= Seq::new(
            s.drop_first().len(),
            |k: int| if i - 1 <= k < j - 1 { s.drop_first()[k] } else { 1usize },
        ));
        assert(s.drop_first().subrange(i - 1, j - 1) =~= s.subrange(i, j));
    } else if j == 0 {
        assert(t =~= Seq::new(s.len(), |k: int| 1usize));
        lemma_prod_ones(s.len() as int);
        assert(s.subrange(i, j) =~= Seq::<usize>::empty());
    } else {
        lemma_prod_ones_outside(s.drop_first(), 0, j - 1);
        assert(t.drop_first() =~= Seq::new(
            s.drop_first().len(),
            |k: int| if 0 <= k < j - 1 { s.drop_first()[k] } else { 1usize },
        ));
        let r = s.subrange(0, j);
        assert(r.drop_first() =~= s.drop_first().subrange(0, j - 1));
        assert(r[0] == s[0]);
        assert(t[0] == s[0]);
        assert(shape_prod(t) == t[0] * shape_prod(t.drop_first()));
        assert(shape_prod(r) == r[0] * shape_prod(r.drop_first()));
    }
}

proof fn lemma_prod_ones(n: int)
    requires
        n >= 0,
    ensures
        shape_prod(Seq::new(n as nat, |k: int| 1usize)) == 1,
    decreases n,
{
    if n > 0 {
        lemma_prod_ones(n - 1);
        assert(Seq::new(n as nat, |k: int| 1usize).drop_first() =~= Seq::new(
            (n - 1) as nat,
            |k: int| 1usize,
        ));
    }
}

/// Every lane of an array of shape `shape` along `axis` starts at a `usize` offset, and when
/// the lanes are not empty every element of every lane lies inside the array.
proof fn lemma_lane_bounds(shape: Seq<usize>, a: int)
    requires
        0 <= a < shape.len(),
        all_positive(shape.remove(a)),
        shape_prod(shape.remove(a)) <= usize::MAX,
        shape_prod(shape) <= usize::MAX,
    ensures
        offsets_fit(shape.remove(a), row_strides(shape).remove(a)),
        forall|p: Seq<usize>|
            in_shape(p, shape.remove(a)) && shape[a] > 0 ==> #[trigger] dot(
                p,
                row_strides(shape).remove(a),
            ) + (shape[a] - 1) * row_strides(shape)[a] < shape_prod(shape),
{
    let rs = row_strides(shape);
    let sr = shape.remove(a);
    assert forall|p: Seq<usize>| in_shape(p, sr) implies #[trigger] dot(p, rs.remove(a))
        <= usize::MAX && (shape[a] > 0 ==> dot(p, rs.remove(a)) + (shape[a] - 1) * rs[a]
        < shape_prod(shape)) by {
        lemma_rs_nonneg(shape);
        if shape[a] > 0 {
            let v = (shape[a] - 1) as usize;
            let q = p.insert(a, v);
            assert(in_shape(q, shape));
            lemma_dot_insert(p, rs, a, v);
            lemma_flat_bound(q, shape);
            assert(v * rs[a] >= 0) by (nonlinear_arith)
                requires
                    v >= 0,
                    rs[a] >= 0,
            ;
        } else {
            let sh = shape.update(a, 1usize);
            let q = p.insert(a, 0usize);
            assert(in_shape(q, sh));
            lemma_dot_insert(p, rs, a, 0usize);
            assert forall|j: int| 0 <= j < shape.len() implies 0 <= #[trigger] rs[j]
                <= row_strides(sh)[j] by {
                let s1 = shape.subrange(j + 1, shape.len() as int);
                let s2 = sh.subrange(j + 1, shape.len() as int);
                assert forall|k: int| 0 <= k < s1.len() implies #[trigger] s1[k] <= s2[k] by {}
                lemma_prod_mono(s1, s2);
            }
            lemma_dot_mono(q, rs, row_strides(sh));
            lemma_flat_bound(q, sh);
            lemma_prod_update_one(shape, a);
        }
    }
}

proof fn lemma_rs_nonneg(shape: Seq<usize>)
    ensures
        nonneg(row_strides(shape)),
{
    assert forall|j: int| 0 <= j < row_strides(shape).len() implies #[trigger] row_strides(
        shape,
    )[j] >= 0 by {
        lemma_prod_nonneg(shape.subrange(j + 1, shape.len() as int));
    }
}

/// The product of a shape is the product without one axis times that axis's length.
pub(crate) proof fn lemma_prod_remove(s: Seq<usize>, a: int)
    requires
        0 <= a < s.len(),
    ensures
        shape_prod(s) == shape_prod(s.remove(a)) * s[a],
    decreases s.len(),
{
    let t = s.drop_first();
    if a == 0 {
        assert(s.remove(0) =~= t);
        assert(s[0] * shape_prod(t) == shape_prod(t) * s[0]) by (nonlinear_arith);
    } else {
        lemma_prod_remove(t, a - 1);
        let r = s.remove(a);
        assert(r.drop_first() =~= t.remove(a - 1));
        assert(r[0] == s[0]);
        let x = s[0] as int;
        let y = shape_prod(t.remove(a - 1));
        let z = s[a] as int;
        assert(x * (y * z) == (x * y) * z) by (nonlinear_arith);
    }
}

/// Element `i` of lane `k` is the buffer entry whose multi-index is the multi-index of lane
/// `k` among the other axes with `i` inserted at the lane axis.
proof fn lemma_lane_element(shape: Seq<usize>, axis: int, k: int, i: int)
    requires
        lanes_ok(shape, axis),
        0 <= k < shape_prod(shape.remove(axis)),
        0 <= i < shape[axis],
    ensures
        in_shape(unravel_spec(k, shape.remove(axis)).insert(axis, i as usize), shape),
        lane_of(lane_layout(shape, axis), k).index_of(i) == dot(
            unravel_spec(k, shape.remove(axis)).insert(axis, i as usize),
            row_strides(shape),
        ),
{
    let sr = shape.remove(axis);
    let rs = row_strides(shape);
    let u = unravel_spec(k, sr);
    lemma_unravel_shape(k, sr);
    assert(sr.subrange(0, sr.len() as int) =~= sr);
    assert(shape.subrange(0, shape.len() as int) =~= shape);
    lemma_lane_bounds(shape, axis);
    lemma_rs_nonneg(shape);
    lemma_dot_nonneg(u, rs.remove(axis));
    let q = u.insert(axis, i as usize);
    assert forall|j: int| 0 <= j < shape.len() implies q[j] < shape[j] by {
        if j < axis {
            assert(q[j] == u[j] && sr[j] == shape[j]);
        } else if j > axis {
            assert(q[j] == u[j - 1] && sr[j - 1] == shape[j]);
        }
    }
    lemma_dot_insert(u, rs, axis, i as usize);
    assert(rs[axis] <= usize::MAX) by {
        assert(suffix_prods_fit(shape));
        assert(shape_prod(shape.subrange(axis + 1, shape.len() as int)) <= usize::MAX);
    }
}

/// An array whose element count is a positive `usize` meets the requirements of the lane
/// iterators along any of its axes.
pub proof fn lemma_lanes_ok_from_len(shape: Seq<usize>, axis: int)
    requires
        0 <= axis < shape.len(),
        1 <= shape_prod(shape) <= usize::MAX,
    ensures
        lanes_ok(shape, axis),
        all_positive(shape),
        shape_prod(shape.remove(axis)) <= shape_prod(shape),
{
    assert forall|j: int| 0 <= j < shape.len() implies shape[j] > 0 by {
        lemma_prod_remove(shape, j);
        if shape[j] == 0 {
            assert(shape_prod(shape.remove(j)) * shape[j] == 0) by (nonlinear_arith)
                requires
                    shape[j] == 0,
            ;
        }
    }
    let sr = shape.remove(axis);
    assert(all_positive(sr)) by {
        assert forall|j: int| 0 <= j < sr.len() implies sr[j] > 0 by {
            if j < axis {
                assert(sr[j] == shape[j]);
            } else {
                assert(sr[j] == shape[j + 1]);
            }
        }
    }
    lemma_prod_remove(shape, axis);
    lemma_prod_nonneg(sr);
    assert(shape_prod(sr) <= shape_prod(shape)) by (nonlinear_arith)
        requires
            shape_prod(shape) == shape_prod(sr) * shape[axis],
            shape[axis] >= 1,
            shape_prod(sr) >= 0,
    ;
    assert forall|k: int| 0 <= k <= shape.len() implies #[trigger] shape_prod(
        shape.subrange(k, shape.len() as int),
    ) <= usize::MAX by {
        lemma_prod_subrange_le(shape, k, shape.len() as int);
    }
    assert forall|k: int| 0 <= k <= shape.len() implies #[trigger] shape_prod(
        shape.subrange(0, k),
    ) <= usize::MAX by {
        lemma_prod_subrange_le(shape, 0, k);
    }
    assert forall|k: int| 0 <= k <= sr.len() implies #[trigger] shape_prod(sr.subrange(0, k))
        <= usize::MAX by {
        lemma_prod_subrange_le(sr, 0, k);
    }
}

/// The start of lane `k` is the weighted sum of its multi-index among the other axes,
/// and that sum is a `usize`.
#[verifier::rlimit(30)]
pub proof fn lemma_lane_start_fits(shape: Seq<usize>, axis: int, k: int)
    requires
        lanes_ok(shape, axis),
        0 <= k < shape_prod(shape.remove(axis)),
    ensures
        in_shape(unravel_spec(k, shape.remove(axis)), shape.remove(axis)),
        offsets_fit(shape.remove(axis), row_strides(shape).remove(axis)),
        lane_of(lane_layout(shape, axis), k).start == dot(
            unravel_spec(k, shape.remove(axis)),
            row_strides(shape).remove(axis),
        ),
{
    let sr = shape.remove(axis);
    lemma_unravel_shape(k, sr);
    assert(sr.subrange(0, sr.len() as int) =~= sr);
    assert(shape.subrange(0, shape.len() as int) =~= shape);
    lemma_lane_bounds(shape, axis);
    lemma_rs_nonneg(shape);
    lemma_dot_nonneg(unravel_spec(k, sr), row_strides(shape).remove(axis));
}

/// Buffer entry `p` is an element of some lane of the array along `axis`.
pub open spec fn in_some_lane(shape: Seq<usize>, axis: int, p: int) -> bool {
    exists|k: int, i: int|
        0 <= k < shape_prod(shape.remove(axis)) && 0 <= i < shape[axis]
            && #[trigger] lane_of(lane_layout(shape, axis), k).index_of(i) == p
}

/// The lanes of an array along an axis partition its elements: no buffer entry is an
/// element of two lanes or twice an element of one lane, and every entry of the array is
/// an element of some lane.
pub proof fn lemma_lanes_partition(shape: Seq<usize>, axis: int)
    requires
        lanes_ok(shape, axis),
    ensures
        forall|k1: int, i1: int, k2: int, i2: int|
            0 <= k1 < shape_prod(shape.remove(axis)) && 0 <= i1 < shape[axis] && 0 <= k2
                < shape_prod(shape.remove(axis)) && 0 <= i2 < shape[axis]
                && #[trigger] lane_of(lane_layout(shape, axis), k1).index_of(i1)
                == #[trigger] lane_of(lane_layout(shape, axis), k2).index_of(i2) ==> k1 == k2
                && i1 == i2,
        forall|k: int, i: int|
            0 <= k < shape_prod(shape.remove(axis)) && 0 <= i < shape[axis] ==> 0
                <= #[trigger] lane_of(lane_layout(shape, axis), k).index_of(i) < shape_prod(shape),
        forall|p: int| 0 <= p < shape_prod(shape) ==> #[trigger] in_some_lane(shape, axis, p),
{
    let sr = shape.remove(axis);
    let l = lane_layout(shape, axis);
    assert forall|k: int, i: int| 0 <= k < shape_prod(sr) && 0 <= i < shape[axis] implies 0
        <= #[trigger] lane_of(l, k).index_of(i) < shape_prod(shape) by {
        lemma_lane_element(shape, axis, k, i);
        lemma_flat_bound(unravel_spec(k, sr).insert(axis, i as usize), shape);
    }
    assert forall|k1: int, i1: int, k2: int, i2: int|
        0 <= k1 < shape_prod(sr) && 0 <= i1 < shape[axis] && 0 <= k2 < shape_prod(sr) && 0 <= i2
            < shape[axis] && #[trigger] lane_of(l, k1).index_of(i1) == #[trigger] lane_of(
            l,
            k2,
        ).index_of(i2) implies k1 == k2 && i1 == i2 by {
        lemma_lane_element(shape, axis, k1, i1);
        lemma_lane_element(shape, axis, k2, i2);
        lemma_unravel_shape(k1, sr);
        lemma_unravel_shape(k2, sr);
        let q1 = unravel_spec(k1, sr).insert(axis, i1 as usize);
        let q2 = unravel_spec(k2, sr).insert(axis, i2 as usize);
        lemma_dot_injective(q1, q2, shape);
        assert(q1[axis] == i1 && q2[axis] == i2);
        assert(q1.remove(axis) =~= unravel_spec(k1, sr));
        assert(q2.remove(axis) =~= unravel_spec(k2, sr));
        lemma_dot_unravel(k1, sr);
        lemma_dot_unravel(k2, sr);
    }
    assert forall|p: int| 0 <= p < shape_prod(shape) implies #[trigger] in_some_lane(
        shape,
        axis,
        p,
    ) by {
        lemma_prod_remove(shape, axis);
        lemma_prod_nonneg(sr);
        assert(shape[axis] > 0) by {
            if shape[axis] == 0 {
                assert(shape_prod(sr) * shape[axis] == 0) by (nonlinear_arith)
                    requires
                        shape[axis] == 0,
                ;
            }
        }
        assert(all_positive(shape)) by {
            assert forall|j: int| 0 <= j < shape.len() implies shape[j] > 0 by {
                if j < axis {
                    assert(sr[j] == shape[j]);
                } else if j > axis {
                    assert(sr[j - 1] == shape[j]);
                }
            }
        }
        let q = unravel_spec(p, shape);
        lemma_unravel_shape(p, shape);
        lemma_dot_unravel(p, shape);
        let qr = q.remove(axis);
        assert(in_shape(qr, sr)) by {
            assert forall|j: int| 0 <= j < sr.len() implies qr[j] < sr[j] by {
                if j < axis {
                    assert(qr[j] == q[j]);
                } else {
                    assert(qr[j] == q[j + 1]);
                }
            }
        }
        let k = dot(qr, row_strides(sr));
        lemma_flat_bound(qr, sr);
        lemma_unravel_dot(qr, sr);
        let i = q[axis] as int;
        lemma_lane_element(shape, axis, k, i);
        assert(qr.insert(axis, q[axis]) =~= q);
        assert(lane_of(l, k).index_of(i) == p);
    }
}

// ---------------------------------------------------------------------------------------
// Lane cursors
// ---------------------------------------------------------------------------------------
/// The lanes of an array along one axis: the shape and strides of the other axes, and the
/// length and stride of every lane.
pub struct LaneLayout {
    /// Lengths of the axes other than the lane axis.
    pub shape: Seq<usize>,
    /// Row-major strides of the axes other than the lane axis.
    pub stride: Seq<int>,
    /// Number of elements of a lane.
    pub lane_length: int,
    /// Distance between consecutive elements of a lane.
    pub lane_stride: int,
}

/// Lane layout of a row-major array of shape `shape` along `axis`.
pub open spec fn lane_layout(shape: Seq<usize>, axis: int) -> LaneLayout {
    LaneLayout {
        shape: shape.remove(axis),
        stride: row_strides(shape).remove(axis),
        lane_length: shape[axis] as int,
        lane_stride: row_strides(shape)[axis],
    }
}

/// The `k`-th lane in row-major order of the other axes.
pub open spec fn lane_of(l: LaneLayout, k: int) -> StridedSliceRef {
    StridedSliceRef {
        start: dot(unravel_spec(k, l.shape), l.stride) as usize,
        length: l.lane_length as usize,
        stride: l.lane_stride as usize,
    }
}

/// Requirements on an array of shape `shape` with lanes along `axis`: the axis exists, the
/// other lengths are positive (the iterators compute `length - 1` for each of them), and
/// every product and partial product they compute is a `usize`.
pub open spec fn lanes_ok(shape: Seq<usize>, axis: int) -> bool {
    &&& 0 <= axis < shape.len()
    &&& all_positive(shape.remove(axis))
    &&& suffix_prods_fit(shape)
    &&& prefix_prods_fit(shape)
    &&& prefix_prods_fit(shape.remove(axis))
}

/// The first `k` entries of a sequence without the entry at `axis` (which is removed only
/// once it is among them).
pub open spec fn remove_value_at_prefix<T>(s: Seq<T>, axis: int) -> Seq<T> {
    if axis < s.len() {
        s.remove(axis)
    } else {
        s
    }
}

/// Every prefix product of the shape is a `usize` (products are folded from the front).
pub open spec fn prefix_prods_fit(shape: Seq<usize>) -> bool {
    forall|k: int| 0 <= k <= shape.len() ==> shape_prod(shape.subrange(0, k)) <= usize::MAX
}

/// Shape and strides of the lanes.
struct ArrayInfo {
    shape: Vec<usize>,
    stride: Vec<usize>,
    lane_length: usize,
    lane_stride: usize,
}

/// Double-ended enumeration of the lanes `lo..hi` of an array, keeping the multi-index and
/// buffer offset of the next lane at each end.
pub struct LaneCursor {
    arr_info: ArrayInfo,
    front_pos: Vec<usize>,
    front_offset: usize,
    rear_offset: usize,
    rear_pos: Vec<usize>,
    remaining: usize,
    lo: Ghost<int>,
    hi: Ghost<int>,
    layout: Ghost<LaneLayout>,
}

proof fn lemma_dot_prefix(p: Seq<usize>, st: Seq<int>, k: int)
    requires
        p.len() == st.len(),
        nonneg(st),
        0 <= k <= p.len(),
    ensures
        0 <= dot(p.subrange(0, k), st.subrange(0, k)) <= dot(p, st),
    decreases p.len() - k,
{
    lemma_dot_nonneg(p.subrange(0, k), st.subrange(0, k));
    if k < p.len() {
        lemma_dot_prefix(p, st, k + 1);
        let p1 = p.subrange(0, k + 1);
        let s1 = st.subrange(0, k + 1);
        assert(p1.drop_last() =~= p.subrange(0, k));
        assert(s1.drop_last() =~= st.subrange(0, k));
        assert(p1.last() * s1[k] >= 0) by (nonlinear_arith)
            requires
                p1.last() >= 0,
                s1[k] >= 0,
        ;
    } else {
        assert(p.subrange(0, k) =~= p);
        assert(st.subrange(0, k) =~= st);
    }
}

/// Weighted sum of a multi-index with the strides.
pub(crate) fn dot_exec(pos: &Vec<usize>, stride: &Vec<usize>, Ghost(shape): Ghost<Seq<usize>>) -> (r: usize)
    requires
        in_shape(pos@, shape),
        stride@.len() == shape.len(),
        offsets_fit(shape, as_ints(stride@)),
    ensures
        r == dot(pos@, as_ints(stride@)),
{
    let ghost st = as_ints(stride@);
    let n = pos.len();
    let mut acc: usize = 0;
    let mut k: usize = 0;
    proof {
        assert(nonneg(st));
        assert(dot(pos@, st) <= usize::MAX);
        assert(pos@.subrange(0, 0) =~= Seq::<usize>::empty());
    }
    while k < n
        invariant
            k <= n,
            n == pos@.len(),
            n == stride@.len(),
            st == as_ints(stride@),
            nonneg(st),
            dot(pos@, st) <= usize::MAX,
            acc == dot(pos@.subrange(0, k as int), st.subrange(0, k as int)),
        decreases n - k,
    {
        proof {
            lemma_dot_prefix(pos@, st, k + 1);
            let p1 = pos@.subrange(0, k + 1);
            let s1 = st.subrange(0, k + 1);
            assert(p1.drop_last() =~= pos@.subrange(0, k as int));
            assert(s1.drop_last() =~= st.subrange(0, k as int));
            assert(0 <= pos@[k as int] * stride@[k as int]) by (nonlinear_arith);
        }
        acc = acc + pos[k] * stride[k];
        k += 1;
    }
    proof {
        assert(pos@.subrange(0, n as int) =~= pos@);
        assert(st.subrange(0, n as int) =~= st);
    }
    acc
}

proof fn lemma_unravel_zero(s: Seq<usize>)
    requires
        all_positive(s),
    ensures
        unravel_spec(0, s) == Seq::new(s.len(), |k: int| 0usize),
    decreases s.len(),
{
    if s.len() > 0 {
        lemma_unravel_zero(s.drop_last());
        assert(unravel_spec(0, s) =~= Seq::new(s.len(), |k: int| 0usize));
    }
}

impl LaneCursor {
    /// The lane layout being enumerated.
    pub closed spec fn layout(&self) -> LaneLayout {
        self.layout@
    }

    /// Index of the next lane taken from the front.
    pub closed spec fn lo(&self) -> int {
        self.lo@
    }

    /// One past the index of the next lane taken from the back.
    pub closed spec fn hi(&self) -> int {
        self.hi@
    }

    /// Internal consistency of the cursor.
    pub closed spec fn wf(&self) -> bool {
        let l = self.layout@;
        let info = self.arr_info;
        &&& info.shape@ == l.shape
        &&& info.stride@.len() == l.shape.len()
        &&& as_ints(info.stride@) == l.stride
        &&& info.lane_length == l.lane_length
        &&& info.lane_stride == l.lane_stride
        &&& all_positive(l.shape)
        &&& offsets_fit(l.shape, l.stride)
        &&& nonneg(l.stride)
        &&& 0 <= self.lo@ <= self.hi@ <= shape_prod(l.shape)
        &&& self.remaining == self.hi@ - self.lo@
        &&& self.front_pos@ == unravel_spec(self.lo@, l.shape)
        &&& in_shape(self.front_pos@, l.shape)
        &&& self.front_offset == dot(self.front_pos@, l.stride)
        &&& in_shape(self.rear_pos@, l.shape)
        &&& self.rear_offset == dot(self.rear_pos@, l.stride)
        &&& self.remaining > 0 ==> self.rear_pos@ == unravel_spec(self.hi@ - 1, l.shape)
    }

    /// The lanes `lo..hi` of an array of shape `shape` along `axis`.
    pub fn new_range(shape: &[usize], axis: usize, lo: usize, hi: usize) -> (r: LaneCursor)
        requires
            lanes_ok(shape@, axis as int),
            lo <= hi <= shape_prod(shape@.remove(axis as int)),
        ensures
            r.wf(),
            r.layout() == lane_layout(shape@, axis as int),
            r.lo() == lo,
            r.hi() == hi,
    {
        let stride_full = stride_from_shape(shape);
        let mut sh: Vec<usize> = Vec::new();
        let mut k: usize = 0;
        while k < shape.len()
            invariant
                k <= shape@.len(),
                sh@ == shape@.subrange(0, k as int),
            decreases shape@.len() - k,
        {
            sh.push(shape[k]);
            proof {
                assert(sh@ =~= shape@.subrange(0, k as int + 1));
            }
            k += 1;
        }
        proof {
            assert(sh@ =~= shape@);
        }
        let mut stride = stride_full;
        let lane_length = sh.remove(axis);
        let lane_stride = stride.remove(axis);
        let ghost layout = lane_layout(shape@, axis as int);
        proof {
            assert(as_ints(stride@) =~= layout.stride);
            assert(shape@.subrange(0, shape@.len() as int) =~= shape@);
            assert(shape@.remove(axis as int).subrange(0, sh@.len() as int) =~= shape@.remove(
                axis as int,
            ));
            lemma_lane_bounds(shape@, axis as int);
            lemma_rs_nonneg(shape@);
            assert(nonneg(layout.stride));
            lemma_prod_pos(layout.shape);
        }
        let nl_hi = hi;
        let front_pos = unravel(lo, sh.as_slice());
        let rear_index = if hi > lo {
            hi - 1
        } else {
            lo
        };
        let rear_pos = unravel(rear_index, sh.as_slice());
        proof {
            lemma_unravel_shape(lo as int, layout.shape);
            lemma_unravel_shape(rear_index as int, layout.shape);
        }
        let front_offset = dot_exec(&front_pos, &stride, Ghost(layout.shape));
        let rear_offset = dot_exec(&rear_pos, &stride, Ghost(layout.shape));
        LaneCursor {
            arr_info: ArrayInfo { shape: sh, stride, lane_length, lane_stride },
            front_pos,
            front_offset,
            rear_offset,
            rear_pos,
            remaining: nl_hi - lo,
            lo: Ghost(lo as int),
            hi: Ghost(hi as int),
            layout: Ghost(layout),
        }
    }

    /// The lanes `lo..hi` along `axis` of the leading region of shape `sub` of an array of
    /// shape `shape`.
    pub fn new_sub_range(shape: &[usize], sub: &[usize], axis: usize, lo: usize, hi: usize) -> (r:
        LaneCursor)
        requires
            sub_lanes_ok(shape@, sub@, axis as int),
            lo <= hi <= shape_prod(sub@.remove(axis as int)),
        ensures
            r.wf(),
            r.layout() == sub_lane_layout(shape@, sub@, axis as int),
            r.lo() == lo,
            r.hi() == hi,
    {
        let mut stride = stride_from_shape(shape);
        let mut sh: Vec<usize> = Vec::new();
        let mut k: usize = 0;
        while k < sub.len()
            invariant
                k <= sub@.len(),
                sh@ == sub@.subrange(0, k as int),
            decreases sub@.len() - k,
        {
            sh.push(sub[k]);
            proof {
                assert(sh@ =~= sub@.subrange(0, k as int + 1));
            }
            k += 1;
        }
        proof {
            assert(sh@ =~= sub@);
        }
        let lane_length = sh.remove(axis);
        let lane_stride = stride.remove(axis);
        let ghost layout = sub_lane_layout(shape@, sub@, axis as int);
        let ghost sr = shape@.remove(axis as int);
        proof {
            assert(as_ints(stride@) =~= layout.stride);
            assert(shape_prod(sr) <= usize::MAX) by {
                assert(sr.subrange(0, sr.len() as int) =~= sr);
            }
            assert(shape_prod(shape@) <= usize::MAX) by {
                assert(shape@.subrange(0, shape@.len() as int) =~= shape@);
            }
            lemma_lane_bounds(shape@, axis as int);
            assert forall|p: Seq<usize>| in_shape(p, layout.shape) implies #[trigger] dot(
                p,
                layout.stride,
            ) <= usize::MAX by {
                assert(in_shape(p, sr)) by {
                    assert forall|j: int| 0 <= j < sr.len() implies #[trigger] p[j] < sr[j] by {
                        if j < axis {
                            assert(layout.shape[j] == sub@[j] && sr[j] == shape@[j]);
                        } else {
                            assert(layout.shape[j] == sub@[j + 1] && sr[j] == shape@[j + 1]);
                        }
                    }
                }
            }
            lemma_rs_nonneg(shape@);
            assert(nonneg(layout.stride));
        }
        let front_pos = unravel(lo, sh.as_slice());
        let rear_index = if hi > lo {
            hi - 1
        } else {
            lo
        };
        let rear_pos = unravel(rear_index, sh.as_slice());
        proof {
            lemma_unravel_shape(lo as int, layout.shape);
            lemma_unravel_shape(rear_index as int, layout.shape);
        }
        let front_offset = dot_exec(&front_pos, &stride, Ghost(layout.shape));
        let rear_offset = dot_exec(&rear_pos, &stride, Ghost(layout.shape));
        LaneCursor {
            arr_info: ArrayInfo { shape: sh, stride, lane_length, lane_stride },
            front_pos,
            front_offset,
            rear_offset,
            rear_pos,
            remaining: hi - lo,
            lo: Ghost(lo as int),
            hi: Ghost(hi as int),
            layout: Ghost(layout),
        }
    }

    /// Take the next lane from the front.
    pub fn next(&mut self) -> (r: Option<StridedSliceRef>)
        requires
            old(self).wf(),
        ensures
            final(self).wf(),
            final(self).layout() == old(self).layout(),
            final(self).hi() == old(self).hi(),
            old(self).lo() == old(self).hi() ==> r is None && final(self).lo() == old(self).lo(),
            old(self).lo() < old(self).hi() ==> r == Some(lane_of(old(self).layout(), old(self).lo()))
                && final(self).lo() == old(self).lo() + 1,
    {
        if self.remaining == 0 {
            return None;
        }
        self.remaining -= 1;
        let slice = StridedSliceRef {
            start: self.front_offset,
            length: self.arr_info.lane_length,
            stride: self.arr_info.lane_stride,
        };
        proof {
            lemma_unravel_shape(self.lo@, self.layout@.shape);
            lemma_unravel_increment(self.lo@, self.layout@.shape);
        }
        odometer_increment(
            &mut self.front_pos,
            &mut self.front_offset,
            &self.arr_info.shape,
            &self.arr_info.stride,
        );
        proof {
            self.lo@ = self.lo@ + 1;
        }
        Some(slice)
    }

    /// Take the next lane from the back.
    pub fn next_back(&mut self) -> (r: Option<StridedSliceRef>)
        requires
            old(self).wf(),
        ensures
            final(self).wf(),
            final(self).layout() == old(self).layout(),
            final(self).lo() == old(self).lo(),
            old(self).lo() == old(self).hi() ==> r is None && final(self).hi() == old(self).hi(),
            old(self).lo() < old(self).hi() ==> r == Some(
                lane_of(old(self).layout(), old(self).hi() - 1),
            ) && final(self).hi() == old(self).hi() - 1,
    {
        if self.remaining == 0 {
            return None;
        }
        self.remaining -= 1;
        let slice = StridedSliceRef {
            start: self.rear_offset,
            length: self.arr_info.lane_length,
            stride: self.arr_info.lane_stride,
        };
        proof {
            if self.hi@ - 1 >= 1 {
                lemma_unravel_decrement(self.hi@ - 1, self.layout@.shape);
            }
        }
        odometer_decrement(
            &mut self.rear_pos,
            &mut self.rear_offset,
            &self.arr_info.shape,
            &self.arr_info.stride,
        );
        proof {
            self.hi@ = self.hi@ - 1;
        }
        Some(slice)
    }

    /// Number of lanes left.
    pub fn len(&self) -> (r: usize)
        requires
            self.wf(),
        ensures
            r == self.hi() - self.lo(),
    {
        self.remaining
    }
}

// ---------------------------------------------------------------------------------------
// Strided slices over a borrowed buffer
// ---------------------------------------------------------------------------------------
/// A strided view together with the buffer it reads from.
pub struct StridedSlice<'a, T> {
    /// The underlying buffer.
    pub data: &'a [T],
    /// Which elements of the buffer the view covers.
    pub view: StridedSliceRef,
}

impl<'a, T> StridedSlice<'a, T> {
    /// The view lies inside the buffer.
    pub open spec fn wf(&self) -> bool {
        self.view.in_bounds(self.data@.len() as int)
    }

    /// The elements of the view.
    pub open spec fn elems(&self) -> Seq<T> {
        self.view.read(self.data@)
    }

    /// Return a reference to element `index`, or `None` if `index` is not below the length.
    pub fn get(&self, index: usize) -> (r: Option<&'a T>)
        requires
            self.wf(),
        ensures
            index >= self.view.length ==> r is None,
            index < self.view.length ==> r == Some(&self.elems()[index as int]),
    {
        self.view.get(self.data, index)
    }

    /// Number of elements in the view.
    pub fn len(&self) -> (r: usize)
        ensures
            r == self.view.length,
    {
        self.view.length
    }

    /// Iterate over the elements of the view, front to back.
    pub fn iter(&self) -> (r: StridedIter<'a, T>)
        requires
            self.wf(),
        ensures
            r.wf(),
            r.data@ == self.data@,
            r.view == self.view,
            r.front == 0,
            r.back == self.view.length,
    {
        StridedIter { data: self.data, view: self.view, front: 0, back: self.view.length }
    }
}

/// Double-ended iteration over the elements `front..back` of a strided view.
pub struct StridedIter<'a, T> {
    /// The underlying buffer.
    pub data: &'a [T],
    /// The view being iterated.
    pub view: StridedSliceRef,
    /// Index of the next element taken from the front.
    pub front: usize,
    /// One past the index of the next element taken from the back.
    pub back: usize,
}

impl<'a, T> StridedIter<'a, T> {
    /// The range is inside the view and the view inside the buffer.
    pub open spec fn wf(&self) -> bool {
        &&& self.front <= self.back <= self.view.length
        &&& self.view.in_bounds(self.data@.len() as int)
    }

    /// Take the next element from the front.
    pub fn next(&mut self) -> (r: Option<&'a T>)
        requires
            old(self).wf(),
        ensures
            final(self).wf(),
            final(self).data@ == old(self).data@,
            final(self).view == old(self).view,
            final(self).back == old(self).back,
            old(self).front == old(self).back ==> r is None && final(self).front == old(self).front,
            old(self).front < old(self).back ==> r == Some(
                &old(self).data@[old(self).view.index_of(old(self).front as int)],
            ) && final(self).front == old(self).front + 1,
    {
        if self.front == self.back {
            return None;
        }
        let r = self.view.get(self.data, self.front);
        self.front += 1;
        r
    }

    /// Take the next element from the back.
    pub fn next_back(&mut self) -> (r: Option<&'a T>)
        requires
            old(self).wf(),
        ensures
            final(self).wf(),
            final(self).data@ == old(self).data@,
            final(self).view == old(self).view,
            final(self).front == old(self).front,
            old(self).front == old(self).back ==> r is None && final(self).back == old(self).back,
            old(self).front < old(self).back ==> r == Some(
                &old(self).data@[old(self).view.index_of(old(self).back - 1)],
            ) && final(self).back == old(self).back - 1,
    {
        if self.front == self.back {
            return None;
        }
        self.back -= 1;
        self.view.get(self.data, self.back)
    }

    /// Number of elements left.
    pub fn len(&self) -> (r: usize)
        requires
            self.wf(),
        ensures
            r == self.back - self.front,
    {
        self.back - self.front
    }
}

/// `N` lanes advancing together, with the buffer they read from.
pub struct ChunkStridedSlice<'a, T, const N: usize> {
    /// The underlying buffer.
    pub data: &'a [T],
    /// Which elements of the buffer the lanes cover.
    pub view: ChunkStridedSliceRef<N>,
}

impl<'a, T, const N: usize> ChunkStridedSlice<'a, T, N> {
    /// The lanes lie inside the buffer.
    pub open spec fn wf(&self) -> bool {
        self.view.in_bounds(self.data@.len() as int)
    }

    /// Number of positions in each lane.
    pub fn len(&self) -> (r: usize)
        ensures
            r == self.view.length,
    {
        self.view.length
    }

    /// Element `index.1` of the row at position `index.0`.
    pub fn get(&self, index: (usize, usize)) -> (r: Option<&'a T>)
        requires
            self.wf(),
            index.0 < self.view.length,
            index.1 < N,
        ensures
            r == Some(&self.data@[self.view.index_of(index.0 as int, index.1 as int)]),
    {
        self.view.get(self.data, index)
    }

    /// Iterate over the rows (positions) of the lanes, front to back.
    pub fn iter(&self) -> (r: ChunkStridedSliceIter<'a, T, N>)
        requires
            self.wf(),
        ensures
            r.wf(),
            r.data@ == self.data@,
            r.view == self.view,
            r.front == 0,
            r.back == self.view.length,
    {
        ChunkStridedSliceIter { data: self.data, view: self.view, front: 0, back: self.view.length }
    }
}

/// Iteration over the `N` elements of one row of a chunk of lanes.
pub struct AlongChunkIter<'a, T, const N: usize> {
    /// The underlying buffer.
    pub data: &'a [T],
    /// The lanes the row belongs to.
    pub view: ChunkStridedSliceRef<N>,
    /// Position of the row.
    pub row: usize,
    /// Lane of the next element.
    pub ind: usize,
}

impl<'a, T, const N: usize> AlongChunkIter<'a, T, N> {
    /// The row is a position of the lanes and the lanes lie inside the buffer.
    pub open spec fn wf(&self) -> bool {
        &&& self.row < self.view.length
        &&& self.ind <= N
        &&& self.view.in_bounds(self.data@.len() as int)
    }

    /// Take the element of the next lane.
    pub fn next(&mut self) -> (r: Option<&'a T>)
        requires
            old(self).wf(),
        ensures
            final(self).wf(),
            final(self).data@ == old(self).data@,
            final(self).view == old(self).view,
            final(self).row == old(self).row,
            old(self).ind == N ==> r is None && final(self).ind == N,
            old(self).ind < N ==> r == Some(
                &old(self).data@[old(self).view.index_of(old(self).row as int, old(self).ind as int)],
            ) && final(self).ind == old(self).ind + 1,
    {
        if self.ind == N {
            return None;
        }
        let r = self.view.get(self.data, (self.row, self.ind));
        self.ind += 1;
        r
    }

    /// Number of elements left in the row.
    pub fn len(&self) -> (r: usize)
        requires
            self.wf(),
        ensures
            r == N - self.ind,
    {
        N - self.ind
    }
}

/// Double-ended iteration over the rows `front..back` of a chunk of lanes.
pub struct ChunkStridedSliceIter<'a, T, const N: usize> {
    /// The underlying buffer.
    pub data: &'a [T],
    /// The lanes being iterated.
    pub view: ChunkStridedSliceRef<N>,
    /// Position of the next row taken from the front.
    pub front: usize,
    /// One past the position of the next row taken from the back.
    pub back: usize,
}

impl<'a, T, const N: usize> ChunkStridedSliceIter<'a, T, N> {
    /// The range is inside the lanes and the lanes inside the buffer.
    pub open spec fn wf(&self) -> bool {
        &&& self.front <= self.back <= self.view.length
        &&& self.view.in_bounds(self.data@.len() as int)
    }

    /// Take the next row from the front.
    pub fn next(&mut self) -> (r: Option<AlongChunkIter<'a, T, N>>)
        requires
            old(self).wf(),
        ensures
            final(self).wf(),
            final(self).data@ == old(self).data@,
            final(self).view == old(self).view,
            final(self).back == old(self).back,
            old(self).front == old(self).back ==> r is None && final(self).front == old(self).front,
            old(self).front < old(self).back ==> (r matches Some(it) && it.wf() && it.data@
                == old(self).data@ && it.view == old(self).view && it.row == old(self).front
                && it.ind == 0) && final(self).front == old(self).front + 1,
    {
        if self.front == self.back {
            return None;
        }
        let it = AlongChunkIter { data: self.data, view: self.view, row: self.front, ind: 0 };
        self.front += 1;
        Some(it)
    }

    /// Take the next row from the back.
    pub fn next_back(&mut self) -> (r: Option<AlongChunkIter<'a, T, N>>)
        requires
            old(self).wf(),
        ensures
            final(self).wf(),
            final(self).data@ == old(self).data@,
            final(self).view == old(self).view,
            final(self).front == old(self).front,
            old(self).front == old(self).back ==> r is None && final(self).back == old(self).back,
            old(self).front < old(self).back ==> (r matches Some(it) && it.wf() && it.data@
                == old(self).data@ && it.view == old(self).view && it.row == old(self).back - 1
                && it.ind == 0) && final(self).back == old(self).back - 1,
    {
        if self.front == self.back {
            return None;
        }
        self.back -= 1;
        Some(AlongChunkIter { data: self.data, view: self.view, row: self.back, ind: 0 })
    }

    /// Number of rows left.
    pub fn len(&self) -> (r: usize)
        requires
            self.wf(),
        ensures
            r == self.back - self.front,
    {
        self.back - self.front
    }
}

// ---------------------------------------------------------------------------------------
// Lane iterators
// ---------------------------------------------------------------------------------------
/// Every lane of a row-major array of shape `shape` along `axis` lies inside a buffer that
/// holds the array, and different lanes never share an element.
pub proof fn lemma_lane_in_bounds(shape: Seq<usize>, axis: int, k: int)
    requires
        lanes_ok(shape, axis),
        0 <= k < shape_prod(shape.remove(axis)),
    ensures
        lane_of(lane_layout(shape, axis), k).in_bounds(shape_prod(shape)),
        lane_of(lane_layout(shape, axis), k).distinct(),
        lane_of(lane_layout(shape, axis), k).length == shape[axis],
{
    lemma_lanes_partition(shape, axis);
    let v = lane_of(lane_layout(shape, axis), k);
    if v.length > 0 {
        assert(0 <= v.index_of(v.length - 1) < shape_prod(shape));
    }
    let sr = shape.remove(axis);
    let tail = shape.subrange(axis + 1, shape.len() as int);
    assert(all_positive(tail)) by {
        assert forall|j: int| 0 <= j < tail.len() implies tail[j] > 0 by {
            assert(tail[j] == sr[axis + j]);
        }
    }
    lemma_prod_pos(tail);
    assert(suffix_prods_fit(shape));
    assert(shape_prod(tail) <= usize::MAX);
}

/// Whether every suffix product of `shape` is a `usize`.
fn suffix_prods_fit_exec(shape: &[usize]) -> (r: bool)
    ensures
        r == suffix_prods_fit(shape@),
{
    let n = shape.len();
    let mut acc: usize = 1;
    let mut k: usize = n;
    proof {
        assert(shape@.subrange(n as int, n as int) =~= Seq::<usize>::empty());
    }
    while k > 0
        invariant
            k <= n,
            n == shape@.len(),
            acc == shape_prod(shape@.subrange(k as int, n as int)),
            forall|j: int| k <= j <= n ==> #[trigger] shape_prod(shape@.subrange(j, n as int)) <= usize::MAX,
        decreases k,
    {
        proof {
            crate::utils::lemma_suffix_prod_step(shape@, k - 1);
        }
        match shape[k - 1].checked_mul(acc) {
            Some(v) => {
                acc = v;
            },
            None => {
                return false;
            },
        }
        k -= 1;
    }
    true
}

/// Whether every prefix product of `shape` is a `usize`.
fn prefix_prods_fit_exec(shape: &[usize]) -> (r: bool)
    ensures
        r == prefix_prods_fit(shape@),
{
    let n = shape.len();
    let mut acc: usize = 1;
    let mut k: usize = 0;
    proof {
        assert(shape@.subrange(0, 0) =~= Seq::<usize>::empty());
    }
    while k < n
        invariant
            k <= n,
            n == shape@.len(),
            acc == shape_prod(shape@.subrange(0, k as int)),
            forall|j: int| 0 <= j <= k ==> #[trigger] shape_prod(shape@.subrange(0, j)) <= usize::MAX,
        decreases n - k,
    {
        proof {
            let t = shape@.subrange(0, k + 1);
            lemma_prod_back(t);
            assert(t.drop_last() =~= shape@.subrange(0, k as int));
        }
        match acc.checked_mul(shape[k]) {
            Some(v) => {
                acc = v;
            },
            None => {
                return false;
            },
        }
        k += 1;
    }
    true
}

/// Whether the lane iterators accept an array of shape `shape` with lanes along `axis`
/// (see [`lanes_ok`]).
pub fn lanes_ok_exec(shape: &[usize], axis: usize) -> (r: bool)
    ensures
        r == lanes_ok(shape@, axis as int),
{
    if axis >= shape.len() {
        return false;
    }
    let mut sr: Vec<usize> = Vec::new();
    let mut k: usize = 0;
    while k < shape.len()
        invariant
            k <= shape@.len(),
            axis < shape@.len(),
            sr@ == remove_value_at_prefix(shape@.subrange(0, k as int), axis as int),
        decreases shape@.len() - k,
    {
        if k != axis {
            sr.push(shape[k]);
        }
        proof {
            assert(sr@ =~= remove_value_at_prefix(shape@.subrange(0, k as int + 1), axis as int));
        }
        k += 1;
    }
    proof {
        assert(shape@.subrange(0, shape@.len() as int) =~= shape@);
        assert(sr@ =~= shape@.remove(axis as int));
    }
    let mut all_pos = true;
    let mut j: usize = 0;
    while j < sr.len()
        invariant
            j <= sr@.len(),
            all_pos == (forall|i: int| 0 <= i < j ==> sr@[i] > 0),
        decreases sr@.len() - j,
    {
        if sr[j] == 0 {
            all_pos = false;
        }
        j += 1;
    }
    all_pos && suffix_prods_fit_exec(shape) && prefix_prods_fit_exec(shape)
        && prefix_prods_fit_exec(sr.as_slice())
}

/// Number of lanes along `axis`: the product of the other lengths.
pub fn lane_count(shape: &[usize], axis: usize) -> (r: usize)
    requires
        lanes_ok(shape@, axis as int),
    ensures
        r == shape_prod(shape@.remove(axis as int)),
{
    let ghost sr = shape@.remove(axis as int);
    let mut acc: usize = 1;
    let mut k: usize = 0;
    proof {
        assert(sr.subrange(0, 0) =~= Seq::<usize>::empty());
    }
    while k < shape.len()
        invariant
            k <= shape@.len(),
            axis < shape@.len(),
            sr == shape@.remove(axis as int),
            prefix_prods_fit(sr),
            acc == shape_prod(sr.subrange(0, if k <= axis { k as int } else { k - 1 })),
        decreases shape@.len() - k,
    {
        if k != axis {
            let ghost j: int = if k < axis { k as int } else { k - 1 };
            proof {
                let t = sr.subrange(0, j + 1);
                lemma_prod_back(t);
                assert(t.drop_last() =~= sr.subrange(0, j));
                assert(t.last() == shape@[k as int]);
                assert(shape_prod(t) <= usize::MAX);
            }
            acc = acc * shape[k];
        }
        k += 1;
    }
    proof {
        assert(sr.subrange(0, sr.len() as int) =~= sr);
    }
    acc
}

/// Lanes along `axis` of the leading region of shape `sub` of a row-major array of shape
/// `shape`: the region's own lane grid, at the strides of the whole array.
pub open spec fn sub_lane_layout(shape: Seq<usize>, sub: Seq<usize>, axis: int) -> LaneLayout {
    LaneLayout {
        shape: sub.remove(axis),
        stride: row_strides(shape).remove(axis),
        lane_length: sub[axis] as int,
        lane_stride: row_strides(shape)[axis],
    }
}

/// Requirements on a leading region `sub` of an array of shape `shape` with lanes along
/// `axis`: the whole array has valid lanes, the region lies inside it and its other lengths
/// are positive.
pub open spec fn sub_lanes_ok(shape: Seq<usize>, sub: Seq<usize>, axis: int) -> bool {
    &&& lanes_ok(shape, axis)
    &&& sub.len() == shape.len()
    &&& forall|k: int| 0 <= k < sub.len() ==> #[trigger] sub[k] <= shape[k]
    &&& all_positive(sub.remove(axis))
}

/// The lanes of a region fit the lane bounds of the whole array: their starts are `usize`
/// offsets, every element lies inside the array and the lane stride is positive.
pub proof fn lemma_sub_lane_in_bounds(shape: Seq<usize>, sub: Seq<usize>, axis: int, k: int)
    requires
        sub_lanes_ok(shape, sub, axis),
        0 <= k < shape_prod(sub.remove(axis)),
    ensures
        lane_of(sub_lane_layout(shape, sub, axis), k).in_bounds(shape_prod(shape)),
        lane_of(sub_lane_layout(shape, sub, axis), k).stride > 0,
        lane_of(sub_lane_layout(shape, sub, axis), k).length == sub[axis],
        lane_of(sub_lane_layout(shape, sub, axis), k).start == dot(
            unravel_spec(k, sub.remove(axis)),
            row_strides(shape).remove(axis),
        ),
        0 < row_strides(shape)[axis] <= usize::MAX,
        0 < shape_prod(sub.remove(axis)),
{
    let sr = shape.remove(axis);
    let br = sub.remove(axis);
    let rs = row_strides(shape);
    lemma_unravel_shape(k, br);
    let p = unravel_spec(k, br);
    assert(in_shape(p, sr)) by {
        assert forall|j: int| 0 <= j < sr.len() implies #[trigger] p[j] < sr[j] by {
            if j < axis {
                assert(br[j] == sub[j] && sr[j] == shape[j]);
            } else {
                assert(br[j] == sub[j + 1] && sr[j] == shape[j + 1]);
            }
        }
    }
    assert(shape_prod(sr) <= usize::MAX) by {
        assert(sr.subrange(0, sr.len() as int) =~= sr);
    }
    assert(shape_prod(shape) <= usize::MAX) by {
        assert(shape.subrange(0, shape.len() as int) =~= shape);
    }
    lemma_lane_bounds(shape, axis);
    let tail = shape.subrange(axis + 1, shape.len() as int);
    assert(all_positive(tail)) by {
        assert forall|j: int| 0 <= j < tail.len() implies tail[j] > 0 by {
            assert(tail[j] == sr[axis + j]);
        }
    }
    lemma_prod_pos(tail);
    assert(rs[axis] > 0);
    assert(rs[axis] <= usize::MAX) by {
        assert(shape_prod(tail) <= usize::MAX);
    }
    let v = lane_of(sub_lane_layout(shape, sub, axis), k);
    assert(dot(p, rs.remove(axis)) <= usize::MAX);
    lemma_rs_nonneg(shape);
    assert(nonneg(rs.remove(axis)));
    lemma_dot_nonneg(p, rs.remove(axis));
    if sub[axis] > 0 {
        let d = dot(p, rs.remove(axis));
        assert(v.start == d);
        assert(v.stride == rs[axis]);
        assert(d + (shape[axis] - 1) * rs[axis] < shape_prod(shape));
        assert((sub[axis] - 1) * rs[axis] <= (shape[axis] - 1) * rs[axis]) by (nonlinear_arith)
            requires
                0 < sub[axis] <= shape[axis],
                rs[axis] > 0,
        ;
    }
}

/// Different elements of the lanes of a region are different buffer entries, and they
/// all lie inside the array.
pub proof fn lemma_sub_lanes_disjoint(shape: Seq<usize>, sub: Seq<usize>, axis: int)
    requires
        sub_lanes_ok(shape, sub, axis),
    ensures
        forall|k1: int, i1: int, k2: int, i2: int|
            0 <= k1 < shape_prod(sub.remove(axis)) && 0 <= i1 < sub[axis] && 0 <= k2
                < shape_prod(sub.remove(axis)) && 0 <= i2 < sub[axis]
                && #[trigger] lane_of(sub_lane_layout(shape, sub, axis), k1).index_of(i1)
                == #[trigger] lane_of(sub_lane_layout(shape, sub, axis), k2).index_of(i2) ==> k1
                == k2 && i1 == i2,
        forall|k: int, i: int|
            0 <= k < shape_prod(sub.remove(axis)) && 0 <= i < sub[axis] ==> 0
                <= #[trigger] lane_of(sub_lane_layout(shape, sub, axis), k).index_of(i)
                < shape_prod(shape),
{
    let br = sub.remove(axis);
    let sr = shape.remove(axis);
    let rs = row_strides(shape);
    let l = sub_lane_layout(shape, sub, axis);
    assert(shape_prod(sr) <= usize::MAX) by {
        assert(sr.subrange(0, sr.len() as int) =~= sr);
    }
    assert(shape_prod(shape) <= usize::MAX) by {
        assert(shape.subrange(0, shape.len() as int) =~= shape);
    }
    lemma_lane_bounds(shape, axis);
    lemma_rs_nonneg(shape);
    assert(nonneg(rs.remove(axis)));
    assert forall|k: int, i: int| 0 <= k < shape_prod(br) && 0 <= i < sub[axis] implies {
        let q = #[trigger] unravel_spec(k, br).insert(axis, i as usize);
        &&& in_shape(q, shape)
        &&& lane_of(l, k).index_of(i) == dot(q, rs)
        &&& q.remove(axis) == unravel_spec(k, br)
        &&& q[axis] == i
    } by {
        let u = unravel_spec(k, br);
        lemma_unravel_shape(k, br);
        let q = u.insert(axis, i as usize);
        assert forall|j: int| 0 <= j < shape.len() implies q[j] < shape[j] by {
            if j < axis {
                assert(q[j] == u[j] && br[j] == sub[j]);
            } else if j > axis {
                assert(q[j] == u[j - 1] && br[j - 1] == sub[j]);
            }
        }
        assert(in_shape(u, sr)) by {
            assert forall|j: int| 0 <= j < sr.len() implies #[trigger] u[j] < sr[j] by {
                if j < axis {
                    assert(br[j] == sub[j] && sr[j] == shape[j]);
                } else {
                    assert(br[j] == sub[j + 1] && sr[j] == shape[j + 1]);
                }
            }
        }
        lemma_dot_nonneg(u, rs.remove(axis));
        lemma_dot_insert(u, rs, axis, i as usize);
        assert(rs[axis] <= usize::MAX) by {
            assert(suffix_prods_fit(shape));
            assert(shape_prod(shape.subrange(axis + 1, shape.len() as int)) <= usize::MAX);
        }
        assert(dot(u, rs.remove(axis)) <= usize::MAX);
        assert(q.remove(axis) =~= u);
    }
    assert forall|k: int, i: int| 0 <= k < shape_prod(br) && 0 <= i < sub[axis] implies 0
        <= #[trigger] lane_of(l, k).index_of(i) < shape_prod(shape) by {
        lemma_flat_bound(unravel_spec(k, br).insert(axis, i as usize), shape);
    }
    assert forall|k1: int, i1: int, k2: int, i2: int|
        0 <= k1 < shape_prod(br) && 0 <= i1 < sub[axis] && 0 <= k2 < shape_prod(br) && 0 <= i2
            < sub[axis] && #[trigger] lane_of(l, k1).index_of(i1) == #[trigger] lane_of(
            l,
            k2,
        ).index_of(i2) implies k1 == k2 && i1 == i2 by {
        let q1 = unravel_spec(k1, br).insert(axis, i1 as usize);
        let q2 = unravel_spec(k2, br).insert(axis, i2 as usize);
        lemma_dot_injective(q1, q2, shape);
        lemma_dot_unravel(k1, br);
        lemma_dot_unravel(k2, br);
    }
}

/// A valid region has at least one lane.
pub proof fn lemma_sub_lanes_nonempty(shape: Seq<usize>, sub: Seq<usize>, axis: int)
    requires
        sub_lanes_ok(shape, sub, axis),
    ensures
        shape_prod(sub.remove(axis)) > 0,
{
    lemma_prod_pos(sub.remove(axis));
}

/// A region that is the whole array has every entry of the array in one of its lanes.
pub proof fn lemma_sub_lanes_cover(shape: Seq<usize>, axis: int, p: int)
    requires
        lanes_ok(shape, axis),
        0 <= p < shape_prod(shape),
    ensures
        exists|k: int, i: int|
            0 <= k < shape_prod(shape.remove(axis)) && 0 <= i < shape[axis]
                && #[trigger] lane_of(sub_lane_layout(shape, shape, axis), k).index_of(i) == p,
{
    lemma_lanes_partition(shape, axis);
    assert(in_some_lane(shape, axis, p));
    assert(sub_lane_layout(shape, shape, axis) == lane_layout(shape, axis));
}

/// Element `i` of lane `k` of a region is the array entry whose multi-index is the
/// multi-index of lane `k` among the other axes of the region with `i` inserted at the lane
/// axis; that multi-index lies inside the region.
pub proof fn lemma_sub_lane_element(shape: Seq<usize>, sub: Seq<usize>, axis: int, k: int, i: int)
    requires
        sub_lanes_ok(shape, sub, axis),
        0 <= k < shape_prod(sub.remove(axis)),
        0 <= i < sub[axis],
    ensures
        in_shape(unravel_spec(k, sub.remove(axis)).insert(axis, i as usize), sub),
        lane_of(sub_lane_layout(shape, sub, axis), k).index_of(i) == dot(
            unravel_spec(k, sub.remove(axis)).insert(axis, i as usize),
            row_strides(shape),
        ),
{
    let br = sub.remove(axis);
    let sr = shape.remove(axis);
    let rs = row_strides(shape);
    assert(shape_prod(sr) <= usize::MAX) by {
        assert(sr.subrange(0, sr.len() as int) =~= sr);
    }
    assert(shape_prod(shape) <= usize::MAX) by {
        assert(shape.subrange(0, shape.len() as int) =~= shape);
    }
    lemma_lane_bounds(shape, axis);
    lemma_rs_nonneg(shape);
    assert(nonneg(rs.remove(axis)));
    let u = unravel_spec(k, br);
    lemma_unravel_shape(k, br);
    let q = u.insert(axis, i as usize);
    assert forall|j: int| 0 <= j < sub.len() implies q[j] < sub[j] by {
        if j < axis {
            assert(q[j] == u[j] && br[j] == sub[j]);
        } else if j > axis {
            assert(q[j] == u[j - 1] && br[j - 1] == sub[j]);
        }
    }
    assert(in_shape(u, sr)) by {
        assert forall|j: int| 0 <= j < sr.len() implies #[trigger] u[j] < sr[j] by {
            if j < axis {
                assert(br[j] == sub[j] && sr[j] == shape[j]);
            } else {
                assert(br[j] == sub[j + 1] && sr[j] == shape[j + 1]);
            }
        }
    }
    lemma_dot_nonneg(u, rs.remove(axis));
    lemma_dot_insert(u, rs, axis, i as usize);
    assert(rs[axis] <= usize::MAX) by {
        assert(suffix_prods_fit(shape));
        assert(shape_prod(shape.subrange(axis + 1, shape.len() as int)) <= usize::MAX);
    }
    assert(dot(u, rs.remove(axis)) <= usize::MAX);
}

/// Every multi-index of a region with positive lengths off `axis` is element `q[axis]` of
/// the lane whose index is the row-major flat index of its other entries.
pub proof fn lemma_region_lane(sub: Seq<usize>, axis: int, q: Seq<usize>)
    requires
        0 <= axis < sub.len(),
        in_shape(q, sub),
    ensures
        0 <= dot(q.remove(axis), row_strides(sub.remove(axis))) < shape_prod(sub.remove(axis)),
        unravel_spec(dot(q.remove(axis), row_strides(sub.remove(axis))), sub.remove(axis)).insert(
            axis,
            q[axis],
        ) == q,
{
    let br = sub.remove(axis);
    let u = q.remove(axis);
    assert(in_shape(u, br)) by {
        assert forall|j: int| 0 <= j < br.len() implies u[j] < br[j] by {
            if j < axis {
                assert(u[j] == q[j] && br[j] == sub[j]);
            } else {
                assert(u[j] == q[j + 1] && br[j] == sub[j + 1]);
            }
        }
    }
    lemma_unravel_dot(u, br);
    lemma_flat_bound(u, br);
    assert(u.insert(axis, q[axis]) =~= q);
}

/// The multi-index of a flat index of a non-empty array lies inside its shape and has that
/// flat index.
pub proof fn lemma_flat_multi(p: int, s: Seq<usize>)
    requires
        0 <= p < shape_prod(s),
    ensures
        in_shape(unravel_spec(p, s), s),
        dot(unravel_spec(p, s), row_strides(s)) == p,
{
    assert forall|j: int| 0 <= j < s.len() implies s[j] > 0 by {
        lemma_prod_remove(s, j);
        if s[j] == 0 {
            assert(shape_prod(s.remove(j)) * s[j] == 0) by (nonlinear_arith)
                requires
                    s[j] == 0,
            ;
        }
    }
    lemma_unravel_shape(p, s);
    lemma_dot_unravel(p, s);
}

/// Whether a region `sub` of an array of shape `shape` has valid lanes along `axis`
/// (see [`sub_lanes_ok`]).
pub fn sub_lanes_ok_exec(shape: &[usize], sub: &[usize], axis: usize) -> (r: bool)
    ensures
        r == sub_lanes_ok(shape@, sub@, axis as int),
{
    if !lanes_ok_exec(shape, axis) || sub.len() != shape.len() {
        return false;
    }
    let mut k: usize = 0;
    while k < sub.len()
        invariant
            k <= sub@.len(),
            sub@.len() == shape@.len(),
            axis < sub@.len(),
            forall|j: int| 0 <= j < k ==> #[trigger] sub@[j] <= shape@[j],
            forall|j: int| 0 <= j < k && j != axis ==> #[trigger] sub@[j] > 0,
        decreases sub@.len() - k,
    {
        if sub[k] > shape[k] || (k != axis && sub[k] == 0) {
            proof {
                if sub@[k as int] == 0 && k != axis {
                    let j: int = if k < axis { k as int } else { k - 1 };
                    assert(sub@.remove(axis as int)[j] == sub@[k as int]);
                }
            }
            return false;
        }
        k += 1;
    }
    proof {
        let br = sub@.remove(axis as int);
        assert forall|j: int| 0 <= j < br.len() implies #[trigger] br[j] > 0 by {
            if j < axis {
                assert(br[j] == sub@[j]);
            } else {
                assert(br[j] == sub@[j + 1]);
            }
        }
    }
    true
}

/// Number of lanes of a region along `axis`: the product of its other lengths.
pub fn sub_lane_count(shape: &[usize], sub: &[usize], axis: usize) -> (r: usize)
    requires
        sub_lanes_ok(shape@, sub@, axis as int),
    ensures
        r == shape_prod(sub@.remove(axis as int)),
{
    let ghost sr = shape@.remove(axis as int);
    let ghost br = sub@.remove(axis as int);
    let mut acc: usize = 1;
    let mut k: usize = 0;
    proof {
        assert(br.subrange(0, 0) =~= Seq::<usize>::empty());
        assert forall|j: int| 0 <= j <= br.len() implies #[trigger] shape_prod(br.subrange(0, j))
            <= usize::MAX by {
            let b = br.subrange(0, j);
            let c = sr.subrange(0, j);
            assert forall|i: int| 0 <= i < b.len() implies #[trigger] b[i] <= c[i] by {
                if i < axis {
                    assert(b[i] == sub@[i] && c[i] == shape@[i]);
                } else {
                    assert(b[i] == sub@[i + 1] && c[i] == shape@[i + 1]);
                }
            }
            lemma_prod_mono(b, c);
        }
    }
    while k < sub.len()
        invariant
            k <= sub@.len(),
            sub@.len() == shape@.len(),
            axis < sub@.len(),
            br == sub@.remove(axis as int),
            forall|j: int| 0 <= j <= br.len() ==> #[trigger] shape_prod(br.subrange(0, j))
                <= usize::MAX,
            acc == shape_prod(br.subrange(0, if k <= axis { k as int } else { k - 1 })),
        decreases sub@.len() - k,
    {
        if k != axis {
            let ghost j: int = if k < axis { k as int } else { k - 1 };
            proof {
                let t = br.subrange(0, j + 1);
                lemma_prod_back(t);
                assert(t.drop_last() =~= br.subrange(0, j));
                assert(t.last() == sub@[k as int]);
                assert(shape_prod(t) <= usize::MAX);
            }
            acc = acc * sub[k];
        }
        k += 1;
    }
    proof {
        assert(br.subrange(0, br.len() as int) =~= br);
    }
    acc
}

/// Iteration over the lanes of a row-major array held in a borrowed buffer.
pub struct LaneSliceIter<'a, T> {
    data: &'a [T],
    cursor: LaneCursor,
    shape: Ghost<Seq<usize>>,
    axis: Ghost<int>,
}

impl<'a, T> LaneSliceIter<'a, T> {
    /// The buffer.
    pub closed spec fn data(&self) -> Seq<T> {
        self.data@
    }

    /// Shape of the array.
    pub closed spec fn shape(&self) -> Seq<usize> {
        self.shape@
    }

    /// Axis of the lanes.
    pub closed spec fn axis(&self) -> int {
        self.axis@
    }

    /// Index of the next lane taken from the front.
    pub closed spec fn lo(&self) -> int {
        self.cursor.lo()
    }

    /// One past the index of the next lane taken from the back.
    pub closed spec fn hi(&self) -> int {
        self.cursor.hi()
    }

    /// Internal consistency of the iterator.
    pub closed spec fn wf(&self) -> bool {
        &&& self.cursor.wf()
        &&& lanes_ok(self.shape@, self.axis@)
        &&& self.cursor.layout() == lane_layout(self.shape@, self.axis@)
        &&& self.data@.len() == shape_prod(self.shape@)
    }

    /// The lanes `lo..hi` along `axis` of the array of shape `shape` held in `arr`.
    fn range(arr: &'a [T], shape: &[usize], axis: usize, lo: usize, hi: usize) -> (r: Self)
        requires
            lanes_ok(shape@, axis as int),
            arr@.len() == shape_prod(shape@),
            lo <= hi <= shape_prod(shape@.remove(axis as int)),
        ensures
            r.wf(),
            r.data() == arr@,
            r.shape() == shape@,
            r.axis() == axis,
            r.lo() == lo,
            r.hi() == hi,
    {
        let cursor = LaneCursor::new_range(shape, axis, lo, hi);
        LaneSliceIter { data: arr, cursor, shape: Ghost(shape@), axis: Ghost(axis as int) }
    }

    /// Iterate over all lanes along `axis` of the row-major array of shape `shape` held in
    /// `arr`, in row-major order of the other indices.
    pub fn from_slice(arr: &'a [T], shape: &[usize], axis: usize) -> (r: Self)
        requires
            arr@.len() == shape_prod(shape@),
            lanes_ok(shape@, axis as int),
        ensures
            r.wf(),
            r.data() == arr@,
            r.shape() == shape@,
            r.axis() == axis,
            r.lo() == 0,
            r.hi() == shape_prod(shape@.remove(axis as int)),
    {
        let n_lanes = lane_count(shape, axis);
        Self::range(arr, shape, axis, 0, n_lanes)
    }

    /// Take the next lane from the front.
    pub fn next(&mut self) -> (r: Option<StridedSlice<'a, T>>)
        requires
            old(self).wf(),
        ensures
            final(self).wf(),
            final(self).data() == old(self).data(),
            final(self).shape() == old(self).shape(),
            final(self).axis() == old(self).axis(),
            final(self).hi() == old(self).hi(),
            old(self).lo() == old(self).hi() ==> r is None && final(self).lo() == old(self).lo(),
            old(self).lo() < old(self).hi() ==> (r matches Some(lane) && lane.wf() && lane.data@
                == old(self).data() && lane.view == lane_of(
                lane_layout(old(self).shape(), old(self).axis()),
                old(self).lo(),
            )) && final(self).lo() == old(self).lo() + 1,
    {
        proof {
            if self.cursor.lo() < self.cursor.hi() {
                lemma_lane_in_bounds(self.shape@, self.axis@, self.cursor.lo());
            }
        }
        match self.cursor.next() {
            Some(view) => Some(StridedSlice { data: self.data, view }),
            None => None,
        }
    }

    /// Take the next lane from the back.
    pub fn next_back(&mut self) -> (r: Option<StridedSlice<'a, T>>)
        requires
            old(self).wf(),
        ensures
            final(self).wf(),
            final(self).data() == old(self).data(),
            final(self).shape() == old(self).shape(),
            final(self).axis() == old(self).axis(),
            final(self).lo() == old(self).lo(),
            old(self).lo() == old(self).hi() ==> r is None && final(self).hi() == old(self).hi(),
            old(self).lo() < old(self).hi() ==> (r matches Some(lane) && lane.wf() && lane.data@
                == old(self).data() && lane.view == lane_of(
                lane_layout(old(self).shape(), old(self).axis()),
                old(self).hi() - 1,
            )) && final(self).hi() == old(self).hi() - 1,
    {
        proof {
            if self.cursor.lo() < self.cursor.hi() {
                lemma_lane_in_bounds(self.shape@, self.axis@, self.cursor.hi() - 1);
            }
        }
        match self.cursor.next_back() {
            Some(view) => Some(StridedSlice { data: self.data, view }),
            None => None,
        }
    }

    /// Number of lanes left.
    pub fn len(&self) -> (r: usize)
        requires
            self.wf(),
        ensures
            r == self.hi() - self.lo(),
    {
        self.cursor.len()
    }
}

/// `v` holds the `N` lanes `first, first + 1, ...` (`forward`) or `first, first - 1, ...`
/// (not `forward`) of the layout `l`, measured from buffer index 0.
pub open spec fn is_lane_chunk<const N: usize>(
    v: ChunkStridedSliceRef<N>,
    l: LaneLayout,
    first: int,
    forward: bool,
) -> bool {
    &&& v.start == 0
    &&& v.length == l.lane_length
    &&& v.stride == l.lane_stride
    &&& forall|j: int|
        0 <= j < N ==> #[trigger] v.offsets@[j] == lane_of(
            l,
            if forward {
                first + j
            } else {
                first - j
            },
        ).start
}

/// A chunk of distinct lanes of an array lies inside the array and never uses one buffer
/// entry twice.
proof fn lemma_lane_chunk_ok<const N: usize>(
    shape: Seq<usize>,
    axis: int,
    v: ChunkStridedSliceRef<N>,
    first: int,
    forward: bool,
)
    requires
        lanes_ok(shape, axis),
        is_lane_chunk(v, lane_layout(shape, axis), first, forward),
        forward ==> 0 <= first && first + N <= shape_prod(shape.remove(axis)),
        !forward ==> first < shape_prod(shape.remove(axis)) && first - N + 1 >= 0,
    ensures
        v.in_bounds(shape_prod(shape)),
        v.distinct(),
{
    let l = lane_layout(shape, axis);
    lemma_lanes_partition(shape, axis);
    assert forall|i: int, j: int| 0 <= i < v.length && 0 <= j < N implies #[trigger] v.index_of(
        i,
        j,
    ) < shape_prod(shape) by {
        let k = if forward {
            first + j
        } else {
            first - j
        };
        assert(v.offsets@[j] == lane_of(l, k).start);
        assert(v.index_of(i, j) == lane_of(l, k).index_of(i));
    }
    assert forall|i1: int, j1: int, i2: int, j2: int|
        0 <= i1 < v.length && 0 <= j1 < N && 0 <= i2 < v.length && 0 <= j2 < N && (i1 != i2 || j1
            != j2) implies #[trigger] v.index_of(i1, j1) != #[trigger] v.index_of(i2, j2) by {
        let k1 = if forward {
            first + j1
        } else {
            first - j1
        };
        let k2 = if forward {
            first + j2
        } else {
            first - j2
        };
        assert(v.offsets@[j1] == lane_of(l, k1).start);
        assert(v.offsets@[j2] == lane_of(l, k2).start);
        assert(v.index_of(i1, j1) == lane_of(l, k1).index_of(i1));
        assert(v.index_of(i2, j2) == lane_of(l, k2).index_of(i2));
    }
}

impl LaneCursor {
    /// Take the next `N` lanes from the front, as a chunk.
    fn next_chunk<const N: usize>(&mut self) -> (r: ChunkStridedSliceRef<N>)
        requires
            old(self).wf(),
            old(self).lo() + N <= old(self).hi(),
        ensures
            final(self).wf(),
            final(self).layout() == old(self).layout(),
            final(self).hi() == old(self).hi(),
            final(self).lo() == old(self).lo() + N,
            is_lane_chunk(r, old(self).layout(), old(self).lo(), true),
    {
        let ghost lo0 = self.lo();
        let mut offsets: [usize; N] = [0; N];
        let mut j: usize = 0;
        while j < N
            invariant
                j <= N,
                self.wf(),
                self.layout() == old(self).layout(),
                self.hi() == old(self).hi(),
                self.lo() == lo0 + j,
                lo0 == old(self).lo(),
                lo0 + N <= self.hi(),
                offsets@.len() == N,
                forall|k: int| 0 <= k < j ==> #[trigger] offsets@[k] == lane_of(self.layout(), lo0 + k).start,
            decreases N - j,
        {
            match self.next() {
                Some(v) => {
                    offsets[j] = v.start;
                },
                None => {},
            }
            j += 1;
        }
        ChunkStridedSliceRef {
            start: 0,
            offsets,
            length: self.arr_info.lane_length,
            stride: self.arr_info.lane_stride,
        }
    }

    /// Take the next `N` lanes from the back, last lane first.
    fn next_back_chunk<const N: usize>(&mut self) -> (r: ChunkStridedSliceRef<N>)
        requires
            old(self).wf(),
            old(self).lo() + N <= old(self).hi(),
        ensures
            final(self).wf(),
            final(self).layout() == old(self).layout(),
            final(self).lo() == old(self).lo(),
            final(self).hi() == old(self).hi() - N,
            is_lane_chunk(r, old(self).layout(), old(self).hi() - 1, false),
    {
        let ghost hi0 = self.hi();
        let mut offsets: [usize; N] = [0; N];
        let mut j: usize = 0;
        while j < N
            invariant
                j <= N,
                self.wf(),
                self.layout() == old(self).layout(),
                self.lo() == old(self).lo(),
                self.hi() == hi0 - j,
                hi0 == old(self).hi(),
                self.lo() + N <= hi0,
                offsets@.len() == N,
                forall|k: int| 0 <= k < j ==> #[trigger] offsets@[k] == lane_of(self.layout(), hi0 - 1 - k).start,
            decreases N - j,
        {
            match self.next_back() {
                Some(v) => {
                    offsets[j] = v.start;
                },
                None => {},
            }
            j += 1;
        }
        ChunkStridedSliceRef {
            start: 0,
            offsets,
            length: self.arr_info.lane_length,
            stride: self.arr_info.lane_stride,
        }
    }
}

/// Iteration over chunks of `N` consecutive lanes of a row-major array held in a borrowed
/// buffer.
pub struct LaneSliceChunkIter<'a, T, const N: usize> {
    data: &'a [T],
    cursor: LaneCursor,
    shape: Ghost<Seq<usize>>,
    axis: Ghost<int>,
}

impl<'a, T, const N: usize> LaneSliceChunkIter<'a, T, N> {
    /// The buffer.
    pub closed spec fn data(&self) -> Seq<T> {
        self.data@
    }

    /// Shape of the array.
    pub closed spec fn shape(&self) -> Seq<usize> {
        self.shape@
    }

    /// Axis of the lanes.
    pub closed spec fn axis(&self) -> int {
        self.axis@
    }

    /// Index of the first lane of the next chunk taken from the front.
    pub closed spec fn lo(&self) -> int {
        self.cursor.lo()
    }

    /// One past the index of the last lane of the next chunk taken from the back.
    pub closed spec fn hi(&self) -> int {
        self.cursor.hi()
    }

    /// Internal consistency of the iterator.
    pub closed spec fn wf(&self) -> bool {
        &&& self.cursor.wf()
        &&& N >= 1
        &&& (self.cursor.hi() - self.cursor.lo()) % (N as int) == 0
        &&& lanes_ok(self.shape@, self.axis@)
        &&& self.cursor.layout() == lane_layout(self.shape@, self.axis@)
        &&& self.data@.len() == shape_prod(self.shape@)
    }

    /// The chunks of lanes `lo..hi` along `axis`.
    fn range(arr: &'a [T], shape: &[usize], axis: usize, lo: usize, hi: usize) -> (r: Self)
        requires
            N >= 1,
            (hi - lo) % (N as int) == 0,
            lanes_ok(shape@, axis as int),
            arr@.len() == shape_prod(shape@),
            lo <= hi <= shape_prod(shape@.remove(axis as int)),
        ensures
            r.wf(),
            r.data() == arr@,
            r.shape() == shape@,
            r.axis() == axis,
            r.lo() == lo,
            r.hi() == hi,
    {
        let cursor = LaneCursor::new_range(shape, axis, lo, hi);
        LaneSliceChunkIter { data: arr, cursor, shape: Ghost(shape@), axis: Ghost(axis as int) }
    }

    /// Split the lanes along `axis` into chunks of `N` consecutive lanes and an iterator over
    /// the remaining `n_lanes % N` lanes.
    pub fn from_slice(arr: &'a [T], shape: &[usize], axis: usize) -> (r: (Self, LaneSliceIter<'a, T>))
        requires
            arr@.len() == shape_prod(shape@),
            lanes_ok(shape@, axis as int),
            N >= 1,
        ensures
            r.0.wf(),
            r.0.data() == arr@,
            r.0.shape() == shape@,
            r.0.axis() == axis,
            r.0.lo() == 0,
            r.0.hi() == shape_prod(shape@.remove(axis as int)) - shape_prod(shape@.remove(axis as int)) % (N as int),
            r.1.wf(),
            r.1.data() == arr@,
            r.1.shape() == shape@,
            r.1.axis() == axis,
            r.1.lo() == r.0.hi(),
            r.1.hi() == shape_prod(shape@.remove(axis as int)),
    {
        let n_lanes = lane_count(shape, axis);
        let n_rem = n_lanes % N;
        proof {
            lemma_divmod(n_lanes as int, N as int);
            let q = n_lanes as int / N as int;
            assert(q >= 0 && N * q >= 0) by (nonlinear_arith)
                requires
                    n_lanes == N * q + n_rem,
                    0 <= n_rem < N,
                    n_lanes >= 0,
            ;
        }
        let n_chunkable = n_lanes - n_rem;
        proof {
            let q = n_lanes as int / N as int;
            assert(N * q == q * N) by (nonlinear_arith);
            lemma_fundamental_div_mod_converse(n_chunkable as int, N as int, q, 0);
        }
        let chunks = Self::range(arr, shape, axis, 0, n_chunkable);
        let rest = LaneSliceIter::range(arr, shape, axis, n_chunkable, n_lanes);
        (chunks, rest)
    }

    /// Take the next chunk of `N` lanes from the front.
    pub fn next(&mut self) -> (r: Option<ChunkStridedSlice<'a, T, N>>)
        requires
            old(self).wf(),
        ensures
            final(self).wf(),
            final(self).data() == old(self).data(),
            final(self).shape() == old(self).shape(),
            final(self).axis() == old(self).axis(),
            final(self).hi() == old(self).hi(),
            old(self).lo() == old(self).hi() ==> r is None && final(self).lo() == old(self).lo(),
            old(self).lo() < old(self).hi() ==> (r matches Some(c) && c.wf() && c.view.distinct()
                && c.data@ == old(self).data() && is_lane_chunk(
                c.view,
                lane_layout(old(self).shape(), old(self).axis()),
                old(self).lo(),
                true,
            )) && final(self).lo() == old(self).lo() + N,
    {
        if self.cursor.len() == 0 {
            return None;
        }
        proof {
            lemma_chunk_room(self.cursor.lo(), self.cursor.hi(), N as int);
        }
        let view = self.cursor.next_chunk::<N>();
        proof {
            lemma_lane_chunk_ok(self.shape@, self.axis@, view, old(self).lo(), true);
            lemma_chunk_step(old(self).lo(), self.cursor.hi(), N as int);
        }
        Some(ChunkStridedSlice { data: self.data, view })
    }

    /// Take the next chunk of `N` lanes from the back (its first lane is the last lane left).
    pub fn next_back(&mut self) -> (r: Option<ChunkStridedSlice<'a, T, N>>)
        requires
            old(self).wf(),
        ensures
            final(self).wf(),
            final(self).data() == old(self).data(),
            final(self).shape() == old(self).shape(),
            final(self).axis() == old(self).axis(),
            final(self).lo() == old(self).lo(),
            old(self).lo() == old(self).hi() ==> r is None && final(self).hi() == old(self).hi(),
            old(self).lo() < old(self).hi() ==> (r matches Some(c) && c.wf() && c.view.distinct()
                && c.data@ == old(self).data() && is_lane_chunk(
                c.view,
                lane_layout(old(self).shape(), old(self).axis()),
                old(self).hi() - 1,
                false,
            )) && final(self).hi() == old(self).hi() - N,
    {
        if self.cursor.len() == 0 {
            return None;
        }
        proof {
            lemma_chunk_room(self.cursor.lo(), self.cursor.hi(), N as int);
        }
        let view = self.cursor.next_back_chunk::<N>();
        proof {
            lemma_lane_chunk_ok(self.shape@, self.axis@, view, old(self).hi() - 1, false);
            lemma_chunk_step(old(self).lo(), old(self).hi(), N as int);
        }
        Some(ChunkStridedSlice { data: self.data, view })
    }

    /// Number of chunks left.
    pub fn len(&self) -> (r: usize)
        requires
            self.wf(),
        ensures
            r == (self.hi() - self.lo()) / (N as int),
    {
        self.cursor.len() / N
    }
}

/// A positive multiple of `n` leaves room for `n` more.
proof fn lemma_chunk_room(lo: int, hi: int, n: int)
    requires
        n >= 1,
        lo < hi,
        (hi - lo) % n == 0,
    ensures
        lo + n <= hi,
{
    lemma_divmod(hi - lo, n);
    let q = (hi - lo) / n;
    assert(q >= 1) by (nonlinear_arith)
        requires
            hi - lo == n * q,
            hi - lo > 0,
            n >= 1,
    ;
    assert(n * q >= n) by (nonlinear_arith)
        requires
            q >= 1,
            n >= 1,
    ;
}

/// Taking `n` from a multiple of `n` leaves a multiple of `n`.
proof fn lemma_chunk_step(lo: int, hi: int, n: int)
    requires
        n >= 1,
        lo + n <= hi,
        (hi - lo) % n == 0,
    ensures
        (hi - (lo + n)) % n == 0,
        (hi - lo - n) % n == 0,
{
    lemma_divmod(hi - lo, n);
    let q = (hi - lo) / n;
    assert(hi - lo - n == n * (q - 1)) by (nonlinear_arith)
        requires
            hi - lo == n * q,
    ;
    lemma_fundamental_div_mod_converse(hi - lo - n, n, q - 1, 0);
}

// ---------------------------------------------------------------------------------------
// Mutable views and lane enumerations for writing
// ---------------------------------------------------------------------------------------
/// A strided view together with the buffer it writes to.
pub struct MutStridedSlice<'a, T> {
    /// The underlying buffer.
    pub data: &'a mut [T],
    /// Which elements of the buffer the view covers.
    pub view: StridedSliceRef,
}

impl<'a, T> MutStridedSlice<'a, T> {
    /// Number of elements in the view.
    pub fn len(&self) -> (r: usize)
        ensures
            r == self.view.length,
    {
        self.view.length
    }

    /// Iterate over the elements of the view, one mutable element at a time.
    pub fn iter_mut(&mut self) -> (r: MutStridedIter<'_, T>)
        ensures
            r.data@ == old(self).data@,
            r.view == old(self).view,
            r.front == 0,
            r.back == old(self).view.length,
            final(self).view == old(self).view,
            final(self).data@ == final(r.data)@,
    {
        MutStridedIter { data: &mut *self.data, view: self.view, front: 0, back: self.view.length }
    }

    /// Return a mutable reference to element `index`, or `None` if `index` is not below the
    /// length.
    pub fn get_mut(&mut self, index: usize) -> (r: Option<&mut T>)
        requires
            old(self).view.in_bounds(old(self).data@.len() as int),
        ensures
            final(self).view == old(self).view,
            index >= old(self).view.length ==> r is None && final(self).data@ == old(self).data@,
            index < old(self).view.length ==> (r matches Some(x) && *x == old(self).data@[old(self).view.index_of(index as int)]
                && final(self).data@ == old(self).data@.update(old(self).view.index_of(index as int), *final(x))),
    {
        if index >= self.view.length {
            return None;
        }
        proof {
            assert(self.data@.len() == self.data.len());
        }
        let p = self.view.position(Ghost(self.data@.len() as int), index);
        Some(&mut self.data[p])
    }

    /// Return a reference to element `index`, or `None` if `index` is not below the length.
    pub fn get(&self, index: usize) -> (r: Option<&T>)
        requires
            self.view.in_bounds(self.data@.len() as int),
        ensures
            index >= self.view.length ==> r is None,
            index < self.view.length ==> r == Some(&old(self.data)@[self.view.index_of(index as int)]),
    {
        self.view.get(&*self.data, index)
    }
}

/// Double-ended iteration over the elements `front..back` of a strided view, handing out
/// one mutable element at a time.
pub struct MutStridedIter<'a, T> {
    /// The underlying buffer.
    pub data: &'a mut [T],
    /// The view being iterated.
    pub view: StridedSliceRef,
    /// Index of the next element taken from the front.
    pub front: usize,
    /// One past the index of the next element taken from the back.
    pub back: usize,
}

impl<'a, T> MutStridedIter<'a, T> {
    /// Take the next element from the front.
    pub fn next(&mut self) -> (r: Option<&mut T>)
        requires
            old(self).front <= old(self).back <= old(self).view.length,
            old(self).view.in_bounds(old(self).data@.len() as int),
        ensures
            final(self).view == old(self).view,
            final(self).back == old(self).back,
            old(self).front == old(self).back ==> r is None && final(self).front == old(self).front
                && final(self).data@ == old(self).data@,
            old(self).front < old(self).back ==> (r matches Some(x) && *x == old(self).data@[old(
                self,
            ).view.index_of(old(self).front as int)] && final(self).data@ == old(self).data@.update(
                old(self).view.index_of(old(self).front as int),
                *final(x),
            )) && final(self).front == old(self).front + 1,
    {
        if self.front == self.back {
            return None;
        }
        proof {
            assert(self.data@.len() == self.data.len());
        }
        let p = self.view.position(Ghost(self.data@.len() as int), self.front);
        self.front += 1;
        Some(&mut self.data[p])
    }

    /// Take the next element from the back.
    pub fn next_back(&mut self) -> (r: Option<&mut T>)
        requires
            old(self).front <= old(self).back <= old(self).view.length,
            old(self).view.in_bounds(old(self).data@.len() as int),
        ensures
            final(self).view == old(self).view,
            final(self).front == old(self).front,
            old(self).front == old(self).back ==> r is None && final(self).back == old(self).back
                && final(self).data@ == old(self).data@,
            old(self).front < old(self).back ==> (r matches Some(x) && *x == old(self).data@[old(
                self,
            ).view.index_of(old(self).back - 1)] && final(self).data@ == old(self).data@.update(
                old(self).view.index_of(old(self).back - 1),
                *final(x),
            )) && final(self).back == old(self).back - 1,
    {
        if self.front == self.back {
            return None;
        }
        self.back -= 1;
        proof {
            assert(self.data@.len() == self.data.len());
        }
        let p = self.view.position(Ghost(self.data@.len() as int), self.back);
        Some(&mut self.data[p])
    }

    /// Number of elements left.
    pub fn len(&self) -> (r: usize)
        requires
            self.front <= self.back,
        ensures
            r == self.back - self.front,
    {
        self.back - self.front
    }
}

/// `N` lanes advancing together, with the buffer they write to.
pub struct MutChunkStridedSlice<'a, T, const N: usize> {
    /// The underlying buffer.
    pub data: &'a mut [T],
    /// Which elements of the buffer the lanes cover.
    pub view: ChunkStridedSliceRef<N>,
}

impl<'a, T, const N: usize> MutChunkStridedSlice<'a, T, N> {
    /// Number of positions in each lane.
    pub fn len(&self) -> (r: usize)
        ensures
            r == self.view.length,
    {
        self.view.length
    }

    /// Element `index.1` of the row at position `index.0`.
    pub fn get(&self, index: (usize, usize)) -> (r: Option<&T>)
        requires
            self.view.in_bounds(self.data@.len() as int),
            index.0 < self.view.length,
            index.1 < N,
        ensures
            r == Some(&old(self.data)@[self.view.index_of(index.0 as int, index.1 as int)]),
    {
        self.view.get(&*self.data, index)
    }

    /// Iterate over the rows of the lanes for reading.
    pub fn iter(&self) -> (r: ChunkStridedSliceIter<'_, T, N>)
        ensures
            r.data@ == old(self.data)@,
            r.view == self.view,
            r.front == 0,
            r.back == self.view.length,
    {
        ChunkStridedSliceIter { data: &*self.data, view: self.view, front: 0, back: self.view.length }
    }

    /// Iterate over the rows of the lanes, one row of mutable elements at a time.
    pub fn iter_mut(&mut self) -> (r: MutChunkStridedSliceIter<'_, T, N>)
        ensures
            r.data@ == old(self).data@,
            r.view == old(self).view,
            r.front == 0,
            r.back == old(self).view.length,
            final(self).view == old(self).view,
            final(self).data@ == final(r.data)@,
    {
        MutChunkStridedSliceIter {
            data: &mut *self.data,
            view: self.view,
            front: 0,
            back: self.view.length,
        }
    }
}

/// The elements of one row of a chunk of lanes, one lane after the other, handed out one
/// mutable element at a time.
pub struct MutAlongChunkIter<'a, T, const N: usize> {
    /// The underlying buffer.
    pub data: &'a mut [T],
    /// The lanes the row belongs to.
    pub view: ChunkStridedSliceRef<N>,
    /// Position of the row.
    pub row: usize,
    /// Lane of the next element.
    pub ind: usize,
}

impl<'a, T, const N: usize> MutAlongChunkIter<'a, T, N> {
    /// The row is a position of the lanes and the lanes lie inside the buffer.
    pub open spec fn wf(&self) -> bool {
        &&& self.row < self.view.length
        &&& self.ind <= N
        &&& self.view.in_bounds(self.data@.len() as int)
    }

    /// Take the element of the next lane.
    pub fn next(&mut self) -> (r: Option<&mut T>)
        requires
            old(self).wf(),
        ensures
            final(self).view == old(self).view,
            final(self).row == old(self).row,
            old(self).ind == N ==> r is None && final(self).ind == N && final(self).data@ == old(
                self,
            ).data@,
            old(self).ind < N ==> (r matches Some(x) && *x == old(self).data@[old(
                self,
            ).view.index_of(old(self).row as int, old(self).ind as int)] && final(self).data@
                == old(self).data@.update(
                old(self).view.index_of(old(self).row as int, old(self).ind as int),
                *final(x),
            )) && final(self).ind == old(self).ind + 1,
    {
        if self.ind == N {
            return None;
        }
        proof {
            assert(self.data@.len() == self.data.len());
        }
        let p = self.view.position(Ghost(self.data@.len() as int), self.row, self.ind);
        self.ind += 1;
        Some(&mut self.data[p])
    }

    /// Number of elements left in the row.
    pub fn len(&self) -> (r: usize)
        requires
            self.wf(),
        ensures
            r == N - self.ind,
    {
        N - self.ind
    }
}

/// Double-ended iteration over the rows `front..back` of a chunk of lanes, handing out one
/// row of mutable elements at a time.
pub struct MutChunkStridedSliceIter<'a, T, const N: usize> {
    /// The underlying buffer.
    pub data: &'a mut [T],
    /// The lanes being iterated.
    pub view: ChunkStridedSliceRef<N>,
    /// Position of the next row taken from the front.
    pub front: usize,
    /// One past the position of the next row taken from the back.
    pub back: usize,
}

impl<'a, T, const N: usize> MutChunkStridedSliceIter<'a, T, N> {
    /// The range is inside the lanes and the lanes inside the buffer.
    pub open spec fn wf(&self) -> bool {
        &&& self.front <= self.back <= self.view.length
        &&& self.view.in_bounds(self.data@.len() as int)
    }

    /// Take the next row from the front; writes through it reach the buffer.
    pub fn next(&mut self) -> (r: Option<MutAlongChunkIter<'_, T, N>>)
        requires
            old(self).wf(),
        ensures
            final(self).view == old(self).view,
            final(self).back == old(self).back,
            old(self).front == old(self).back ==> r is None && final(self).front == old(self).front
                && final(self).data@ == old(self).data@,
            old(self).front < old(self).back ==> (r matches Some(it) && it.wf() && it.data@
                == old(self).data@ && it.view == old(self).view && it.row == old(self).front
                && it.ind == 0 && final(self).data@ == final(it.data)@) && final(self).front == old(
                self,
            ).front + 1,
    {
        if self.front == self.back {
            return None;
        }
        let row = self.front;
        self.front += 1;
        Some(MutAlongChunkIter { data: &mut *self.data, view: self.view, row, ind: 0 })
    }

    /// Take the next row from the back; writes through it reach the buffer.
    pub fn next_back(&mut self) -> (r: Option<MutAlongChunkIter<'_, T, N>>)
        requires
            old(self).wf(),
        ensures
            final(self).view == old(self).view,
            final(self).front == old(self).front,
            old(self).front == old(self).back ==> r is None && final(self).back == old(self).back
                && final(self).data@ == old(self).data@,
            old(self).front < old(self).back ==> (r matches Some(it) && it.wf() && it.data@
                == old(self).data@ && it.view == old(self).view && it.row == old(self).back - 1
                && it.ind == 0 && final(self).data@ == final(it.data)@) && final(self).back == old(
                self,
            ).back - 1,
    {
        if self.front == self.back {
            return None;
        }
        self.back -= 1;
        let row = self.back;
        Some(MutAlongChunkIter { data: &mut *self.data, view: self.view, row, ind: 0 })
    }

    /// Number of rows left.
    pub fn len(&self) -> (r: usize)
        requires
            self.wf(),
        ensures
            r == self.back - self.front,
    {
        self.back - self.front
    }
}

/// Enumeration of the lanes of a row-major array as views for writing into the buffer that
/// holds it.  The buffer itself stays with the caller, who writes through the views.
pub struct MutLaneSliceIter {
    cursor: LaneCursor,
    shape: Ghost<Seq<usize>>,
    axis: Ghost<int>,
}

impl MutLaneSliceIter {
    /// Shape of the array.
    pub closed spec fn shape(&self) -> Seq<usize> {
        self.shape@
    }

    /// Axis of the lanes.
    pub closed spec fn axis(&self) -> int {
        self.axis@
    }

    /// Index of the next lane taken from the front.
    pub closed spec fn lo(&self) -> int {
        self.cursor.lo()
    }

    /// One past the index of the next lane taken from the back.
    pub closed spec fn hi(&self) -> int {
        self.cursor.hi()
    }

    /// Internal consistency of the iterator.
    pub closed spec fn wf(&self) -> bool {
        &&& self.cursor.wf()
        &&& lanes_ok(self.shape@, self.axis@)
        &&& self.cursor.layout() == lane_layout(self.shape@, self.axis@)
    }

    fn range(shape: &[usize], axis: usize, lo: usize, hi: usize) -> (r: Self)
        requires
            lanes_ok(shape@, axis as int),
            lo <= hi <= shape_prod(shape@.remove(axis as int)),
        ensures
            r.wf(),
            r.shape() == shape@,
            r.axis() == axis,
            r.lo() == lo,
            r.hi() == hi,
    {
        let cursor = LaneCursor::new_range(shape, axis, lo, hi);
        MutLaneSliceIter { cursor, shape: Ghost(shape@), axis: Ghost(axis as int) }
    }

    /// Enumerate all lanes along `axis` of the row-major array of shape `shape` held in
    /// `arr`.
    pub fn from_slice_mut<T>(arr: &mut [T], shape: &[usize], axis: usize) -> (r: Self)
        requires
            old(arr)@.len() == shape_prod(shape@),
            lanes_ok(shape@, axis as int),
        ensures
            final(arr)@ == old(arr)@,
            r.wf(),
            r.shape() == shape@,
            r.axis() == axis,
            r.lo() == 0,
            r.hi() == shape_prod(shape@.remove(axis as int)),
    {
        let n_lanes = lane_count(shape, axis);
        Self::range(shape, axis, 0, n_lanes)
    }

    /// Take the next lane from the front.
    pub fn next(&mut self) -> (r: Option<StridedSliceRef>)
        requires
            old(self).wf(),
        ensures
            final(self).wf(),
            final(self).shape() == old(self).shape(),
            final(self).axis() == old(self).axis(),
            final(self).hi() == old(self).hi(),
            old(self).lo() == old(self).hi() ==> r is None && final(self).lo() == old(self).lo(),
            old(self).lo() < old(self).hi() ==> r == Some(
                lane_of(lane_layout(old(self).shape(), old(self).axis()), old(self).lo()),
            ) && final(self).lo() == old(self).lo() + 1,
            r matches Some(v) ==> v.in_bounds(shape_prod(old(self).shape())) && v.distinct(),
    {
        proof {
            if self.cursor.lo() < self.cursor.hi() {
                lemma_lane_in_bounds(self.shape@, self.axis@, self.cursor.lo());
            }
        }
        self.cursor.next()
    }

    /// Take the next lane from the back.
    pub fn next_back(&mut self) -> (r: Option<StridedSliceRef>)
        requires
            old(self).wf(),
        ensures
            final(self).wf(),
            final(self).shape() == old(self).shape(),
            final(self).axis() == old(self).axis(),
            final(self).lo() == old(self).lo(),
            old(self).lo() == old(self).hi() ==> r is None && final(self).hi() == old(self).hi(),
            old(self).lo() < old(self).hi() ==> r == Some(
                lane_of(lane_layout(old(self).shape(), old(self).axis()), old(self).hi() - 1),
            ) && final(self).hi() == old(self).hi() - 1,
            r matches Some(v) ==> v.in_bounds(shape_prod(old(self).shape())) && v.distinct(),
    {
        proof {
            if self.cursor.lo() < self.cursor.hi() {
                lemma_lane_in_bounds(self.shape@, self.axis@, self.cursor.hi() - 1);
            }
        }
        self.cursor.next_back()
    }

    /// Number of lanes left.
    pub fn len(&self) -> (r: usize)
        requires
            self.wf(),
        ensures
            r == self.hi() - self.lo(),
    {
        self.cursor.len()
    }
}

/// Enumeration of chunks of `N` consecutive lanes of a row-major array as views for
/// writing into the buffer that holds it.
pub struct MutLaneSliceChunkIter<const N: usize> {
    cursor: LaneCursor,
    shape: Ghost<Seq<usize>>,
    axis: Ghost<int>,
}

impl<const N: usize> MutLaneSliceChunkIter<N> {
    /// Shape of the array.
    pub closed spec fn shape(&self) -> Seq<usize> {
        self.shape@
    }

    /// Axis of the lanes.
    pub closed spec fn axis(&self) -> int {
        self.axis@
    }

    /// Index of the first lane of the next chunk taken from the front.
    pub closed spec fn lo(&self) -> int {
        self.cursor.lo()
    }

    /// One past the index of the last lane of the next chunk taken from the back.
    pub closed spec fn hi(&self) -> int {
        self.cursor.hi()
    }

    /// Internal consistency of the iterator.
    pub closed spec fn wf(&self) -> bool {
        &&& self.cursor.wf()
        &&& N >= 1
        &&& (self.cursor.hi() - self.cursor.lo()) % (N as int) == 0
        &&& lanes_ok(self.shape@, self.axis@)
        &&& self.cursor.layout() == lane_layout(self.shape@, self.axis@)
    }

    fn range(shape: &[usize], axis: usize, lo: usize, hi: usize) -> (r: Self)
        requires
            N >= 1,
            (hi - lo) % (N as int) == 0,
            lanes_ok(shape@, axis as int),
            lo <= hi <= shape_prod(shape@.remove(axis as int)),
        ensures
            r.wf(),
            r.shape() == shape@,
            r.axis() == axis,
            r.lo() == lo,
            r.hi() == hi,
    {
        let cursor = LaneCursor::new_range(shape, axis, lo, hi);
        MutLaneSliceChunkIter { cursor, shape: Ghost(shape@), axis: Ghost(axis as int) }
    }

    /// Split the lanes along `axis` into chunks of `N` consecutive lanes and an enumeration
    /// of the remaining `n_lanes % N` lanes.
    pub fn from_slice_mut<T>(arr: &mut [T], shape: &[usize], axis: usize) -> (r: (Self, MutLaneSliceIter))
        requires
            old(arr)@.len() == shape_prod(shape@),
            lanes_ok(shape@, axis as int),
            N >= 1,
        ensures
            final(arr)@ == old(arr)@,
            r.0.wf(),
            r.0.shape() == shape@,
            r.0.axis() == axis,
            r.0.lo() == 0,
            r.0.hi() == shape_prod(shape@.remove(axis as int)) - shape_prod(shape@.remove(axis as int)) % (N as int),
            r.1.wf(),
            r.1.shape() == shape@,
            r.1.axis() == axis,
            r.1.lo() == r.0.hi(),
            r.1.hi() == shape_prod(shape@.remove(axis as int)),
    {
        let n_lanes = lane_count(shape, axis);
        let n_rem = n_lanes % N;
        proof {
            lemma_divmod(n_lanes as int, N as int);
            let q = n_lanes as int / N as int;
            assert(q >= 0 && N * q >= 0) by (nonlinear_arith)
                requires
                    n_lanes == N * q + n_rem,
                    0 <= n_rem < N,
                    n_lanes >= 0,
            ;
        }
        let n_chunkable = n_lanes - n_rem;
        proof {
            let q = n_lanes as int / N as int;
            assert(N * q == q * N) by (nonlinear_arith);
            lemma_fundamental_div_mod_converse(n_chunkable as int, N as int, q, 0);
        }
        let chunks = Self::range(shape, axis, 0, n_chunkable);
        let rest = MutLaneSliceIter::range(shape, axis, n_chunkable, n_lanes);
        (chunks, rest)
    }

    /// Take the next chunk of `N` lanes from the front.
    pub fn next(&mut self) -> (r: Option<ChunkStridedSliceRef<N>>)
        requires
            old(self).wf(),
        ensures
            final(self).wf(),
            final(self).shape() == old(self).shape(),
            final(self).axis() == old(self).axis(),
            final(self).hi() == old(self).hi(),
            old(self).lo() == old(self).hi() ==> r is None && final(self).lo() == old(self).lo(),
            old(self).lo() < old(self).hi() ==> (r matches Some(v) && is_lane_chunk(
                v,
                lane_layout(old(self).shape(), old(self).axis()),
                old(self).lo(),
                true,
            )) && final(self).lo() == old(self).lo() + N,
            r matches Some(v) ==> v.in_bounds(shape_prod(old(self).shape())) && v.distinct(),
    {
        if self.cursor.len() == 0 {
            return None;
        }
        proof {
            lemma_chunk_room(self.cursor.lo(), self.cursor.hi(), N as int);
        }
        let view = self.cursor.next_chunk::<N>();
        proof {
            lemma_lane_chunk_ok(self.shape@, self.axis@, view, old(self).lo(), true);
            lemma_chunk_step(old(self).lo(), self.cursor.hi(), N as int);
        }
        Some(view)
    }

    /// Take the next chunk of `N` lanes from the back (its first lane is the last lane left).
    pub fn next_back(&mut self) -> (r: Option<ChunkStridedSliceRef<N>>)
        requires
            old(self).wf(),
        ensures
            final(self).wf(),
            final(self).shape() == old(self).shape(),
            final(self).axis() == old(self).axis(),
            final(self).lo() == old(self).lo(),
            old(self).lo() == old(self).hi() ==> r is None && final(self).hi() == old(self).hi(),
            old(self).lo() < old(self).hi() ==> (r matches Some(v) && is_lane_chunk(
                v,
                lane_layout(old(self).shape(), old(self).axis()),
                old(self).hi() - 1,
                false,
            )) && final(self).hi() == old(self).hi() - N,
            r matches Some(v) ==> v.in_bounds(shape_prod(old(self).shape())) && v.distinct(),
    {
        if self.cursor.len() == 0 {
            return None;
        }
        proof {
            lemma_chunk_room(self.cursor.lo(), self.cursor.hi(), N as int);
        }
        let view = self.cursor.next_back_chunk::<N>();
        proof {
            lemma_lane_chunk_ok(self.shape@, self.axis@, view, old(self).hi() - 1, false);
            lemma_chunk_step(old(self).lo(), old(self).hi(), N as int);
        }
        Some(view)
    }

    /// Number of chunks left.
    pub fn len(&self) -> (r: usize)
        requires
            self.wf(),
        ensures
            r == (self.hi() - self.lo()) / (N as int),
    {
        self.cursor.len() / N
    }
}

// ---------------------------------------------------------------------------------------
// Splittable lane ranges for parallel drivers
// ---------------------------------------------------------------------------------------
/// A copy of a shape.
pub(crate) fn copy_shape(shape: &[usize]) -> (r: Vec<usize>)
    ensures
        r@ == shape@,
{
    let mut r: Vec<usize> = Vec::new();
    let mut k: usize = 0;
    while k < shape.len()
        invariant
            k <= shape@.len(),
            r@ == shape@.subrange(0, k as int),
        decreases shape@.len() - k,
    {
        r.push(shape[k]);
        proof {
            assert(r@ =~= shape@.subrange(0, k as int + 1));
        }
        k += 1;
    }
    proof {
        assert(r@ =~= shape@);
    }
    r
}

/// The lanes `start..stop` of a row-major array held in a borrowed buffer, as a range that
/// a parallel driver splits and hands out to workers.
pub struct LaneSliceParIter<'a, T> {
    data: &'a [T],
    shape: Vec<usize>,
    axis: usize,
    start: usize,
    stop: usize,
}

impl<'a, T> LaneSliceParIter<'a, T> {
    /// The buffer.
    pub closed spec fn data(&self) -> Seq<T> {
        self.data@
    }

    /// Shape of the array.
    pub closed spec fn shape(&self) -> Seq<usize> {
        self.shape@
    }

    /// Axis of the lanes.
    pub closed spec fn axis(&self) -> int {
        self.axis as int
    }

    /// First lane of the range.
    pub closed spec fn start(&self) -> int {
        self.start as int
    }

    /// One past the last lane of the range.
    pub closed spec fn stop(&self) -> int {
        self.stop as int
    }

    /// Internal consistency of the range.
    pub closed spec fn wf(&self) -> bool {
        &&& lanes_ok(self.shape@, self.axis as int)
        &&& self.data@.len() == shape_prod(self.shape@)
        &&& self.start <= self.stop <= shape_prod(self.shape@.remove(self.axis as int))
    }

    /// All lanes along `axis` of the row-major array of shape `shape` held in `arr`.
    pub fn from_slice(arr: &'a [T], shape: &[usize], axis: usize) -> (r: Self)
        requires
            arr@.len() == shape_prod(shape@),
            lanes_ok(shape@, axis as int),
        ensures
            r.wf(),
            r.data() == arr@,
            r.shape() == shape@,
            r.axis() == axis,
            r.start() == 0,
            r.stop() == shape_prod(shape@.remove(axis as int)),
    {
        let stop = lane_count(shape, axis);
        LaneSliceParIter { data: arr, shape: copy_shape(shape), axis, start: 0, stop }
    }

    /// Number of lanes in the range.
    pub fn len(&self) -> (r: usize)
        requires
            self.wf(),
        ensures
            r == self.stop() - self.start(),
    {
        self.stop - self.start
    }

    /// Split the range after its first `index` lanes.
    pub fn split_at(self, index: usize) -> (r: (Self, Self))
        requires
            self.wf(),
            index <= self.stop() - self.start(),
        ensures
            r.0.wf() && r.1.wf(),
            r.0.data() == self.data() && r.1.data() == self.data(),
            r.0.shape() == self.shape() && r.1.shape() == self.shape(),
            r.0.axis() == self.axis() && r.1.axis() == self.axis(),
            r.0.start() == self.start(),
            r.0.stop() == self.start() + index,
            r.1.start() == self.start() + index,
            r.1.stop() == self.stop(),
    {
        let split = self.start + index;
        let first = LaneSliceParIter {
            data: self.data,
            shape: copy_shape(self.shape.as_slice()),
            axis: self.axis,
            start: self.start,
            stop: split,
        };
        let second = LaneSliceParIter {
            data: self.data,
            shape: self.shape,
            axis: self.axis,
            start: split,
            stop: self.stop,
        };
        (first, second)
    }

    /// Sequential iteration over the lanes of the range.
    pub fn into_iter(self) -> (r: LaneSliceIter<'a, T>)
        requires
            self.wf(),
        ensures
            r.wf(),
            r.data() == self.data(),
            r.shape() == self.shape(),
            r.axis() == self.axis(),
            r.lo() == self.start(),
            r.hi() == self.stop(),
    {
        LaneSliceIter::range(self.data, self.shape.as_slice(), self.axis, self.start, self.stop)
    }
}

/// Chunks of `N` consecutive lanes `start..stop` of a row-major array held in a borrowed
/// buffer, as a range that a parallel driver splits and hands out to workers.
pub struct LaneSliceChunkParIter<'a, T, const N: usize> {
    data: &'a [T],
    shape: Vec<usize>,
    axis: usize,
    start: usize,
    stop: usize,
}

impl<'a, T, const N: usize> LaneSliceChunkParIter<'a, T, N> {
    /// The buffer.
    pub closed spec fn data(&self) -> Seq<T> {
        self.data@
    }

    /// Shape of the array.
    pub closed spec fn shape(&self) -> Seq<usize> {
        self.shape@
    }

    /// Axis of the lanes.
    pub closed spec fn axis(&self) -> int {
        self.axis as int
    }

    /// First lane of the range.
    pub closed spec fn start(&self) -> int {
        self.start as int
    }

    /// One past the last lane of the range.
    pub closed spec fn stop(&self) -> int {
        self.stop as int
    }

    /// Internal consistency of the range.
    pub closed spec fn wf(&self) -> bool {
        &&& N >= 1
        &&& lanes_ok(self.shape@, self.axis as int)
        &&& self.data@.len() == shape_prod(self.shape@)
        &&& self.start <= self.stop <= shape_prod(self.shape@.remove(self.axis as int))
        &&& (self.stop - self.start) % (N as int) == 0
    }

    /// Split the lanes along `axis` into a range of chunks of `N` consecutive lanes and a
    /// range of the remaining `n_lanes % N` lanes.
    pub fn from_slice(arr: &'a [T], shape: &[usize], axis: usize) -> (r: (Self, LaneSliceParIter<'a, T>))
        requires
            arr@.len() == shape_prod(shape@),
            lanes_ok(shape@, axis as int),
            N >= 1,
        ensures
            r.0.wf() && r.1.wf(),
            r.0.data() == arr@ && r.1.data() == arr@,
            r.0.shape() == shape@ && r.1.shape() == shape@,
            r.0.axis() == axis && r.1.axis() == axis,
            r.0.start() == 0,
            r.0.stop() == shape_prod(shape@.remove(axis as int)) - shape_prod(shape@.remove(axis as int)) % (N as int),
            r.1.start() == r.0.stop(),
            r.1.stop() == shape_prod(shape@.remove(axis as int)),
    {
        let n_lanes = lane_count(shape, axis);
        let n_rem = n_lanes % N;
        proof {
            lemma_divmod(n_lanes as int, N as int);
            let q = n_lanes as int / N as int;
            assert(q >= 0 && N * q >= 0) by (nonlinear_arith)
                requires
                    n_lanes == N * q + n_rem,
                    0 <= n_rem < N,
                    n_lanes >= 0,
            ;
        }
        let n_chunkable = n_lanes - n_rem;
        proof {
            let q = n_lanes as int / N as int;
            assert(N * q == q * N) by (nonlinear_arith);
            lemma_fundamental_div_mod_converse(n_chunkable as int, N as int, q, 0);
        }
        let chunks = LaneSliceChunkParIter {
            data: arr,
            shape: copy_shape(shape),
            axis,
            start: 0,
            stop: n_chunkable,
        };
        let rest = LaneSliceParIter {
            data: arr,
            shape: copy_shape(shape),
            axis,
            start: n_chunkable,
            stop: n_lanes,
        };
        (chunks, rest)
    }

    /// Number of chunks in the range.
    pub fn len(&self) -> (r: usize)
        requires
            self.wf(),
        ensures
            r == (self.stop() - self.start()) / (N as int),
    {
        (self.stop - self.start) / N
    }

    /// Split the range after its first `index` chunks.
    pub fn split_at(self, index: usize) -> (r: (Self, Self))
        requires
            self.wf(),
            index <= (self.stop() - self.start()) / (N as int),
        ensures
            r.0.wf() && r.1.wf(),
            r.0.data() == self.data() && r.1.data() == self.data(),
            r.0.shape() == self.shape() && r.1.shape() == self.shape(),
            r.0.axis() == self.axis() && r.1.axis() == self.axis(),
            r.0.start() == self.start(),
            r.0.stop() == self.start() + index * N,
            r.1.start() == self.start() + index * N,
            r.1.stop() == self.stop(),
    {
        proof {
            lemma_chunk_split(self.start as int, self.stop as int, N as int, index as int);
        }
        let split = self.start + index * N;
        let first = LaneSliceChunkParIter {
            data: self.data,
            shape: copy_shape(self.shape.as_slice()),
            axis: self.axis,
            start: self.start,
            stop: split,
        };
        let second = LaneSliceChunkParIter {
            data: self.data,
            shape: self.shape,
            axis: self.axis,
            start: split,
            stop: self.stop,
        };
        (first, second)
    }

    /// Sequential iteration over the chunks of the range.
    pub fn into_iter(self) -> (r: LaneSliceChunkIter<'a, T, N>)
        requires
            self.wf(),
        ensures
            r.wf(),
            r.data() == self.data(),
            r.shape() == self.shape(),
            r.axis() == self.axis(),
            r.lo() == self.start(),
            r.hi() == self.stop(),
    {
        LaneSliceChunkIter::range(self.data, self.shape.as_slice(), self.axis, self.start, self.stop)
    }
}

/// The lanes `start..stop` of a row-major array, as a range of views for writing that a
/// parallel driver splits and hands out to workers.
pub struct MutLaneSliceParIter {
    shape: Vec<usize>,
    axis: usize,
    start: usize,
    stop: usize,
}

impl MutLaneSliceParIter {
    /// Shape of the array.
    pub closed spec fn shape(&self) -> Seq<usize> {
        self.shape@
    }

    /// Axis of the lanes.
    pub closed spec fn axis(&self) -> int {
        self.axis as int
    }

    /// First lane of the range.
    pub closed spec fn start(&self) -> int {
        self.start as int
    }

    /// One past the last lane of the range.
    pub closed spec fn stop(&self) -> int {
        self.stop as int
    }

    /// Internal consistency of the range.
    pub closed spec fn wf(&self) -> bool {
        &&& lanes_ok(self.shape@, self.axis as int)
        &&& self.start <= self.stop <= shape_prod(self.shape@.remove(self.axis as int))
    }

    /// All lanes along `axis` of the row-major array of shape `shape` held in `arr`.
    pub fn from_slice_mut<T>(arr: &mut [T], shape: &[usize], axis: usize) -> (r: Self)
        requires
            old(arr)@.len() == shape_prod(shape@),
            lanes_ok(shape@, axis as int),
        ensures
            r.wf(),
            final(arr)@ == old(arr)@,
            r.shape() == shape@,
            r.axis() == axis,
            r.start() == 0,
            r.stop() == shape_prod(shape@.remove(axis as int)),
    {
        let stop = lane_count(shape, axis);
        MutLaneSliceParIter { shape: copy_shape(shape), axis, start: 0, stop }
    }

    /// Number of lanes in the range.
    pub fn len(&self) -> (r: usize)
        requires
            self.wf(),
        ensures
            r == self.stop() - self.start(),
    {
        self.stop - self.start
    }

    /// Split the range after its first `index` lanes.
    pub fn split_at(self, index: usize) -> (r: (Self, Self))
        requires
            self.wf(),
            index <= self.stop() - self.start(),
        ensures
            r.0.wf() && r.1.wf(),
            r.0.shape() == self.shape() && r.1.shape() == self.shape(),
            r.0.axis() == self.axis() && r.1.axis() == self.axis(),
            r.0.start() == self.start(),
            r.0.stop() == self.start() + index,
            r.1.start() == self.start() + index,
            r.1.stop() == self.stop(),
    {
        let split = self.start + index;
        let first = MutLaneSliceParIter {
            shape: copy_shape(self.shape.as_slice()),
            axis: self.axis,
            start: self.start,
            stop: split,
        };
        let second = MutLaneSliceParIter {
            shape: self.shape,
            axis: self.axis,
            start: split,
            stop: self.stop,
        };
        (first, second)
    }

    /// Sequential enumeration of the lanes of the range.
    pub fn into_iter(self) -> (r: MutLaneSliceIter)
        requires
            self.wf(),
        ensures
            r.wf(),
            r.shape() == self.shape(),
            r.axis() == self.axis(),
            r.lo() == self.start(),
            r.hi() == self.stop(),
    {
        MutLaneSliceIter::range(self.shape.as_slice(), self.axis, self.start, self.stop)
    }
}

/// Chunks of `N` consecutive lanes `start..stop` of a row-major array, as a range of views
/// for writing that a parallel driver splits and hands out to workers.
pub struct MutLaneSliceChunkParIter<const N: usize> {
    shape: Vec<usize>,
    axis: usize,
    start: usize,
    stop: usize,
}

impl<const N: usize> MutLaneSliceChunkParIter<N> {
    /// Shape of the array.
    pub closed spec fn shape(&self) -> Seq<usize> {
        self.shape@
    }

    /// Axis of the lanes.
    pub closed spec fn axis(&self) -> int {
        self.axis as int
    }

    /// First lane of the range.
    pub closed spec fn start(&self) -> int {
        self.start as int
    }

    /// One past the last lane of the range.
    pub closed spec fn stop(&self) -> int {
        self.stop as int
    }

    /// Internal consistency of the range.
    pub closed spec fn wf(&self) -> bool {
        &&& N >= 1
        &&& lanes_ok(self.shape@, self.axis as int)
        &&& self.start <= self.stop <= shape_prod(self.shape@.remove(self.axis as int))
        &&& (self.stop - self.start) % (N as int) == 0
    }

    /// Split the lanes along `axis` into a range of chunks of `N` consecutive lanes and a
    /// range of the remaining `n_lanes % N` lanes.
    pub fn from_slice_mut<T>(arr: &mut [T], shape: &[usize], axis: usize) -> (r: (Self, MutLaneSliceParIter))
        requires
            old(arr)@.len() == shape_prod(shape@),
            lanes_ok(shape@, axis as int),
            N >= 1,
        ensures
            r.0.wf() && r.1.wf(),
            final(arr)@ == old(arr)@,
            r.0.shape() == shape@ && r.1.shape() == shape@,
            r.0.axis() == axis && r.1.axis() == axis,
            r.0.start() == 0,
            r.0.stop() == shape_prod(shape@.remove(axis as int)) - shape_prod(shape@.remove(axis as int)) % (N as int),
            r.1.start() == r.0.stop(),
            r.1.stop() == shape_prod(shape@.remove(axis as int)),
    {
        let n_lanes = lane_count(shape, axis);
        let n_rem = n_lanes % N;
        proof {
            lemma_divmod(n_lanes as int, N as int);
            let q = n_lanes as int / N as int;
            assert(q >= 0 && N * q >= 0) by (nonlinear_arith)
                requires
                    n_lanes == N * q + n_rem,
                    0 <= n_rem < N,
                    n_lanes >= 0,
            ;
        }
        let n_chunkable = n_lanes - n_rem;
        proof {
            let q = n_lanes as int / N as int;
            assert(N * q == q * N) by (nonlinear_arith);
            lemma_fundamental_div_mod_converse(n_chunkable as int, N as int, q, 0);
        }
        let chunks = MutLaneSliceChunkParIter {
            shape: copy_shape(shape),
            axis,
            start: 0,
            stop: n_chunkable,
        };
        let rest = MutLaneSliceParIter {
            shape: copy_shape(shape),
            axis,
            start: n_chunkable,
            stop: n_lanes,
        };
        (chunks, rest)
    }

    /// Number of chunks in the range.
    pub fn len(&self) -> (r: usize)
        requires
            self.wf(),
        ensures
            r == (self.stop() - self.start()) / (N as int),
    {
        (self.stop - self.start) / N
    }

    /// Split the range after its first `index` chunks.
    pub fn split_at(self, index: usize) -> (r: (Self, Self))
        requires
            self.wf(),
            index <= (self.stop() - self.start()) / (N as int),
        ensures
            r.0.wf() && r.1.wf(),
            r.0.shape() == self.shape() && r.1.shape() == self.shape(),
            r.0.axis() == self.axis() && r.1.axis() == self.axis(),
            r.0.start() == self.start(),
            r.0.stop() == self.start() + index * N,
            r.1.start() == self.start() + index * N,
            r.1.stop() == self.stop(),
    {
        proof {
            lemma_chunk_split(self.start as int, self.stop as int, N as int, index as int);
        }
        let split = self.start + index * N;
        let first = MutLaneSliceChunkParIter {
            shape: copy_shape(self.shape.as_slice()),
            axis: self.axis,
            start: self.start,
            stop: split,
        };
        let second = MutLaneSliceChunkParIter {
            shape: self.shape,
            axis: self.axis,
            start: split,
            stop: self.stop,
        };
        (first, second)
    }

    /// Sequential enumeration of the chunks of the range.
    pub fn into_iter(self) -> (r: MutLaneSliceChunkIter<N>)
        requires
            self.wf(),
        ensures
            r.wf(),
            r.shape() == self.shape(),
            r.axis() == self.axis(),
            r.lo() == self.start(),
            r.hi() == self.stop(),
    {
        MutLaneSliceChunkIter::range(self.shape.as_slice(), self.axis, self.start, self.stop)
    }
}

/// Splitting a whole number of chunks after `index` chunks leaves two whole numbers of
/// chunks.
proof fn lemma_chunk_split(start: int, stop: int, n: int, index: int)
    requires
        n >= 1,
        start <= stop,
        (stop - start) % n == 0,
        0 <= index <= (stop - start) / n,
    ensures
        start + index * n <= stop,
        (index * n) % n == 0,
        (stop - (start + index * n)) % n == 0,
        0 <= index * n,
{
    lemma_divmod(stop - start, n);
    let q = (stop - start) / n;
    assert(index * n <= q * n) by (nonlinear_arith)
        requires
            0 <= index <= q,
            n >= 1,
    ;
    assert(0 <= index * n) by (nonlinear_arith)
        requires
            0 <= index,
            n >= 1,
    ;
    assert(n * q == q * n) by (nonlinear_arith);
    lemma_fundamental_div_mod_converse(index * n, n, index, 0);
    assert(stop - (start + index * n) == (q - index) * n) by (nonlinear_arith)
        requires
            stop - start == n * q,
    ;
    lemma_fundamental_div_mod_converse(stop - (start + index * n), n, q - index, 0);
}

// ---------------------------------------------------------------------------------------
// Lane access on flat buffers
// ---------------------------------------------------------------------------------------
/// Lane iteration over a flat row-major buffer.
pub trait LanesIterator<T> {
    /// The elements of the buffer.
    spec fn elems(&self) -> Seq<T>;

    /// Iterate over the lanes along `axis` of the array of shape `shape`.
    fn iter_lanes<'a>(&'a self, shape: &[usize], axis: usize) -> (r: LaneSliceIter<'a, T>)
        requires
            self.elems().len() == shape_prod(shape@),
            lanes_ok(shape@, axis as int),
        ensures
            r.wf(),
            r.data() == self.elems(),
            r.shape() == shape@,
            r.axis() == axis,
            r.lo() == 0,
            r.hi() == shape_prod(shape@.remove(axis as int)),
    ;

    /// Enumerate the lanes along `axis` of the array of shape `shape` as views for writing.
    fn iter_lanes_mut(&mut self, shape: &[usize], axis: usize) -> (r: MutLaneSliceIter)
        requires
            old(self).elems().len() == shape_prod(shape@),
            lanes_ok(shape@, axis as int),
        ensures
            final(self).elems() == old(self).elems(),
            r.wf(),
            r.shape() == shape@,
            r.axis() == axis,
            r.lo() == 0,
            r.hi() == shape_prod(shape@.remove(axis as int)),
    ;

    /// Chunks of `N` consecutive lanes along `axis`, and the remaining lanes.
    fn iter_lane_chunks<'a, const N: usize>(&'a self, shape: &[usize], axis: usize) -> (r: (
        LaneSliceChunkIter<'a, T, N>,
        LaneSliceIter<'a, T>,
    ))
        requires
            self.elems().len() == shape_prod(shape@),
            lanes_ok(shape@, axis as int),
            N >= 1,
        ensures
            r.0.wf() && r.1.wf(),
            r.0.data() == self.elems() && r.1.data() == self.elems(),
            r.0.shape() == shape@ && r.1.shape() == shape@,
            r.0.axis() == axis && r.1.axis() == axis,
            r.0.lo() == 0,
            r.0.hi() == shape_prod(shape@.remove(axis as int)) - shape_prod(shape@.remove(axis as int)) % (N as int),
            r.1.lo() == r.0.hi(),
            r.1.hi() == shape_prod(shape@.remove(axis as int)),
    ;

    /// Chunks of `N` consecutive lanes along `axis` and the remaining lanes, as views for
    /// writing.
    fn iter_lane_chunks_mut<const N: usize>(&mut self, shape: &[usize], axis: usize) -> (r: (
        MutLaneSliceChunkIter<N>,
        MutLaneSliceIter,
    ))
        requires
            old(self).elems().len() == shape_prod(shape@),
            lanes_ok(shape@, axis as int),
            N >= 1,
        ensures
            final(self).elems() == old(self).elems(),
            r.0.wf() && r.1.wf(),
            r.0.shape() == shape@ && r.1.shape() == shape@,
            r.0.axis() == axis && r.1.axis() == axis,
            r.0.lo() == 0,
            r.0.hi() == shape_prod(shape@.remove(axis as int)) - shape_prod(shape@.remove(axis as int)) % (N as int),
            r.1.lo() == r.0.hi(),
            r.1.hi() == shape_prod(shape@.remove(axis as int)),
    ;
}

impl<T> LanesIterator<T> for [T] {
    open spec fn elems(&self) -> Seq<T> {
        self@
    }

    fn iter_lanes<'a>(&'a self, shape: &[usize], axis: usize) -> (r: LaneSliceIter<'a, T>) {
        LaneSliceIter::from_slice(self, shape, axis)
    }

    fn iter_lanes_mut(&mut self, shape: &[usize], axis: usize) -> (r: MutLaneSliceIter) {
        MutLaneSliceIter::from_slice_mut(self, shape, axis)
    }

    fn iter_lane_chunks<'a, const N: usize>(&'a self, shape: &[usize], axis: usize) -> (r: (
        LaneSliceChunkIter<'a, T, N>,
        LaneSliceIter<'a, T>,
    )) {
        LaneSliceChunkIter::from_slice(self, shape, axis)
    }

    fn iter_lane_chunks_mut<const N: usize>(&mut self, shape: &[usize], axis: usize) -> (r: (
        MutLaneSliceChunkIter<N>,
        MutLaneSliceIter,
    )) {
        MutLaneSliceChunkIter::from_slice_mut(self, shape, axis)
    }
}

/// Splittable lane ranges over a flat row-major buffer, for parallel drivers.
pub trait ParallelLanesIterator<T> {
    /// The elements of the buffer.
    spec fn elems(&self) -> Seq<T>;

    /// All lanes along `axis` of the array of shape `shape`, as a splittable range.
    fn par_iter_lanes<'a>(&'a self, shape: &[usize], axis: usize) -> (r: LaneSliceParIter<'a, T>)
        requires
            self.elems().len() == shape_prod(shape@),
            lanes_ok(shape@, axis as int),
        ensures
            r.wf(),
            r.data() == self.elems(),
            r.shape() == shape@,
            r.axis() == axis,
            r.start() == 0,
            r.stop() == shape_prod(shape@.remove(axis as int)),
    ;

    /// All lanes along `axis`, as a splittable range of views for writing.
    fn par_iter_lanes_mut(&mut self, shape: &[usize], axis: usize) -> (r: MutLaneSliceParIter)
        requires
            old(self).elems().len() == shape_prod(shape@),
            lanes_ok(shape@, axis as int),
        ensures
            final(self).elems() == old(self).elems(),
            r.wf(),
            r.shape() == shape@,
            r.axis() == axis,
            r.start() == 0,
            r.stop() == shape_prod(shape@.remove(axis as int)),
    ;

    /// Chunks of `N` consecutive lanes along `axis` and the remaining lanes, as splittable
    /// ranges.
    fn par_iter_lane_chunks<'a, const N: usize>(&'a self, shape: &[usize], axis: usize) -> (r: (
        LaneSliceChunkParIter<'a, T, N>,
        LaneSliceParIter<'a, T>,
    ))
        requires
            self.elems().len() == shape_prod(shape@),
            lanes_ok(shape@, axis as int),
            N >= 1,
        ensures
            r.0.wf() && r.1.wf(),
            r.0.data() == self.elems() && r.1.data() == self.elems(),
            r.0.shape() == shape@ && r.1.shape() == shape@,
            r.0.axis() == axis && r.1.axis() == axis,
            r.0.start() == 0,
            r.0.stop() == shape_prod(shape@.remove(axis as int)) - shape_prod(shape@.remove(axis as int)) % (N as int),
            r.1.start() == r.0.stop(),
            r.1.stop() == shape_prod(shape@.remove(axis as int)),
    ;

    /// Chunks of `N` consecutive lanes along `axis` and the remaining lanes, as splittable
    /// ranges of views for writing.
    fn par_iter_lane_chunks_mut<const N: usize>(&mut self, shape: &[usize], axis: usize) -> (r: (
        MutLaneSliceChunkParIter<N>,
        MutLaneSliceParIter,
    ))
        requires
            old(self).elems().len() == shape_prod(shape@),
            lanes_ok(shape@, axis as int),
            N >= 1,
        ensures
            final(self).elems() == old(self).elems(),
            r.0.wf() && r.1.wf(),
            r.0.shape() == shape@ && r.1.shape() == shape@,
            r.0.axis() == axis && r.1.axis() == axis,
            r.0.start() == 0,
            r.0.stop() == shape_prod(shape@.remove(axis as int)) - shape_prod(shape@.remove(axis as int)) % (N as int),
            r.1.start() == r.0.stop(),
            r.1.stop() == shape_prod(shape@.remove(axis as int)),
    ;
}

impl<T> ParallelLanesIterator<T> for [T] {
    open spec fn elems(&self) -> Seq<T> {
        self@
    }

    fn par_iter_lanes<'a>(&'a self, shape: &[usize], axis: usize) -> (r: LaneSliceParIter<'a, T>) {
        LaneSliceParIter::from_slice(self, shape, axis)
    }

    fn par_iter_lanes_mut(&mut self, shape: &[usize], axis: usize) -> (r: MutLaneSliceParIter) {
        MutLaneSliceParIter::from_slice_mut(self, shape, axis)
    }

    fn par_iter_lane_chunks<'a, const N: usize>(&'a self, shape: &[usize], axis: usize) -> (r: (
        LaneSliceChunkParIter<'a, T, N>,
        LaneSliceParIter<'a, T>,
    )) {
        LaneSliceChunkParIter::from_slice(self, shape, axis)
    }

    fn par_iter_lane_chunks_mut<const N: usize>(&mut self, shape: &[usize], axis: usize) -> (r: (
        MutLaneSliceChunkParIter<N>,
        MutLaneSliceParIter,
    )) {
        MutLaneSliceChunkParIter::from_slice_mut(self, shape, axis)
    }
}

} // verus!
