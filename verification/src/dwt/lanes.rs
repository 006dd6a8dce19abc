//! Lane passes of the multi-level drivers.
//!
//! A pass applies a 1-D kernel to every lane of a region of a row-major array along one
//! axis.  A forward kernel turns the leading samples of a lane into approximation and
//! detail bands, which are written back over the lane's leading elements; an inverse
//! kernel does the opposite.  Kernels are closures supplied by the caller; the passes
//! only decide which samples they see and where their results go.
use crate::iter::slice::{
    dot, in_shape, lemma_region_lane, lemma_sub_lane_element, row_strides, lane_count, lane_layout, lane_of, lanes_ok, lanes_ok_exec, lemma_lane_in_bounds,
    lemma_sub_lane_in_bounds, lemma_sub_lanes_cover, lemma_sub_lanes_disjoint, sub_lane_count,
    sub_lane_layout, sub_lanes_ok, sub_lanes_ok_exec, LaneCursor, LaneLayout,
};
use crate::iter::strided_slice::StridedSliceRef;
use vstd::arithmetic::div_mod::{lemma_fundamental_div_mod, lemma_fundamental_div_mod_converse};
use crate::utils::shape_prod;
use vstd::prelude::*;

verus! {

// ---------------------------------------------------------------------------------------
// Kernels
// ---------------------------------------------------------------------------------------
/// Requirements on a forward kernel `f(x, n_s, n_d) = (s, d)`: it accepts any samples and
/// returns bands of the requested lengths.
pub open spec fn forward_kernel<T, F: Fn(&[T], usize, usize) -> (Vec<T>, Vec<T>)>(f: F) -> bool {
    &&& forall|a: &[T], n_s: usize, n_d: usize| #[trigger] call_requires(f, (a, n_s, n_d))
    &&& forall|a: &[T], n_s: usize, n_d: usize, r: (Vec<T>, Vec<T>)|
        #[trigger] call_ensures(f, (a, n_s, n_d), r) ==> r.0@.len() == n_s && r.1@.len() == n_d
}

/// What a forward kernel does, as a map from samples and the two band lengths to the
/// approximation and detail bands.
pub type BandSplit<T> = spec_fn(Seq<T>, usize, usize) -> (Seq<T>, Seq<T>);

/// What an inverse kernel does, as a map from the two bands and a sample count to the
/// samples.
pub type BandJoin<T> = spec_fn(Seq<T>, Seq<T>, usize) -> Seq<T>;

/// Forward kernel `f` computes the band map `k`: whatever `f` returns for samples `a` and
/// band lengths `n_s`, `n_d` is `k(a, n_s, n_d)`.
pub open spec fn splits_by<T, F: Fn(&[T], usize, usize) -> (Vec<T>, Vec<T>)>(
    f: F,
    k: BandSplit<T>,
) -> bool {
    forall|a: &[T], n_s: usize, n_d: usize, r: (Vec<T>, Vec<T>)|
        #[trigger] call_ensures(f, (a, n_s, n_d), r) ==> (r.0@, r.1@) == k(a@, n_s, n_d)
}

/// A lane of `len` elements holding `s` at its start and `d` at its end, with `zero` in
/// between.
pub open spec fn stacked<T>(s: Seq<T>, d: Seq<T>, len: int, zero: T) -> Seq<T> {
    s + Seq::new((len - s.len() - d.len()) as nat, |i: int| zero) + d
}

/// Requirements on an inverse kernel `g(s, d, n) = x`: it accepts any bands and returns
/// `n` samples.
pub open spec fn inverse_kernel<T, G: Fn(&[T], &[T], usize) -> Vec<T>>(g: G) -> bool {
    &&& forall|s: &[T], d: &[T], n: usize| #[trigger] call_requires(g, (s, d, n))
    &&& forall|s: &[T], d: &[T], n: usize, r: Vec<T>|
        #[trigger] call_ensures(g, (s, d, n), r) ==> r@.len() == n
}

/// Inverse kernel `g` computes the sample map `k`: whatever `g` returns for bands `a`,
/// `b` and sample count `n` is `k(a, b, n)`.
pub open spec fn joins_by<T, G: Fn(&[T], &[T], usize) -> Vec<T>>(g: G, k: BandJoin<T>) -> bool {
    forall|a: &[T], b: &[T], n: usize, r: Vec<T>|
        #[trigger] call_ensures(g, (a, b, n), r) ==> r@ == k(a@, b@, n)
}

// ---------------------------------------------------------------------------------------
// What a pass does
// ---------------------------------------------------------------------------------------
/// Forward pass over lanes `0..j`: lane `k` of `dst` (layout `ld`) is overwritten by the
/// bands of the first `n_in` samples of lane `k` of `src` (layout `ls`), the approximation
/// at the lane's start and the detail at its end, with `zero` in between.
pub open spec fn forward_lanes_from<T>(
    f: BandSplit<T>,
    zero: T,
    src: Seq<T>,
    ls: LaneLayout,
    dst: Seq<T>,
    ld: LaneLayout,
    n_in: int,
    n_s: usize,
    n_d: usize,
    j: nat,
) -> Seq<T>
    decreases j,
{
    if j == 0 {
        dst
    } else {
        let prev = forward_lanes_from(f, zero, src, ls, dst, ld, n_in, n_s, n_d, (j - 1) as nat);
        let (b_s, b_d) = f(lane_of(ls, j - 1).read(src).subrange(0, n_in), n_s, n_d);
        lane_of(ld, j - 1).overwrite(prev, stacked(b_s, b_d, ld.lane_length, zero))
    }
}

/// Forward pass in place over lanes `0..j` of layout `l`: each lane in turn is overwritten
/// by the bands of its own first `n_in` samples, stacked as by [`forward_lanes_from`].
pub open spec fn forward_lanes<T>(
    f: BandSplit<T>,
    zero: T,
    data: Seq<T>,
    l: LaneLayout,
    n_in: int,
    n_s: usize,
    n_d: usize,
    j: nat,
) -> Seq<T>
    decreases j,
{
    if j == 0 {
        data
    } else {
        let prev = forward_lanes(f, zero, data, l, n_in, n_s, n_d, (j - 1) as nat);
        let lane = lane_of(l, j - 1);
        let (b_s, b_d) = f(lane.read(prev).subrange(0, n_in), n_s, n_d);
        lane.overwrite(prev, stacked(b_s, b_d, l.lane_length, zero))
    }
}

/// Inverse pass in place over lanes `0..j` of layout `l`: each lane in turn is overwritten
/// by the `n_out` samples reconstructed from its first `n_s` elements (approximation) and
/// its last `n_d` (detail).
pub open spec fn inverse_lanes<T>(
    g: BandJoin<T>,
    data: Seq<T>,
    l: LaneLayout,
    n_s: int,
    n_d: int,
    n_out: usize,
    j: nat,
) -> Seq<T>
    decreases j,
{
    if j == 0 {
        data
    } else {
        let prev = inverse_lanes(g, data, l, n_s, n_d, n_out, (j - 1) as nat);
        let lane = lane_of(l, j - 1);
        let v = lane.read(prev);
        let len = l.lane_length;
        lane.overwrite(
            prev,
            g(v.subrange(0, n_s), v.subrange(len - n_d, len), n_out),
        )
    }
}

/// Copy of lanes `0..j`: lane `k` of `dst` (layout `ld`) is overwritten by lane `k` of
/// `src` (layout `ls`).
pub open spec fn copy_lanes<T>(src: Seq<T>, ls: LaneLayout, dst: Seq<T>, ld: LaneLayout, j: nat) -> Seq<
    T,
>
    decreases j,
{
    if j == 0 {
        dst
    } else {
        let prev = copy_lanes(src, ls, dst, ld, (j - 1) as nat);
        lane_of(ld, j - 1).overwrite(prev, lane_of(ls, j - 1).read(src))
    }
}

/// Whether a forward pass from the lanes of an array of shape `src_shape` into a region
/// `sub` of an array of shape `dst_shape` fits: both lane grids are valid, the samples are
/// inside the source lanes and the bands inside the destination lanes.
pub open spec fn forward_from_fits(
    src_shape: Seq<usize>,
    dst_shape: Seq<usize>,
    sub: Seq<usize>,
    axis: int,
    n_in: int,
    n_s: int,
    n_d: int,
) -> bool {
    &&& lanes_ok(src_shape, axis)
    &&& sub_lanes_ok(dst_shape, sub, axis)
    &&& n_in <= src_shape[axis]
    &&& n_s + n_d <= sub[axis]
}

/// Result of a forward pass from `src` into `dst`: when it fits, the first
/// `min(#source lanes, #destination lanes)` lanes are transformed, pairing lanes in
/// row-major order; otherwise `dst` is left as it is.
pub open spec fn forward_pass_from<T>(
    f: BandSplit<T>,
    zero: T,
    src: Seq<T>,
    src_shape: Seq<usize>,
    dst: Seq<T>,
    dst_shape: Seq<usize>,
    sub: Seq<usize>,
    axis: int,
    n_in: int,
    n_s: usize,
    n_d: usize,
) -> Seq<T> {
    if forward_from_fits(src_shape, dst_shape, sub, axis, n_in, n_s as int, n_d as int) {
        let n_src = shape_prod(src_shape.remove(axis));
        let n_dst = shape_prod(sub.remove(axis));
        forward_lanes_from(
            f,
            zero,
            src,
            lane_layout(src_shape, axis),
            dst,
            sub_lane_layout(dst_shape, sub, axis),
            n_in,
            n_s,
            n_d,
            if n_src <= n_dst {
                n_src as nat
            } else {
                n_dst as nat
            },
        )
    } else {
        dst
    }
}

/// Whether an in-place pass over the lanes of region `sub` that reads `n_in` elements and
/// writes `n_out` fits inside the lanes.
pub open spec fn pass_fits(shape: Seq<usize>, sub: Seq<usize>, axis: int, n_in: int, n_out: int) -> bool {
    &&& sub_lanes_ok(shape, sub, axis)
    &&& n_in <= sub[axis]
    &&& n_out <= sub[axis]
}

/// Result of an in-place forward pass over region `sub` of `data`.
pub open spec fn forward_pass<T>(
    f: BandSplit<T>,
    zero: T,
    data: Seq<T>,
    shape: Seq<usize>,
    sub: Seq<usize>,
    axis: int,
    n_in: int,
    n_s: usize,
    n_d: usize,
) -> Seq<T> {
    if pass_fits(shape, sub, axis, n_in, n_s + n_d) {
        forward_lanes(
            f,
            zero,
            data,
            sub_lane_layout(shape, sub, axis),
            n_in,
            n_s,
            n_d,
            shape_prod(sub.remove(axis)) as nat,
        )
    } else {
        data
    }
}

/// Result of an in-place inverse pass over region `sub` of `data`.
pub open spec fn inverse_pass<T>(
    g: BandJoin<T>,
    data: Seq<T>,
    shape: Seq<usize>,
    sub: Seq<usize>,
    axis: int,
    n_s: int,
    n_d: int,
    n_out: usize,
) -> Seq<T> {
    if pass_fits(shape, sub, axis, n_s + n_d, n_out as int) {
        inverse_lanes(
            g,
            data,
            sub_lane_layout(shape, sub, axis),
            n_s,
            n_d,
            n_out,
            shape_prod(sub.remove(axis)) as nat,
        )
    } else {
        data
    }
}

/// Result of copying region `sub` of `src` (shape `src_shape`) into the whole of `dst`
/// (shape `sub`), lane by lane along `axis`.
pub open spec fn copy_region<T>(
    src: Seq<T>,
    src_shape: Seq<usize>,
    dst: Seq<T>,
    sub: Seq<usize>,
    axis: int,
) -> Seq<T> {
    if sub_lanes_ok(src_shape, sub, axis) && lanes_ok(sub, axis) {
        copy_lanes(
            src,
            sub_lane_layout(src_shape, sub, axis),
            dst,
            lane_layout(sub, axis),
            shape_prod(sub.remove(axis)) as nat,
        )
    } else {
        dst
    }
}

// ---------------------------------------------------------------------------------------
// Passes
// ---------------------------------------------------------------------------------------
/// The lane of `len` elements holding `s` at its start and `d` at its end, `zero` between.
fn stack_bands<T: Copy>(s: Vec<T>, d: Vec<T>, len: usize, zero: T) -> (r: Vec<T>)
    requires
        s@.len() + d@.len() <= len,
    ensures
        r@ == stacked(s@, d@, len as int, zero),
        r@.len() == len,
{
    let ghost s0 = s@;
    let mut r = s;
    let mut d = d;
    let n_mid = len - r.len() - d.len();
    let mut k: usize = 0;
    while k < n_mid
        invariant
            k <= n_mid,
            r@ == s0 + Seq::new(k as nat, |i: int| zero),
        decreases n_mid - k,
    {
        r.push(zero);
        proof {
            assert(r@ =~= s0 + Seq::new((k + 1) as nat, |i: int| zero));
        }
        k += 1;
    }
    r.append(&mut d);
    r
}

/// Forward pass from the lanes along `axis` of `src` (shape `src_shape`) into the lanes of
/// the leading region `sub` of `dst` (shape `dst_shape`): the first `n_in` samples of each
/// source lane go to `f`; the paired destination lane then holds the approximation band at
/// its start, the detail band at its end and `zero` in between.  A pass that does not fit
/// leaves `dst` as it is.
pub fn forward_lanes_into<T: Copy, F: Fn(&[T], usize, usize) -> (Vec<T>, Vec<T>)>(
    f: &F,
    zero: T,
    src: &[T],
    src_shape: &[usize],
    dst: &mut [T],
    dst_shape: &[usize],
    sub: &[usize],
    axis: usize,
    n_in: usize,
    n_s: usize,
    n_d: usize,
)
    requires
        forward_kernel(*f),
        src@.len() == shape_prod(src_shape@),
        old(dst)@.len() == shape_prod(dst_shape@),
    ensures
        final(dst)@.len() == old(dst)@.len(),
        forall|kk: BandSplit<T>| #[trigger] splits_by(*f, kk) ==> final(dst)@ == forward_pass_from(
 kk,
            zero,
            src@,
            src_shape@,
            old(dst)@,
            dst_shape@,
            sub@,
            axis as int,
            n_in as int,
            n_s,
            n_d,
        ),
{
    if !lanes_ok_exec(src_shape, axis) || !sub_lanes_ok_exec(dst_shape, sub, axis) {
        return;
    }
    if n_in > src_shape[axis] || n_s > sub[axis] || n_d > sub[axis] - n_s {
        return;
    }
    let n_src = lane_count(src_shape, axis);
    let n_dst = sub_lane_count(dst_shape, sub, axis);
    let n = if n_src <= n_dst {
        n_src
    } else {
        n_dst
    };
    let mut cs = LaneCursor::new_range(src_shape, axis, 0, n);
    let mut cd = LaneCursor::new_sub_range(dst_shape, sub, axis, 0, n);
    let ghost ls = lane_layout(src_shape@, axis as int);
    let ghost ld = sub_lane_layout(dst_shape@, sub@, axis as int);
    let mut k: usize = 0;
    while k < n
        invariant
            forward_kernel(*f),
            lanes_ok(src_shape@, axis as int),
            sub_lanes_ok(dst_shape@, sub@, axis as int),
            n_in <= src_shape@[axis as int],
            n_s + n_d <= sub@[axis as int],
            src@.len() == shape_prod(src_shape@),
            dst@.len() == shape_prod(dst_shape@),
            n <= shape_prod(src_shape@.remove(axis as int)),
            n <= shape_prod(sub@.remove(axis as int)),
            k <= n,
            ls == lane_layout(src_shape@, axis as int),
            ld == sub_lane_layout(dst_shape@, sub@, axis as int),
            cs.wf(),
            cs.layout() == ls,
            cs.lo() == k,
            cs.hi() == n,
            cd.wf(),
            cd.layout() == ld,
            cd.lo() == k,
            cd.hi() == n,
            forall|kk: BandSplit<T>| #[trigger] splits_by(*f, kk) ==> dst@ == forward_lanes_from(
 kk,
                zero,
                src@,
                ls,
                old(dst)@,
                ld,
                n_in as int,
                n_s,
                n_d,
                k as nat,
            ),
        decreases n - k,
    {
        let vs = cs.next().unwrap();
        let vd = cd.next().unwrap();
        proof {
            lemma_lane_in_bounds(src_shape@, axis as int, k as int);
            lemma_sub_lane_in_bounds(dst_shape@, sub@, axis as int, k as int);
        }
        let x = vs.read_prefix(src, n_in);
        let xs = x.as_slice();
        let r = f(xs, n_s, n_d);
        let ghost r0 = r.0@;
        let ghost r1 = r.1@;
        let ghost prev = dst@;
        let (s, d) = r;
        let vals = stack_bands(s, d, sub[axis], zero);
        vd.write_prefix(dst, &vals);
        proof {
            assert forall|kk: BandSplit<T>| #[trigger] splits_by(*f, kk) implies dst@
                == forward_lanes_from(
                kk,
                zero,
                src@,
                ls,
                old(dst)@,
                ld,
                n_in as int,
                n_s,
                n_d,
                (k + 1) as nat,
            ) by {
                assert(kk(xs@, n_s, n_d) == (r0, r1));
                assert(prev == forward_lanes_from(
                    kk,
                    zero,
                    src@,
                    ls,
                    old(dst)@,
                    ld,
                    n_in as int,
                    n_s,
                    n_d,
                    k as nat,
                ));
            }
        }
        k += 1;
    }
}

/// Forward pass in place over the lanes along `axis` of the leading region `sub` of `data`
/// (shape `shape`): the first `n_in` elements of each lane go to `f`, whose bands are then
/// stacked over the lane as by [`forward_lanes_into`].  A pass that does not fit leaves
/// `data` as it is.
pub fn forward_lanes_in_place<T: Copy, F: Fn(&[T], usize, usize) -> (Vec<T>, Vec<T>)>(
    f: &F,
    zero: T,
    data: &mut [T],
    shape: &[usize],
    sub: &[usize],
    axis: usize,
    n_in: usize,
    n_s: usize,
    n_d: usize,
)
    requires
        forward_kernel(*f),
        old(data)@.len() == shape_prod(shape@),
    ensures
        final(data)@.len() == old(data)@.len(),
        forall|kk: BandSplit<T>| #[trigger] splits_by(*f, kk) ==> final(data)@ == forward_pass(
 kk,
            zero,
            old(data)@,
            shape@,
            sub@,
            axis as int,
            n_in as int,
            n_s,
            n_d,
        ),
{
    if !sub_lanes_ok_exec(shape, sub, axis) {
        return;
    }
    if n_in > sub[axis] || n_s > sub[axis] || n_d > sub[axis] - n_s {
        return;
    }
    let n = sub_lane_count(shape, sub, axis);
    let mut c = LaneCursor::new_sub_range(shape, sub, axis, 0, n);
    let ghost l = sub_lane_layout(shape@, sub@, axis as int);
    let mut k: usize = 0;
    while k < n
        invariant
            forward_kernel(*f),
            sub_lanes_ok(shape@, sub@, axis as int),
            n_in <= sub@[axis as int],
            n_s + n_d <= sub@[axis as int],
            data@.len() == shape_prod(shape@),
            n == shape_prod(sub@.remove(axis as int)),
            k <= n,
            l == sub_lane_layout(shape@, sub@, axis as int),
            c.wf(),
            c.layout() == l,
            c.lo() == k,
            c.hi() == n,
            forall|kk: BandSplit<T>| #[trigger] splits_by(*f, kk) ==> data@ == forward_lanes(
 kk, zero, old(data)@, l, n_in as int, n_s, n_d, k as nat),
        decreases n - k,
    {
        let v = c.next().unwrap();
        proof {
            lemma_sub_lane_in_bounds(shape@, sub@, axis as int, k as int);
        }
        let x = v.read_prefix(data, n_in);
        let xs = x.as_slice();
        let r = f(xs, n_s, n_d);
        let ghost r0 = r.0@;
        let ghost r1 = r.1@;
        let ghost prev = data@;
        let (s, d) = r;
        let vals = stack_bands(s, d, sub[axis], zero);
        v.write_prefix(data, &vals);
        proof {
            assert forall|kk: BandSplit<T>| #[trigger] splits_by(*f, kk) implies data@
                == forward_lanes(kk, zero, old(data)@, l, n_in as int, n_s, n_d, (k + 1) as nat) by {
                assert(kk(xs@, n_s, n_d) == (r0, r1));
                assert(prev == forward_lanes(kk, zero, old(data)@, l, n_in as int, n_s, n_d, k as nat));
            }
        }
        k += 1;
    }
}

/// Inverse pass in place over the lanes along `axis` of the leading region `sub` of `data`
/// (shape `shape`): the first `n_s` elements of each lane (approximation) and its last
/// `n_d` (detail) go to `g`, whose `n_out` samples overwrite the lane's leading elements.  A pass that does not fit leaves `data` as it is.
pub fn inverse_lanes_in_place<T: Copy, G: Fn(&[T], &[T], usize) -> Vec<T>>(
    g: &G,
    data: &mut [T],
    shape: &[usize],
    sub: &[usize],
    axis: usize,
    n_s: usize,
    n_d: usize,
    n_out: usize,
)
    requires
        inverse_kernel(*g),
        old(data)@.len() == shape_prod(shape@),
    ensures
        final(data)@.len() == old(data)@.len(),
        forall|kk: BandJoin<T>| #[trigger] joins_by(*g, kk) ==> final(data)@ == inverse_pass(
 kk,
            old(data)@,
            shape@,
            sub@,
            axis as int,
            n_s as int,
            n_d as int,
            n_out,
        ),
{
    if !sub_lanes_ok_exec(shape, sub, axis) {
        return;
    }
    if n_s > sub[axis] || n_d > sub[axis] - n_s || n_out > sub[axis] {
        return;
    }
    let n = sub_lane_count(shape, sub, axis);
    let mut c = LaneCursor::new_sub_range(shape, sub, axis, 0, n);
    let ghost l = sub_lane_layout(shape@, sub@, axis as int);
    let mut k: usize = 0;
    while k < n
        invariant
            inverse_kernel(*g),
            sub_lanes_ok(shape@, sub@, axis as int),
            n_s + n_d <= sub@[axis as int],
            n_out <= sub@[axis as int],
            data@.len() == shape_prod(shape@),
            n == shape_prod(sub@.remove(axis as int)),
            k <= n,
            l == sub_lane_layout(shape@, sub@, axis as int),
            c.wf(),
            c.layout() == l,
            c.lo() == k,
            c.hi() == n,
            forall|kk: BandJoin<T>| #[trigger] joins_by(*g, kk) ==> data@ == inverse_lanes(
 kk, old(data)@, l, n_s as int, n_d as int, n_out, k as nat),
        decreases n - k,
    {
        let v = c.next().unwrap();
        proof {
            lemma_sub_lane_in_bounds(shape@, sub@, axis as int, k as int);
        }
        let len = sub[axis];
        let mut s = v.read_prefix(data, len);
        let mut rest = s.split_off(n_s);
        let d = rest.split_off(len - n_s - n_d);
        proof {
            assert(s@ =~= v.read(data@).subrange(0, n_s as int));
            assert(d@ =~= v.read(data@).subrange(len - n_d, len as int));
        }
        let ss = s.as_slice();
        let ds = d.as_slice();
        let x = g(ss, ds, n_out);
        let ghost prev = data@;
        v.write_prefix(data, &x);
        proof {
            assert forall|kk: BandJoin<T>| #[trigger] joins_by(*g, kk) implies data@
                == inverse_lanes(kk, old(data)@, l, n_s as int, n_d as int, n_out, (k + 1) as nat) by {
                assert(kk(ss@, ds@, n_out) == x@);
                assert(prev == inverse_lanes(kk, old(data)@, l, n_s as int, n_d as int, n_out, k as nat));
            }
        }
        k += 1;
    }
}

/// Copy the leading region `sub` of `src` (shape `src_shape`) into `dst`, an array of shape
/// `sub`, lane by lane along `axis`.  A copy whose lanes are not valid leaves `dst` as it is.
pub fn copy_region_into<T: Copy>(
    src: &[T],
    src_shape: &[usize],
    dst: &mut [T],
    sub: &[usize],
    axis: usize,
)
    requires
        src@.len() == shape_prod(src_shape@),
        old(dst)@.len() == shape_prod(sub@),
    ensures
        final(dst)@.len() == old(dst)@.len(),
        final(dst)@ == copy_region(src@, src_shape@, old(dst)@, sub@, axis as int),
{
    if !sub_lanes_ok_exec(src_shape, sub, axis) || !lanes_ok_exec(sub, axis) {
        return;
    }
    let n = sub_lane_count(src_shape, sub, axis);
    let mut cs = LaneCursor::new_sub_range(src_shape, sub, axis, 0, n);
    let mut cd = LaneCursor::new_range(sub, axis, 0, n);
    let ghost ls = sub_lane_layout(src_shape@, sub@, axis as int);
    let ghost ld = lane_layout(sub@, axis as int);
    let len = sub[axis];
    let mut k: usize = 0;
    while k < n
        invariant
            sub_lanes_ok(src_shape@, sub@, axis as int),
            lanes_ok(sub@, axis as int),
            len == sub@[axis as int],
            src@.len() == shape_prod(src_shape@),
            dst@.len() == shape_prod(sub@),
            n == shape_prod(sub@.remove(axis as int)),
            k <= n,
            ls == sub_lane_layout(src_shape@, sub@, axis as int),
            ld == lane_layout(sub@, axis as int),
            cs.wf(),
            cs.layout() == ls,
            cs.lo() == k,
            cs.hi() == n,
            cd.wf(),
            cd.layout() == ld,
            cd.lo() == k,
            cd.hi() == n,
            dst@ == copy_lanes(src@, ls, old(dst)@, ld, k as nat),
        decreases n - k,
    {
        let vs = cs.next().unwrap();
        let vd = cd.next().unwrap();
        proof {
            lemma_sub_lane_in_bounds(src_shape@, sub@, axis as int, k as int);
            lemma_lane_in_bounds(sub@, axis as int, k as int);
        }
        let x = vs.read_prefix(src, len);
        proof {
            assert(x@ =~= vs.read(src@));
        }
        vd.write_prefix(dst, &x);
        k += 1;
    }
}

// ---------------------------------------------------------------------------------------
// Lanes act independently
// ---------------------------------------------------------------------------------------
/// Lanes `0..j` of layout `l` of `data`, each in turn overwritten by `h` of its current
/// values.
pub open spec fn map_lanes<T>(data: Seq<T>, l: LaneLayout, h: spec_fn(Seq<T>) -> Seq<T>, j: nat) -> Seq<
    T,
>
    decreases j,
{
    if j == 0 {
        data
    } else {
        let prev = map_lanes(data, l, h, (j - 1) as nat);
        let lane = lane_of(l, j - 1);
        lane.overwrite(prev, h(lane.read(prev)))
    }
}

/// Lanes `0..j` of layout `l` of `dst`, each overwritten by `h` of the same lane of `src`.
pub open spec fn map_lanes_from<T>(
    src: Seq<T>,
    dst: Seq<T>,
    l: LaneLayout,
    h: spec_fn(Seq<T>) -> Seq<T>,
    j: nat,
) -> Seq<T>
    decreases j,
{
    if j == 0 {
        dst
    } else {
        let prev = map_lanes_from(src, dst, l, h, (j - 1) as nat);
        let lane = lane_of(l, j - 1);
        lane.overwrite(prev, h(lane.read(src)))
    }
}

/// The lanes `0..n` of layout `l` lie inside a buffer of length `len`, have a positive
/// stride, and never share an element.
pub open spec fn lanes_apart(l: LaneLayout, n: int, len: int) -> bool {
    &&& 0 < l.lane_stride <= usize::MAX
    &&& 0 <= l.lane_length <= usize::MAX
    &&& forall|k: int, i: int|
        0 <= k < n && 0 <= i < l.lane_length ==> 0 <= #[trigger] lane_of(l, k).index_of(i) < len
    &&& forall|k1: int, i1: int, k2: int, i2: int|
        0 <= k1 < n && 0 <= i1 < l.lane_length && 0 <= k2 < n && 0 <= i2 < l.lane_length
            && #[trigger] lane_of(l, k1).index_of(i1) == #[trigger] lane_of(l, k2).index_of(i2)
            ==> k1 == k2 && i1 == i2
}

/// Whether buffer index `p` is an element of one of the lanes `0..n` of layout `l`.
pub open spec fn in_lanes(l: LaneLayout, n: int, p: int) -> bool {
    exists|k: int, i: int|
        0 <= k < n && 0 <= i < l.lane_length && #[trigger] lane_of(l, k).index_of(i) == p
}

proof fn lemma_overwrite_at<T>(lane: StridedSliceRef, d: Seq<T>, vals: Seq<T>, i: int)
    requires
        lane.stride > 0,
        0 <= i < vals.len(),
        0 <= lane.index_of(i) < d.len(),
    ensures
        lane.overwrite(d, vals)[lane.index_of(i)] == vals[i],
{
    let s = lane.stride as int;
    let p = lane.index_of(i);
    assert(p - lane.start == s * i) by (nonlinear_arith)
        requires
            p == lane.start + i * s,
    ;
    lemma_fundamental_div_mod_converse(p - lane.start, s, i, 0);
    assert(0 <= s * i) by (nonlinear_arith)
        requires
            s > 0,
            i >= 0,
    ;
}

proof fn lemma_overwrite_off<T>(lane: StridedSliceRef, d: Seq<T>, vals: Seq<T>, p: int)
    requires
        lane.stride > 0,
        0 <= p < d.len(),
        forall|i: int| 0 <= i < vals.len() ==> #[trigger] lane.index_of(i) != p,
    ensures
        lane.overwrite(d, vals)[p] == d[p],
{
    if lane.covers(p, vals.len() as int) {
        let s = lane.stride as int;
        let k = (p - lane.start) / s;
        lemma_fundamental_div_mod(p - lane.start, s);
        assert(k >= 0) by (nonlinear_arith)
            requires
                p - lane.start >= 0,
                s > 0,
                k == (p - lane.start) / s,
        ;
        assert(k * s == s * k) by (nonlinear_arith);
        assert(lane.index_of(k) == p);
    }
}

/// A lane pass in place acts on each lane on its own: when the lanes lie apart and `h`
/// keeps lane lengths, element `i` of lane `k` ends up as element `i` of `h` of the lane's
/// original values, and entries outside the lanes keep their values.
pub proof fn lemma_map_lanes<T>(data: Seq<T>, l: LaneLayout, h: spec_fn(Seq<T>) -> Seq<T>, n: nat)
    requires
        lanes_apart(l, n as int, data.len() as int),
        forall|k: int| 0 <= k < n ==> #[trigger] h(lane_of(l, k).read(data)).len() == l.lane_length,
    ensures
        map_lanes(data, l, h, n).len() == data.len(),
        forall|k: int, i: int|
            0 <= k < n && 0 <= i < l.lane_length ==> map_lanes(data, l, h, n)[#[trigger] lane_of(
                l,
                k,
            ).index_of(i)] == h(lane_of(l, k).read(data))[i],
        forall|p: int|
            0 <= p < data.len() && !in_lanes(l, n as int, p) ==> #[trigger] map_lanes(
                data,
                l,
                h,
                n,
            )[p] == data[p],
    decreases n,
{
    if n > 0 {
        let m = (n - 1) as nat;
        lemma_map_lanes(data, l, h, m);
        let prev = map_lanes(data, l, h, m);
        let lane = lane_of(l, m as int);
        assert(lane.read(prev) =~= lane.read(data)) by {
            assert forall|i: int| 0 <= i < lane.length implies lane.read(prev)[i] == lane.read(
                data,
            )[i] by {
                let p = lane.index_of(i);
                assert(0 <= p < data.len());
                assert(!in_lanes(l, m as int, p)) by {
                    if in_lanes(l, m as int, p) {
                        let (k2, i2) = choose|k2: int, i2: int|
                            0 <= k2 < m && 0 <= i2 < l.lane_length && #[trigger] lane_of(
                                l,
                                k2,
                            ).index_of(i2) == p;
                        assert(k2 == m as int);
                    }
                }
            }
        }
        let vals = h(lane.read(prev));
        assert(vals.len() == l.lane_length);
        let cur = map_lanes(data, l, h, n);
        assert(cur == lane.overwrite(prev, vals));
        assert forall|k: int, i: int| 0 <= k < n && 0 <= i < l.lane_length implies cur[#[trigger] lane_of(
            l,
            k,
        ).index_of(i)] == h(lane_of(l, k).read(data))[i] by {
            let p = lane_of(l, k).index_of(i);
            if k == m as int {
                lemma_overwrite_at(lane, prev, vals, i);
            } else {
                assert forall|i2: int| 0 <= i2 < vals.len() implies #[trigger] lane.index_of(i2)
                    != p by {
                    if lane.index_of(i2) == p {
                        assert(lane_of(l, m as int).index_of(i2) == lane_of(l, k).index_of(i));
                    }
                }
                lemma_overwrite_off(lane, prev, vals, p);
            }
        }
        assert forall|p: int| 0 <= p < data.len() && !in_lanes(l, n as int, p) implies #[trigger] cur[p]
            == data[p] by {
            assert(!in_lanes(l, m as int, p)) by {
                if in_lanes(l, m as int, p) {
                    let (k2, i2) = choose|k2: int, i2: int|
                        0 <= k2 < m && 0 <= i2 < l.lane_length && #[trigger] lane_of(l, k2).index_of(
                            i2,
                        ) == p;
                    assert(0 <= k2 < n && lane_of(l, k2).index_of(i2) == p);
                }
            }
            assert forall|i2: int| 0 <= i2 < vals.len() implies #[trigger] lane.index_of(i2) != p by {
                if lane.index_of(i2) == p {
                    assert(lane_of(l, m as int).index_of(i2) == p);
                }
            }
            lemma_overwrite_off(lane, prev, vals, p);
        }
    }
}

/// A lane pass from a source acts on each lane on its own: element `i` of lane `k` ends up
/// as element `i` of `h` of the source lane, and entries outside the lanes keep their
/// values.
pub proof fn lemma_map_lanes_from<T>(
    src: Seq<T>,
    dst: Seq<T>,
    l: LaneLayout,
    h: spec_fn(Seq<T>) -> Seq<T>,
    n: nat,
)
    requires
        lanes_apart(l, n as int, dst.len() as int),
        forall|k: int| 0 <= k < n ==> #[trigger] h(lane_of(l, k).read(src)).len() == l.lane_length,
    ensures
        map_lanes_from(src, dst, l, h, n).len() == dst.len(),
        forall|k: int, i: int|
            0 <= k < n && 0 <= i < l.lane_length ==> map_lanes_from(src, dst, l, h, n)[#[trigger] lane_of(
                l,
                k,
            ).index_of(i)] == h(lane_of(l, k).read(src))[i],
        forall|p: int|
            0 <= p < dst.len() && !in_lanes(l, n as int, p) ==> #[trigger] map_lanes_from(
                src,
                dst,
                l,
                h,
                n,
            )[p] == dst[p],
    decreases n,
{
    if n > 0 {
        let m = (n - 1) as nat;
        lemma_map_lanes_from(src, dst, l, h, m);
        let prev = map_lanes_from(src, dst, l, h, m);
        let lane = lane_of(l, m as int);
        let vals = h(lane.read(src));
        let cur = map_lanes_from(src, dst, l, h, n);
        assert(cur == lane.overwrite(prev, vals));
        assert forall|k: int, i: int| 0 <= k < n && 0 <= i < l.lane_length implies cur[#[trigger] lane_of(
            l,
            k,
        ).index_of(i)] == h(lane_of(l, k).read(src))[i] by {
            let p = lane_of(l, k).index_of(i);
            if k == m as int {
                lemma_overwrite_at(lane, prev, vals, i);
            } else {
                assert forall|i2: int| 0 <= i2 < vals.len() implies #[trigger] lane.index_of(i2)
                    != p by {
                    if lane.index_of(i2) == p {
                        assert(lane_of(l, m as int).index_of(i2) == lane_of(l, k).index_of(i));
                    }
                }
                lemma_overwrite_off(lane, prev, vals, p);
            }
        }
        assert forall|p: int| 0 <= p < dst.len() && !in_lanes(l, n as int, p) implies #[trigger] cur[p]
            == dst[p] by {
            assert(!in_lanes(l, m as int, p)) by {
                if in_lanes(l, m as int, p) {
                    let (k2, i2) = choose|k2: int, i2: int|
                        0 <= k2 < m && 0 <= i2 < l.lane_length && #[trigger] lane_of(l, k2).index_of(
                            i2,
                        ) == p;
                    assert(0 <= k2 < n && lane_of(l, k2).index_of(i2) == p);
                }
            }
            assert forall|i2: int| 0 <= i2 < vals.len() implies #[trigger] lane.index_of(i2) != p by {
                if lane.index_of(i2) == p {
                    assert(lane_of(l, m as int).index_of(i2) == p);
                }
            }
            lemma_overwrite_off(lane, prev, vals, p);
        }
    }
}

/// A lane copy between equal layouts is a lane pass with the identity.
pub proof fn lemma_copy_lanes_map<T>(src: Seq<T>, dst: Seq<T>, l: LaneLayout, j: nat)
    ensures
        copy_lanes(src, l, dst, l, j) == map_lanes_from(src, dst, l, |v: Seq<T>| v, j),
    decreases j,
{
    if j > 0 {
        lemma_copy_lanes_map(src, dst, l, (j - 1) as nat);
    }
}

/// Copying the whole of an array region by region gives the source back.
pub proof fn lemma_copy_whole<T>(src: Seq<T>, dst: Seq<T>, shape: Seq<usize>, axis: int)
    requires
        lanes_ok(shape, axis),
        src.len() == shape_prod(shape),
        dst.len() == shape_prod(shape),
    ensures
        copy_region(src, shape, dst, shape, axis) == src,
{
    let l = sub_lane_layout(shape, shape, axis);
    let n = shape_prod(shape.remove(axis));
    assert(l == lane_layout(shape, axis));
    assert(sub_lanes_ok(shape, shape, axis));
    lemma_sub_lanes_apart(shape, shape, axis);
    crate::iter::slice::lemma_sub_lanes_nonempty(shape, shape, axis);
    lemma_copy_lanes_map(src, dst, l, n as nat);
    let id = |v: Seq<T>| v;
    lemma_map_lanes_from(src, dst, l, id, n as nat);
    let r = map_lanes_from(src, dst, l, id, n as nat);
    assert forall|p: int| 0 <= p < src.len() implies r[p] == src[p] by {
        lemma_sub_lanes_cover(shape, axis, p);
        let (k, i) = choose|k: int, i: int|
            0 <= k < n && 0 <= i < shape[axis] && #[trigger] lane_of(l, k).index_of(i) == p;
        assert(r[lane_of(l, k).index_of(i)] == id(lane_of(l, k).read(src))[i]);
    }
    assert(r =~= src);
}

/// The lanes of a valid region lie apart inside the array.
pub proof fn lemma_sub_lanes_apart(shape: Seq<usize>, sub: Seq<usize>, axis: int)
    requires
        sub_lanes_ok(shape, sub, axis),
    ensures
        lanes_apart(
            sub_lane_layout(shape, sub, axis),
            shape_prod(sub.remove(axis)),
            shape_prod(shape),
        ),
{
    lemma_sub_lanes_disjoint(shape, sub, axis);
    crate::iter::slice::lemma_sub_lanes_nonempty(shape, sub, axis);
    lemma_sub_lane_in_bounds(shape, sub, axis, 0);
}

/// Lanes `0..j` of layout `l` of `dst`, lane `k` overwritten by `vals(k)`.
pub open spec fn fill_lanes<T>(dst: Seq<T>, l: LaneLayout, vals: spec_fn(int) -> Seq<T>, j: nat) -> Seq<
    T,
>
    decreases j,
{
    if j == 0 {
        dst
    } else {
        lane_of(l, j - 1).overwrite(fill_lanes(dst, l, vals, (j - 1) as nat), vals(j - 1))
    }
}

/// Filling lanes that lie apart with values of the lane length puts `vals(k)[i]` at
/// element `i` of lane `k` and leaves the entries outside the lanes as they were.
pub proof fn lemma_fill_lanes<T>(dst: Seq<T>, l: LaneLayout, vals: spec_fn(int) -> Seq<T>, n: nat)
    requires
        lanes_apart(l, n as int, dst.len() as int),
        forall|k: int| 0 <= k < n ==> #[trigger] vals(k).len() == l.lane_length,
    ensures
        fill_lanes(dst, l, vals, n).len() == dst.len(),
        forall|k: int, i: int|
            0 <= k < n && 0 <= i < l.lane_length ==> fill_lanes(dst, l, vals, n)[#[trigger] lane_of(
                l,
                k,
            ).index_of(i)] == vals(k)[i],
        forall|p: int|
            0 <= p < dst.len() && !in_lanes(l, n as int, p) ==> #[trigger] fill_lanes(
                dst,
                l,
                vals,
                n,
            )[p] == dst[p],
    decreases n,
{
    if n > 0 {
        let m = (n - 1) as nat;
        lemma_fill_lanes(dst, l, vals, m);
        let prev = fill_lanes(dst, l, vals, m);
        let lane = lane_of(l, m as int);
        let v = vals(m as int);
        let cur = fill_lanes(dst, l, vals, n);
        assert forall|k: int, i: int| 0 <= k < n && 0 <= i < l.lane_length implies cur[#[trigger] lane_of(
            l,
            k,
        ).index_of(i)] == vals(k)[i] by {
            let p = lane_of(l, k).index_of(i);
            if k == m as int {
                lemma_overwrite_at(lane, prev, v, i);
            } else {
                assert forall|i2: int| 0 <= i2 < v.len() implies #[trigger] lane.index_of(i2) != p by {
                    if lane.index_of(i2) == p {
                        assert(lane_of(l, m as int).index_of(i2) == lane_of(l, k).index_of(i));
                    }
                }
                lemma_overwrite_off(lane, prev, v, p);
            }
        }
        assert forall|p: int| 0 <= p < dst.len() && !in_lanes(l, n as int, p) implies #[trigger] cur[p]
            == dst[p] by {
            assert(!in_lanes(l, m as int, p)) by {
                if in_lanes(l, m as int, p) {
                    let (k2, i2) = choose|k2: int, i2: int|
                        0 <= k2 < m && 0 <= i2 < l.lane_length && #[trigger] lane_of(l, k2).index_of(
                            i2,
                        ) == p;
                    assert(0 <= k2 < n && lane_of(l, k2).index_of(i2) == p);
                }
            }
            assert forall|i2: int| 0 <= i2 < v.len() implies #[trigger] lane.index_of(i2) != p by {
                if lane.index_of(i2) == p {
                    assert(lane_of(l, m as int).index_of(i2) == p);
                }
            }
            lemma_overwrite_off(lane, prev, v, p);
        }
    }
}

/// A forward pass from a source fills each destination lane with the stacked bands of the
/// paired source lane.
pub proof fn lemma_forward_lanes_from_fill<T>(
    f: BandSplit<T>,
    zero: T,
    src: Seq<T>,
    ls: LaneLayout,
    dst: Seq<T>,
    ld: LaneLayout,
    n_in: int,
    n_s: usize,
    n_d: usize,
    j: nat,
)
    ensures
        forward_lanes_from(f, zero, src, ls, dst, ld, n_in, n_s, n_d, j) == fill_lanes(
            dst,
            ld,
            |k: int|
                {
                    let (b_s, b_d) = f(lane_of(ls, k).read(src).subrange(0, n_in),
                        n_s,
                        n_d,
                    );
                    stacked(b_s, b_d, ld.lane_length, zero)
                },
            j,
        ),
    decreases j,
{
    if j > 0 {
        lemma_forward_lanes_from_fill(f, zero, src, ls, dst, ld, n_in, n_s, n_d, (j - 1) as nat);
    }
}

/// A lane copy fills each destination lane with the paired source lane.
pub proof fn lemma_copy_lanes_fill<T>(src: Seq<T>, ls: LaneLayout, dst: Seq<T>, ld: LaneLayout, j: nat)
    ensures
        copy_lanes(src, ls, dst, ld, j) == fill_lanes(dst, ld, |k: int| lane_of(ls, k).read(src), j),
    decreases j,
{
    if j > 0 {
        lemma_copy_lanes_fill(src, ls, dst, ld, (j - 1) as nat);
    }
}

/// Overwriting the start of a lane is overwriting the whole lane with those values followed
/// by the rest of the lane as it was.
pub proof fn lemma_overwrite_pad<T>(lane: StridedSliceRef, d: Seq<T>, vals: Seq<T>)
    requires
        lane.stride > 0,
        vals.len() <= lane.length,
        forall|i: int| 0 <= i < lane.length ==> 0 <= #[trigger] lane.index_of(i) < d.len(),
    ensures
        lane.overwrite(d, vals) == lane.overwrite(
            d,
            vals + lane.read(d).subrange(vals.len() as int, lane.length as int),
        ),
{
    let padded = vals + lane.read(d).subrange(vals.len() as int, lane.length as int);
    let s = lane.stride as int;
    assert forall|i1: int, i2: int|
        0 <= i1 < lane.length && 0 <= i2 < lane.length && #[trigger] lane.index_of(i1)
            == #[trigger] lane.index_of(i2) implies i1 == i2 by {
        assert(i1 * s == i2 * s);
        if i1 < i2 {
            assert(i1 * s < i2 * s) by (nonlinear_arith)
                requires
                    i1 < i2,
                    s > 0,
            ;
        } else if i2 < i1 {
            assert(i2 * s < i1 * s) by (nonlinear_arith)
                requires
                    i2 < i1,
                    s > 0,
            ;
        }
    }
    let a = lane.overwrite(d, vals);
    let b = lane.overwrite(d, padded);
    assert forall|p: int| 0 <= p < d.len() implies a[p] == b[p] by {
        if exists|i: int| 0 <= i < lane.length && #[trigger] lane.index_of(i) == p {
            let i = choose|i: int| 0 <= i < lane.length && #[trigger] lane.index_of(i) == p;
            lemma_overwrite_at(lane, d, padded, i);
            if i < vals.len() {
                lemma_overwrite_at(lane, d, vals, i);
            } else {
                assert forall|i2: int| 0 <= i2 < vals.len() implies #[trigger] lane.index_of(i2)
                    != p by {}
                lemma_overwrite_off(lane, d, vals, p);
            }
        } else {
            lemma_overwrite_off(lane, d, vals, p);
            lemma_overwrite_off(lane, d, padded, p);
        }
    }
    assert(a =~= b);
}

/// An inverse pass in place is a lane pass whose lanes keep, past the reconstructed
/// samples, the values they had, when every lane gets at most a lane of samples.
pub proof fn lemma_inverse_lanes_padded<T>(
    g: BandJoin<T>,
    data: Seq<T>,
    l: LaneLayout,
    n_s: int,
    n_d: int,
    n_out: usize,
    n: nat,
)
    requires
        lanes_apart(l, n as int, data.len() as int),
        n_out <= l.lane_length,
        forall|k: int|
            0 <= k < n ==> #[trigger] g(lane_of(l, k).read(data).subrange(0, n_s),
                lane_of(l, k).read(data).subrange(l.lane_length - n_d, l.lane_length),
                n_out,
            ).len() == n_out,
    ensures
        inverse_lanes(g, data, l, n_s, n_d, n_out, n) == map_lanes(
            data,
            l,
            |v: Seq<T>|
                g(v.subrange(0, n_s),
                    v.subrange(l.lane_length - n_d, l.lane_length),
                    n_out,
                ) + v.subrange(n_out as int, l.lane_length),
            n,
        ),
    decreases n,
{
    let len = l.lane_length;
    let h = |v: Seq<T>|
        g(v.subrange(0, n_s), v.subrange(len - n_d, len), n_out) + v.subrange(
            n_out as int,
            len,
        );
    if n > 0 {
        let m = (n - 1) as nat;
        lemma_inverse_lanes_padded(g, data, l, n_s, n_d, n_out, m);
        assert forall|k: int| 0 <= k < m implies #[trigger] h(lane_of(l, k).read(data)).len() == len by {
            let v = lane_of(l, k).read(data);
            assert(g(v.subrange(0, n_s), v.subrange(len - n_d, len), n_out).len()
                == n_out);
        }
        lemma_map_lanes(data, l, h, m);
        let prev = map_lanes(data, l, h, m);
        let lane = lane_of(l, m as int);
        assert(lane.read(prev) =~= lane.read(data)) by {
            assert forall|i: int| 0 <= i < lane.length implies lane.read(prev)[i] == lane.read(
                data,
            )[i] by {
                let p = lane.index_of(i);
                assert(!in_lanes(l, m as int, p)) by {
                    if in_lanes(l, m as int, p) {
                        let (k2, i2) = choose|k2: int, i2: int|
                            0 <= k2 < m && 0 <= i2 < l.lane_length && #[trigger] lane_of(
                                l,
                                k2,
                            ).index_of(i2) == p;
                        assert(k2 == m as int);
                    }
                }
            }
        }
        let v = lane.read(prev);
        let w = g(v.subrange(0, n_s), v.subrange(len - n_d, len), n_out);
        assert(w.len() == n_out);
        assert forall|i: int| 0 <= i < lane.length implies 0 <= #[trigger] lane.index_of(i)
            < prev.len() by {
            assert(lane_of(l, m as int).index_of(i) == lane.index_of(i));
        }
        lemma_overwrite_pad(lane, prev, w);
    }
}

/// Copying a region puts at each multi-index of the region the source entry with the same
/// multi-index.
pub proof fn lemma_copy_region_at<T>(
    src: Seq<T>,
    src_shape: Seq<usize>,
    dst: Seq<T>,
    sub: Seq<usize>,
    axis: int,
    q: Seq<usize>,
)
    requires
        sub_lanes_ok(src_shape, sub, axis),
        lanes_ok(sub, axis),
        src.len() == shape_prod(src_shape),
        dst.len() == shape_prod(sub),
        in_shape(q, sub),
    ensures
        copy_region(src, src_shape, dst, sub, axis).len() == dst.len(),
        copy_region(src, src_shape, dst, sub, axis)[dot(q, row_strides(sub))] == src[dot(
            q,
            row_strides(src_shape),
        )],
{
    let ls = sub_lane_layout(src_shape, sub, axis);
    let ld = lane_layout(sub, axis);
    let n = shape_prod(sub.remove(axis));
    assert(sub_lanes_ok(sub, sub, axis));
    assert(sub_lane_layout(sub, sub, axis) == ld);
    lemma_sub_lanes_apart(sub, sub, axis);
    crate::iter::slice::lemma_sub_lanes_nonempty(sub, sub, axis);
    lemma_copy_lanes_fill(src, ls, dst, ld, n as nat);
    let vals = |k: int| lane_of(ls, k).read(src);
    lemma_fill_lanes(dst, ld, vals, n as nat);
    lemma_region_lane(sub, axis, q);
    let k = dot(q.remove(axis), row_strides(sub.remove(axis)));
    let i = q[axis] as int;
    lemma_sub_lane_element(sub, sub, axis, k, i);
    lemma_sub_lane_element(src_shape, sub, axis, k, i);
    assert(fill_lanes(dst, ld, vals, n as nat)[lane_of(ld, k).index_of(i)] == vals(k)[i]);
}

/// Writing through the lanes along `axis`, lane after lane, and reading them back in the
/// same order gives what was written: lane `k` receives elements `k * len .. (k + 1) * len`
/// of `vals` (`len` the lane length), the lanes read one after the other give `vals`
/// again, and every entry of the array holds exactly one element of `vals`.  The `k`-th
/// lane that `MutLaneSliceIter::next` hands out for writing and the `k`-th lane that
/// `LaneSliceIter::next` hands out for reading are both `lane_of(lane_layout(shape, axis),
/// k)` (their `ensures`), so this is the law of writing through the one and reading
/// through the other.
pub proof fn lemma_write_read_lanes<T>(arr: Seq<T>, shape: Seq<usize>, axis: int, vals: Seq<T>)
    requires
        lanes_ok(shape, axis),
        arr.len() == shape_prod(shape),
        vals.len() == shape_prod(shape),
    ensures
        ({
            let l = lane_layout(shape, axis);
            let len = shape[axis] as int;
            let n = shape_prod(shape.remove(axis));
            let res = fill_lanes(
                arr,
                l,
                |k: int| vals.subrange(k * len, k * len + len),
                n as nat,
            );
            &&& res.len() == arr.len()
            &&& Seq::new(vals.len(), |q: int| lane_of(l, q / len).read(res)[q % len]) == vals
            &&& forall|k: int, i: int|
                0 <= k < n && 0 <= i < len ==> res[#[trigger] lane_of(l, k).index_of(i)] == vals[k
                    * len + i]
        }),
{
    let l = lane_layout(shape, axis);
    let len = shape[axis] as int;
    let n = shape_prod(shape.remove(axis));
    let f = |k: int| vals.subrange(k * len, k * len + len);
    crate::iter::slice::lemma_prod_remove(shape, axis);
    assert(sub_lanes_ok(shape, shape, axis));
    assert(sub_lane_layout(shape, shape, axis) == l);
    lemma_sub_lanes_apart(shape, shape, axis);
    crate::iter::slice::lemma_sub_lanes_nonempty(shape, shape, axis);
    assert forall|k: int| 0 <= k < n implies #[trigger] f(k).len() == l.lane_length by {
        assert((k + 1) * len <= n * len) by (nonlinear_arith)
            requires
                0 <= k < n,
                len >= 0,
        ;
        assert(k * len >= 0) by (nonlinear_arith)
            requires
                0 <= k,
                len >= 0,
        ;
        assert((k + 1) * len == k * len + len) by (nonlinear_arith);
    }
    lemma_fill_lanes(arr, l, f, n as nat);
    let res = fill_lanes(arr, l, f, n as nat);
    let back = Seq::new(vals.len(), |q: int| lane_of(l, q / len).read(res)[q % len]);
    assert forall|q: int| 0 <= q < vals.len() implies back[q] == vals[q] by {
        assert(len > 0) by {
            if len == 0 {
                assert(n * len == 0) by (nonlinear_arith)
                    requires
                        len == 0,
                ;
            }
        }
        lemma_fundamental_div_mod(q, len);
        let k = q / len;
        let i = q % len;
        assert(0 <= k < n) by (nonlinear_arith)
            requires
                q == len * k + i,
                0 <= i < len,
                0 <= q < n * len,
        ;
        assert(k * len == len * k) by (nonlinear_arith);
        assert(res[lane_of(l, k).index_of(i)] == f(k)[i]);
        assert(lane_of(l, k).read(res)[i] == res[lane_of(l, k).index_of(i)]);
        assert(0 <= k * len && k * len + len <= n * len) by (nonlinear_arith)
            requires
                0 <= k < n,
                len > 0,
        ;
        assert(f(k)[i] == vals[k * len + i]);
        assert(back[q] == lane_of(l, k).read(res)[i]);
    }
    assert(back =~= vals);
    assert forall|k: int, i: int| 0 <= k < n && 0 <= i < len implies res[#[trigger] lane_of(
        l,
        k,
    ).index_of(i)] == vals[k * len + i] by {
        assert(0 <= k * len && k * len + len <= n * len) by (nonlinear_arith)
            requires
                0 <= k < n,
                0 <= i < len,
        ;
        assert(res[lane_of(l, k).index_of(i)] == f(k)[i]);
    }
    assert(res == fill_lanes(arr, l, |k: int| vals.subrange(k * len, k * len + len), n as nat));
}

} // verus!
