//! Reconstruction along one axis in non-periodic mode.
//!
//! A non-periodic decomposition of `level` levels along one axis leaves in each lane of the
//! coefficient array the approximation of the last level at the lane's start and the
//! detail band of every level in a slot of its own further along, the detail of level
//! `j + 1` just before the slot of level `j`.  The inverse passes rebuild the
//! approximations, coarsest first, each from the approximation at the lane's start and the
//! detail in its slot; the signal is then copied out of the leading samples of the lanes.
use crate::dwt::driver::{
    band_lengths, detail_total, forward_lane, lemma_forward_lanes_map, forward_level, forward_levels, inverse_level_passes,
    forward_plan, inverse_level_shapes, inverse_level_state, inverse_plan, inverse_plan_levels,
    lemma_run_inverse_prepend, min_stride_axis, outlen_iter, run_forward, run_inverse, sat_sub,
    shrink_level, transformed_len, PassModel,
};
use crate::dwt::fits::{
    lemma_detail_total_nonneg, lemma_outlen_iter_pos, lemma_rest_holds_bands, rest_len,
};
use crate::dwt::lanes::{
    copy_region, fill_lanes, BandSplit, lemma_copy_region_at, forward_from_fits, forward_pass, forward_pass_from, in_lanes,
    inverse_pass, BandJoin, lanes_apart, lemma_fill_lanes, lemma_forward_lanes_from_fill,
    lemma_inverse_lanes_padded, lemma_map_lanes, lemma_sub_lanes_apart, map_lanes, pass_fits,
    stacked,
};
use crate::iter::slice::{
    all_positive, dot, lane_layout, lane_of, lanes_ok, lemma_flat_multi, lemma_lanes_ok_from_len,
    lemma_prod_pos, lemma_region_lane, lemma_sub_lane_element, lemma_sub_lanes_disjoint,
    lemma_sub_lanes_nonempty, row_strides, sub_lane_layout, sub_lanes_ok, unravel_spec,
};
use crate::utils::shape_prod;
use crate::dwt::outlen_spec;
use vstd::prelude::*;

verus! {

// ---------------------------------------------------------------------------------------
// One lane
// ---------------------------------------------------------------------------------------
/// Sample map `g` undoes band map `f` on non-periodic bands: asked for two bands of the non-periodic sub-band
/// length of any samples, `f` gives bands of that length, from which `g` rebuilds the
/// samples.
pub open spec fn bands_inverse<T>(f: BandSplit<T>, g: BandJoin<T>, width: int) -> bool {
    forall|x: Seq<T>, n_b: usize|
        x.len() <= usize::MAX && n_b == outlen_spec(width, x.len() as int) ==> {
            let (s, d) = #[trigger] f(x, n_b, n_b);
            &&& s.len() == n_b
            &&& d.len() == n_b
            &&& g(s, d, x.len() as usize) == x
        }
}

/// Every one of `level` levels over `n` samples leaves more than one approximation
/// coefficient.
pub open spec fn levels_active(width: int, n: int, level: nat) -> bool {
    &&& width >= 2
    &&& n >= 1
    &&& level >= 1
    &&& forall|j: nat| 1 <= j <= level ==> #[trigger] outlen_iter(width, n, j) > 1
}

/// Approximation of samples `x` after `j` levels.
pub open spec fn approx_at<T>(
    f: BandSplit<T>,
    width: int,
    x: Seq<T>,
    j: nat,
) -> Seq<T>
    decreases j,
{
    if j == 0 {
        x
    } else {
        let a = approx_at(f, width, x, (j - 1) as nat);
        let o = outlen_spec(width, a.len() as int) as usize;
        f(a, o, o).0
    }
}

/// Detail band of level `j` (counted from one) of samples `x`.
pub open spec fn detail_at<T>(
    f: BandSplit<T>,
    width: int,
    x: Seq<T>,
    j: nat,
) -> Seq<T> {
    let a = approx_at(f, width, x, (j - 1) as nat);
    let o = outlen_spec(width, a.len() as int) as usize;
    f(a, o, o).1
}

/// Value that the first `j` levels of a `level`-level decomposition of `x` leave at
/// position `p` of a lane, past the approximation: the detail of the level whose slot
/// holds `p`.
pub open spec fn detail_value<T>(
    f: BandSplit<T>,
    width: int,
    x: Seq<T>,
    level: nat,
    j: nat,
    p: int,
) -> T
    decreases j,
{
    let n = x.len() as int;
    if j == 0 {
        arbitrary()
    } else if p >= rest_len(width, n, (j - 1) as nat, level) {
        detail_value(f, width, x, level, (j - 1) as nat, p)
    } else {
        detail_at(f, width, x, j)[p - rest_len(width, n, j, level)]
    }
}

/// Value that the first `j` levels leave at position `p` of a lane.
pub open spec fn expected_value<T>(
    f: BandSplit<T>,
    width: int,
    x: Seq<T>,
    level: nat,
    j: nat,
    p: int,
) -> T {
    if p < outlen_iter(width, x.len() as int, j) {
        approx_at(f, width, x, j)[p]
    } else {
        detail_value(f, width, x, level, j, p)
    }
}

/// Lane `v` of a `level`-level coefficient array holds what the first `j` levels of
/// samples `x` leave in it: the approximation at its start and the details of those
/// levels in their slots.
pub open spec fn lane_holds<T>(
    f: BandSplit<T>,
    width: int,
    x: Seq<T>,
    level: nat,
    v: Seq<T>,
    j: nat,
) -> bool {
    let n = x.len() as int;
    &&& v.len() == transformed_len(width, n, level)
    &&& forall|p: int|
        0 <= p < v.len() && (p < outlen_iter(width, n, j) || rest_len(width, n, j, level) <= p)
            ==> #[trigger] v[p] == expected_value(f, width, x, level, j, p)
}

/// Lengths of the approximation and of the part of a lane that level `j + 1` works on.
proof fn lemma_bounds(width: int, n: int, level: nat, j: nat)
    requires
        levels_active(width, n, level),
        j <= level,
    ensures
        1 <= outlen_iter(width, n, j) <= rest_len(width, n, j, level),
        rest_len(width, n, j, level) <= transformed_len(width, n, level),
        rest_len(width, n, 0, level) == transformed_len(width, n, level),
        j < level ==> {
            &&& outlen_iter(width, n, j + 1) == outlen_spec(width, outlen_iter(width, n, j))
            &&& outlen_iter(width, n, j + 1) > 1
            &&& rest_len(width, n, j, level) >= 2 * outlen_iter(width, n, j + 1)
            &&& rest_len(width, n, j + 1, level) == rest_len(width, n, j, level) - outlen_iter(
                width,
                n,
                j + 1,
            )
            &&& rest_len(width, n, j + 1, level) >= outlen_iter(width, n, j + 1)
        },
        j == level ==> rest_len(width, n, j, level) == outlen_iter(width, n, j),
{
    lemma_outlen_iter_pos(width, n, j);
    lemma_detail_total_nonneg(width, n, j);
    assert(detail_total(width, n, 0) == 0);
    if j < level {
        lemma_rest_holds_bands(width, n, j, level);
        assert(outlen_iter(width, n, (j + 1) as nat) > 1);
        assert(detail_total(width, n, (j + 1) as nat) == detail_total(width, n, j) + outlen_iter(
            width,
            n,
            (j + 1) as nat,
        ));
        if j + 1 < level {
            lemma_rest_holds_bands(width, n, (j + 1) as nat, level);
        } else {
            assert(detail_total(width, n, level) + outlen_iter(width, n, level) == transformed_len(
                width,
                n,
                level,
            ));
        }
    } else {
        assert(detail_total(width, n, level) + outlen_iter(width, n, level) == transformed_len(
            width,
            n,
            level,
        ));
    }
}

/// The bands of each level have the non-periodic sub-band length, and the inverse kernel
/// rebuilds each approximation from the next approximation and detail.
proof fn lemma_levels_bands<T>(f: BandSplit<T>, g: BandJoin<T>, width: int, x: Seq<T>, level: nat, j: nat)
    requires
        bands_inverse(f, g, width),
        levels_active(width, x.len() as int, level),
        transformed_len(width, x.len() as int, level) <= usize::MAX,
        j <= level,
    ensures
        approx_at(f, width, x, j).len() == outlen_iter(width, x.len() as int, j),
        j >= 1 ==> {
            let o = outlen_iter(width, x.len() as int, j) as usize;
            &&& detail_at(f, width, x, j).len() == o
            &&& f(approx_at(f, width, x, (j - 1) as nat), o, o) == (
                approx_at(f, width, x, j),
                detail_at(f, width, x, j),
            )
            &&& g(approx_at(f, width, x, j),
                detail_at(f, width, x, j),
                outlen_iter(width, x.len() as int, (j - 1) as nat) as usize,
            ) == approx_at(f, width, x, (j - 1) as nat)
        },
    decreases j,
{
    let n = x.len() as int;
    if j >= 1 {
        let m = (j - 1) as nat;
        lemma_levels_bands(f, g, width, x, level, m);
        lemma_bounds(width, n, level, m);
        lemma_bounds(width, n, level, j);
        let a = approx_at(f, width, x, m);
        let o = outlen_spec(width, a.len() as int) as usize;
        assert(o == outlen_iter(width, n, j));
        let (s, d) = f(a, o, o);
        assert(s.len() == o && d.len() == o);
    }
}

/// A forward pass over the part of a lane that level `j + 1` works on, reading the
/// approximation of level `j` at its start, leaves what the first `j + 1` levels leave.
proof fn lemma_lane_forward<T>(
    f: BandSplit<T>,
    g: BandJoin<T>,
    zero: T,
    width: int,
    x: Seq<T>,
    level: nat,
    j: nat,
    w: Seq<T>,
    v: Seq<T>,
)
    requires
        bands_inverse(f, g, width),
        levels_active(width, x.len() as int, level),
        transformed_len(width, x.len() as int, level) <= usize::MAX,
        j < level,
        w.len() >= outlen_iter(width, x.len() as int, j),
        w.subrange(0, outlen_iter(width, x.len() as int, j)) == approx_at(f, width, x, j),
        v.len() == transformed_len(width, x.len() as int, level),
        forall|p: int|
            rest_len(width, x.len() as int, j, level) <= p < v.len() ==> #[trigger] v[p]
                == detail_value(f, width, x, level, j, p),
    ensures
        ({
            let n = x.len() as int;
            let o = outlen_iter(width, n, (j + 1) as nat) as usize;
            let r = rest_len(width, n, j, level);
            let u = forward_lane(f, zero, w, outlen_iter(width, n, j), o, o, r);
            &&& u.len() == r
            &&& lane_holds(f, width, x, level, u + v.subrange(r, v.len() as int), (j + 1) as nat)
        }),
{
    let n = x.len() as int;
    let j1 = (j + 1) as nat;
    let o = outlen_iter(width, n, j1) as usize;
    let r = rest_len(width, n, j, level);
    let r1 = rest_len(width, n, j1, level);
    let t = transformed_len(width, n, level);
    lemma_bounds(width, n, level, j);
    lemma_bounds(width, n, level, j1);
    lemma_levels_bands(f, g, width, x, level, j1);
    let s = approx_at(f, width, x, j1);
    let d = detail_at(f, width, x, j1);
    let u = forward_lane(f, zero, w, outlen_iter(width, n, j), o, o, r);
    assert(u == stacked(s, d, r, zero));
    let mid = Seq::new((r - s.len() - d.len()) as nat, |i: int| zero);
    assert(u.len() == r);
    let z = u + v.subrange(r, t);
    assert forall|p: int|
        0 <= p < z.len() && (p < outlen_iter(width, n, j1) || r1 <= p) implies #[trigger] z[p]
        == expected_value(f, width, x, level, j1, p) by {
        if p < o {
            assert(z[p] == u[p]);
            assert(u[p] == s[p]);
        } else if p < r {
            assert(z[p] == u[p]);
            assert(u[p] == d[p - (r - o)]);
            assert(detail_value(f, width, x, level, j1, p) == d[p - r1]);
        } else {
            assert(z[p] == v[p]);
            assert(detail_value(f, width, x, level, j1, p) == detail_value(f, width, x, level, j, p));
        }
    }
}

/// An inverse pass over the part of a lane that level `j + 1` works on rebuilds the
/// approximation of level `j` at its start and leaves what the first `j` levels leave.
proof fn lemma_lane_inverse<T>(f: BandSplit<T>, g: BandJoin<T>, width: int, x: Seq<T>, level: nat, j: nat, v: Seq<T>)
    requires
        bands_inverse(f, g, width),
        levels_active(width, x.len() as int, level),
        transformed_len(width, x.len() as int, level) <= usize::MAX,
        j < level,
        lane_holds(f, width, x, level, v, (j + 1) as nat),
    ensures
        ({
            let n = x.len() as int;
            let o = outlen_iter(width, n, (j + 1) as nat);
            let r = rest_len(width, n, j, level);
            let vv = v.subrange(0, r);
            let w = g(vv.subrange(0, o),
                vv.subrange(r - o, r),
                outlen_iter(width, n, j) as usize,
            );
            &&& w == approx_at(f, width, x, j)
            &&& lane_holds(
                f,
                width,
                x,
                level,
                w + v.subrange(outlen_iter(width, n, j), v.len() as int),
                j,
            )
        }),
{
    let n = x.len() as int;
    let j1 = (j + 1) as nat;
    let o = outlen_iter(width, n, j1);
    let r = rest_len(width, n, j, level);
    let r1 = rest_len(width, n, j1, level);
    let t = transformed_len(width, n, level);
    lemma_bounds(width, n, level, j);
    lemma_bounds(width, n, level, j1);
    lemma_levels_bands(f, g, width, x, level, j1);
    lemma_levels_bands(f, g, width, x, level, j);
    let vv = v.subrange(0, r);
    let s = approx_at(f, width, x, j1);
    let d = detail_at(f, width, x, j1);
    assert(vv.subrange(0, o) =~= s) by {
        assert forall|p: int| 0 <= p < o implies vv.subrange(0, o)[p] == s[p] by {
            assert(v[p] == expected_value(f, width, x, level, j1, p));
        }
    }
    assert(vv.subrange(r - o, r) =~= d) by {
        assert forall|i: int| 0 <= i < o implies vv.subrange(r - o, r)[i] == d[i] by {
            let p = r - o + i;
            assert(v[p] == expected_value(f, width, x, level, j1, p));
            assert(detail_value(f, width, x, level, j1, p) == d[p - r1]);
        }
    }
    let w = approx_at(f, width, x, j);
    let z = w + v.subrange(outlen_iter(width, n, j), t);
    assert forall|p: int|
        0 <= p < z.len() && (p < outlen_iter(width, n, j) || r <= p) implies #[trigger] z[p]
        == expected_value(f, width, x, level, j, p) by {
        if p >= outlen_iter(width, n, j) {
            assert(z[p] == v[p]);
            assert(v[p] == expected_value(f, width, x, level, j1, p));
            assert(detail_value(f, width, x, level, j1, p) == detail_value(f, width, x, level, j, p));
        }
    }
}

// ---------------------------------------------------------------------------------------
// The passes along one axis
// ---------------------------------------------------------------------------------------
/// Shape of the coefficients of a `level`-level non-periodic decomposition of an array of
/// shape `shape` along `axis`.
pub open spec fn coef_shape(shape: Seq<usize>, axis: usize, width: int, level: nat) -> Seq<usize> {
    shape.update(axis as int, transformed_len(width, shape[axis as int] as int, level) as usize)
}

/// Pass `i` of a `level`-level non-periodic decomposition along `axis` of an array of
/// shape `shape`, and of its reconstruction: it works on the part of each coefficient lane
/// that level `i + 1` uses, between the approximations of levels `i` and `i + 1`.
pub open spec fn level_pass(
    shape: Seq<usize>,
    axis: usize,
    width: int,
    level: nat,
    i: nat,
    from_input: bool,
) -> PassModel {
    let n = shape[axis as int] as int;
    PassModel {
        axis,
        sub: shape.update(axis as int, rest_len(width, n, i, level) as usize),
        n_samples: outlen_iter(width, n, i) as usize,
        n_s: outlen_iter(width, n, i + 1) as usize,
        n_d: outlen_iter(width, n, i + 1) as usize,
        from_input,
    }
}

/// The first `j` levels of the plans along one axis: the forward plan adds pass `j - 1`
/// (the first one reading the input), and the inverse plan puts it first.
proof fn lemma_plan_levels(shape: Seq<usize>, axis: usize, width: int, level: nat, j: nat)
    requires
        axis < shape.len(),
        levels_active(width, shape[axis as int] as int, level),
        transformed_len(width, shape[axis as int] as int, level) <= usize::MAX,
        j <= level,
    ensures
        ({
            let n = shape[axis as int] as int;
            let cs = coef_shape(shape, axis, width, level);
            let axes = seq![axis];
            let st = forward_levels(shape, cs, axes, j, false, width);
            &&& st.approx == shape.update(axis as int, outlen_iter(width, n, j) as usize)
            &&& st.region == cs.update(axis as int, rest_len(width, n, j, level) as usize)
            &&& st.first == (j == 0)
            &&& st.passes.len() == j
            &&& j > 0 ==> st.passes == forward_levels(
                shape,
                cs,
                axes,
                (j - 1) as nat,
                false,
                width,
            ).passes.push(level_pass(shape, axis, width, level, (j - 1) as nat, j == 1))
            &&& inverse_level_state(cs, shape, axes, j, false, width) == (st.approx, st.region)
            &&& j > 0 ==> inverse_plan_levels(cs, shape, axes, j, false, width) == seq![
                level_pass(shape, axis, width, level, (j - 1) as nat, false),
            ] + inverse_plan_levels(cs, shape, axes, (j - 1) as nat, false, width)
        }),
    decreases j,
{
    let n = shape[axis as int] as int;
    let a = axis as int;
    let cs = coef_shape(shape, axis, width, level);
    let axes = seq![axis];
    lemma_bounds(width, n, level, j);
    if j == 0 {
        assert(shape.update(a, outlen_iter(width, n, 0) as usize) =~= shape);
        assert(cs.update(a, rest_len(width, n, 0, level) as usize) =~= cs);
    } else {
        let m = (j - 1) as nat;
        lemma_plan_levels(shape, axis, width, level, m);
        lemma_bounds(width, n, level, m);
        let st = forward_levels(shape, cs, axes, m, false, width);
        let om = outlen_iter(width, n, m);
        let oj = outlen_iter(width, n, j);
        let rm = rest_len(width, n, m, level);
        let rj = rest_len(width, n, j, level);
        assert(st.approx[a] == om);
        assert(band_lengths(false, width, st.approx[a] as int) == (oj, oj));
        assert(forward_level(st, axes, 0, false, width) == (st, st.approx));
        assert(shrink_level(st.approx, st.region, axes, 0, false, width) == (st.approx, st.region));
        let sub2 = st.approx.update(a, st.region[a]);
        assert(sub2 =~= shape.update(a, rm as usize));
        let p = level_pass(shape, axis, width, level, m, j == 1);
        let (st1, _s) = forward_level(st, axes, 1, false, width);
        assert(st1.passes == st.passes.push(p));
        let (aa, rr) = shrink_level(st.approx, st.region, axes, 1, false, width);
        assert(sat_sub(rm, oj) == rj);
        assert(aa =~= shape.update(a, oj as usize));
        assert(rr =~= cs.update(a, rj as usize));
        let (s0, r0) = inverse_level_state(cs, shape, axes, m, false, width);
        assert(inverse_level_shapes(s0, r0, axes, 0, false, width) == (s0, s0, r0));
        let (ia, id, ir) = inverse_level_shapes(s0, r0, axes, 1, false, width);
        assert(ia =~= shape.update(a, oj as usize));
        assert(ir =~= cs.update(a, rj as usize));
        assert(inverse_level_passes(s0, r0, ia, id, axes, 0) == (Seq::<PassModel>::empty(), r0));
        let lpi = inverse_level_passes(s0, r0, ia, id, axes, 1).0;
        let q = level_pass(shape, axis, width, level, m, false);
        assert(r0 =~= shape.update(a, rm as usize));
        assert(lpi =~= seq![q]);
    }
}

// ---------------------------------------------------------------------------------------
// All lanes
// ---------------------------------------------------------------------------------------
/// Every coefficient lane along `axis` of `data` holds what the first `j` levels of the
/// paired signal lane of `x` (shape `shape`) leave in it.
pub open spec fn lanes_hold<T>(
    f: BandSplit<T>,
    width: int,
    x: Seq<T>,
    shape: Seq<usize>,
    axis: usize,
    level: nat,
    data: Seq<T>,
    j: nat,
) -> bool {
    let cs = coef_shape(shape, axis, width, level);
    let a = axis as int;
    &&& data.len() == shape_prod(cs)
    &&& forall|k: int|
        0 <= k < shape_prod(shape.remove(a)) ==> #[trigger] lane_holds(
            f,
            width,
            lane_of(lane_layout(shape, a), k).read(x),
            level,
            lane_of(lane_layout(cs, a), k).read(data),
            j,
        )
}

/// The lanes of the leading part of length `r` of every lane along `axis` are the leading
/// parts of those lanes.
proof fn lemma_region_lanes<T>(data: Seq<T>, shape: Seq<usize>, axis: int, r: int)
    requires
        lanes_ok(shape, axis),
        0 <= r <= shape[axis],
        data.len() == shape_prod(shape),
    ensures
        ({
            let sub = shape.update(axis, r as usize);
            let sl = sub_lane_layout(shape, sub, axis);
            let lf = lane_layout(shape, axis);
            &&& sub_lanes_ok(shape, sub, axis)
            &&& sub.remove(axis) == shape.remove(axis)
            &&& sl.lane_length == r
            &&& lanes_apart(sl, shape_prod(shape.remove(axis)), data.len() as int)
            &&& forall|k: int, i: int| #[trigger] lane_of(sl, k).index_of(i) == lane_of(lf, k).index_of(i)
            &&& forall|k: int|
                0 <= k < shape_prod(shape.remove(axis)) ==> #[trigger] lane_of(sl, k).read(data)
                    == lane_of(lf, k).read(data).subrange(0, r)
        }),
{
    let sub = shape.update(axis, r as usize);
    let sl = sub_lane_layout(shape, sub, axis);
    let lf = lane_layout(shape, axis);
    assert(sub.remove(axis) =~= shape.remove(axis));
    assert forall|k: int| 0 <= k < sub.len() implies #[trigger] sub[k] <= shape[k] by {}
    assert(sub_lanes_ok(shape, sub, axis));
    assert(sl.shape == lf.shape && sl.stride == lf.stride && sl.lane_stride == lf.lane_stride);
    lemma_sub_lanes_apart(shape, sub, axis);
    lemma_sub_lanes_nonempty(shape, sub, axis);
    assert forall|k: int| 0 <= k < shape_prod(shape.remove(axis)) implies #[trigger] lane_of(
        sl,
        k,
    ).read(data) == lane_of(lf, k).read(data).subrange(0, r) by {
        assert(lane_of(sl, k).read(data) =~= lane_of(lf, k).read(data).subrange(0, r));
    }
}

/// A lane pass over the leading parts of length `r` of the lanes along `axis` replaces the
/// leading part of every lane by `h` of it and keeps the rest.
proof fn lemma_region_map<T>(
    data: Seq<T>,
    shape: Seq<usize>,
    axis: int,
    r: int,
    h: spec_fn(Seq<T>) -> Seq<T>,
)
    requires
        lanes_ok(shape, axis),
        0 <= r <= shape[axis],
        data.len() == shape_prod(shape),
        forall|k: int|
            0 <= k < shape_prod(shape.remove(axis)) ==> #[trigger] h(
                lane_of(lane_layout(shape, axis), k).read(data).subrange(0, r),
            ).len() == r,
    ensures
        ({
            let sl = sub_lane_layout(shape, shape.update(axis, r as usize), axis);
            let res = map_lanes(data, sl, h, shape_prod(shape.remove(axis)) as nat);
            let lf = lane_layout(shape, axis);
            &&& res.len() == data.len()
            &&& forall|k: int|
                0 <= k < shape_prod(shape.remove(axis)) ==> #[trigger] lane_of(lf, k).read(res) == h(
                    lane_of(lf, k).read(data).subrange(0, r),
                ) + lane_of(lf, k).read(data).subrange(r, shape[axis] as int)
        }),
{
    let sub = shape.update(axis, r as usize);
    let sl = sub_lane_layout(shape, sub, axis);
    let lf = lane_layout(shape, axis);
    let nl = shape_prod(shape.remove(axis));
    lemma_region_lanes(data, shape, axis, r);
    lemma_sub_lanes_nonempty(shape, sub, axis);
    lemma_map_lanes(data, sl, h, nl as nat);
    let res = map_lanes(data, sl, h, nl as nat);
    assert(sub_lanes_ok(shape, shape, axis));
    assert(sub_lane_layout(shape, shape, axis) == lf);
    lemma_sub_lanes_disjoint(shape, shape, axis);
    assert forall|k: int| 0 <= k < nl implies #[trigger] lane_of(lf, k).read(res) == h(
        lane_of(lf, k).read(data).subrange(0, r),
    ) + lane_of(lf, k).read(data).subrange(r, shape[axis] as int) by {
        let full = lane_of(lf, k).read(data);
        let want = h(full.subrange(0, r)) + full.subrange(r, shape[axis] as int);
        assert forall|i: int| 0 <= i < shape[axis] implies #[trigger] lane_of(lf, k).read(res)[i]
            == want[i] by {
            let p = lane_of(lf, k).index_of(i);
            if i < r {
                assert(lane_of(sl, k).index_of(i) == p);
            } else {
                assert(!in_lanes(sl, nl, p)) by {
                    if in_lanes(sl, nl, p) {
                        let (k2, i2) = choose|k2: int, i2: int|
                            0 <= k2 < nl && 0 <= i2 < sl.lane_length && #[trigger] lane_of(
                                sl,
                                k2,
                            ).index_of(i2) == p;
                        assert(lane_of(lf, k2).index_of(i2) == lane_of(lf, k).index_of(i));
                    }
                }
            }
        }
        assert(lane_of(lf, k).read(res) =~= want);
    }
}

/// Setting of the reconstruction along `axis`: the levels are active, the coefficient lane
/// length is a `usize`, and both arrays are non-empty buffers.
pub open spec fn axis_setting(shape: Seq<usize>, axis: usize, width: int, level: nat) -> bool {
    &&& axis < shape.len()
    &&& levels_active(width, shape[axis as int] as int, level)
    &&& transformed_len(width, shape[axis as int] as int, level) <= usize::MAX
    &&& 1 <= shape_prod(shape) <= usize::MAX
    &&& shape_prod(coef_shape(shape, axis, width, level)) <= usize::MAX
}

proof fn lemma_setting(shape: Seq<usize>, axis: usize, width: int, level: nat)
    requires
        axis_setting(shape, axis, width, level),
    ensures
        ({
            let a = axis as int;
            let n = shape[a] as int;
            let cs = coef_shape(shape, axis, width, level);
            &&& lanes_ok(shape, a)
            &&& lanes_ok(cs, a)
            &&& sub_lanes_ok(cs, cs, a)
            &&& all_positive(shape)
            &&& cs.len() == shape.len()
            &&& cs[a] == transformed_len(width, n, level)
            &&& cs.remove(a) == shape.remove(a)
            &&& 1 <= shape_prod(cs)
            &&& n <= cs[a]
            &&& sub_lane_layout(cs, cs, a) == lane_layout(cs, a)
            &&& sub_lane_layout(shape, shape, a) == lane_layout(shape, a)
        }),
{
    let a = axis as int;
    let n = shape[a] as int;
    let cs = coef_shape(shape, axis, width, level);
    lemma_lanes_ok_from_len(shape, a);
    lemma_bounds(width, n, level, 0);
    assert(cs.remove(a) =~= shape.remove(a));
    assert(all_positive(cs)) by {
        assert forall|k: int| 0 <= k < cs.len() implies cs[k] > 0 by {
            if k != a {
                assert(cs[k] == shape[k]);
            }
        }
    }
    lemma_prod_pos(cs);
    lemma_lanes_ok_from_len(cs, a);
    assert forall|k: int| 0 <= k < cs.len() implies #[trigger] cs[k] <= cs[k] by {}
}

/// The first pass, from the signal into the coefficient lanes, leaves what the first level
/// leaves.
proof fn lemma_first_pass<T>(
    f: BandSplit<T>,
    g: BandJoin<T>,
    zero: T,
    width: int,
    x: Seq<T>,
    shape: Seq<usize>,
    axis: usize,
    level: nat,
    out: Seq<T>,
)
    requires
        bands_inverse(f, g, width),
        axis_setting(shape, axis, width, level),
        x.len() == shape_prod(shape),
        out.len() == shape_prod(coef_shape(shape, axis, width, level)),
    ensures
        ({
            let p = level_pass(shape, axis, width, level, 0, true);
            lanes_hold(
                f,
                width,
                x,
                shape,
                axis,
                level,
                forward_pass_from(
                    f,
                    zero,
                    x,
                    shape,
                    out,
                    coef_shape(shape, axis, width, level),
                    p.sub,
                    axis as int,
                    p.n_samples as int,
                    p.n_s,
                    p.n_d,
                ),
                1,
            )
        }),
{
    let a = axis as int;
    let n = shape[a] as int;
    let cs = coef_shape(shape, axis, width, level);
    let t = transformed_len(width, n, level);
    lemma_setting(shape, axis, width, level);
    lemma_bounds(width, n, level, 0);
    let p = level_pass(shape, axis, width, level, 0, true);
    assert(p.sub =~= cs);
    let o = p.n_s;
    assert(forward_from_fits(shape, cs, cs, a, n, o as int, o as int));
    let lx = lane_layout(shape, a);
    let lc = lane_layout(cs, a);
    let nl = shape_prod(shape.remove(a));
    lemma_sub_lanes_nonempty(cs, cs, a);
    lemma_forward_lanes_from_fill(f, zero, x, lx, out, lc, n, o, o, nl as nat);
    let vals = |k: int|
        {
            let (b_s, b_d) = f(lane_of(lx, k).read(x).subrange(0, n), o, o);
            stacked(b_s, b_d, lc.lane_length, zero)
        };
    assert forall|k: int| 0 <= k < nl implies #[trigger] vals(k).len() == lc.lane_length
        && lane_holds(f, width, lane_of(lx, k).read(x), level, vals(k), 1) by {
        let xk = lane_of(lx, k).read(x);
        let vk = lane_of(lc, k).read(out);
        assert(xk.subrange(0, n) =~= xk);
        lemma_lane_forward(f, g, zero, width, xk, level, 0, xk, vk);
        let u = forward_lane(f, zero, xk, n, o, o, t);
        assert(vals(k) == u);
        assert(u + vk.subrange(t, t) =~= u);
    }
    lemma_sub_lanes_apart(cs, cs, a);
    lemma_fill_lanes(out, lc, vals, nl as nat);
    let res = fill_lanes(out, lc, vals, nl as nat);
    assert forall|k: int| 0 <= k < nl implies #[trigger] lane_holds(
        f,
        width,
        lane_of(lx, k).read(x),
        level,
        lane_of(lc, k).read(res),
        1,
    ) by {
        assert(lane_of(lc, k).read(res) =~= vals(k));
    }
}

/// A later forward pass leaves what one more level leaves.
proof fn lemma_next_pass<T>(
    f: BandSplit<T>,
    g: BandJoin<T>,
    zero: T,
    width: int,
    x: Seq<T>,
    shape: Seq<usize>,
    axis: usize,
    level: nat,
    j: nat,
    data: Seq<T>,
)
    requires
        bands_inverse(f, g, width),
        axis_setting(shape, axis, width, level),
        x.len() == shape_prod(shape),
        j < level,
        lanes_hold(f, width, x, shape, axis, level, data, j),
    ensures
        ({
            let p = level_pass(shape, axis, width, level, j, false);
            lanes_hold(
                f,
                width,
                x,
                shape,
                axis,
                level,
                forward_pass(
                    f,
                    zero,
                    data,
                    coef_shape(shape, axis, width, level),
                    p.sub,
                    axis as int,
                    p.n_samples as int,
                    p.n_s,
                    p.n_d,
                ),
                (j + 1) as nat,
            )
        }),
{
    let a = axis as int;
    let n = shape[a] as int;
    let cs = coef_shape(shape, axis, width, level);
    let t = transformed_len(width, n, level);
    lemma_setting(shape, axis, width, level);
    lemma_bounds(width, n, level, j);
    let p = level_pass(shape, axis, width, level, j, false);
    let r = rest_len(width, n, j, level);
    let oj = outlen_iter(width, n, j);
    let o = p.n_s;
    assert(p.sub =~= cs.update(a, r as usize));
    lemma_region_lanes(data, cs, a, r);
    let sl = sub_lane_layout(cs, p.sub, a);
    let lf = lane_layout(cs, a);
    let lx = lane_layout(shape, a);
    let nl = shape_prod(shape.remove(a));
    assert(pass_fits(cs, p.sub, a, oj, o + o));
    lemma_sub_lanes_nonempty(cs, cs, a);
    lemma_forward_lanes_map(f, zero, data, sl, oj, o, o, nl as nat);
    let hf = |v: Seq<T>| forward_lane(f, zero, v, oj, o, o, sl.lane_length);
    assert forall|k: int| 0 <= k < nl implies #[trigger] hf(lane_of(lf, k).read(data).subrange(0, r)).len()
        == r && lane_holds(
        f,
        width,
        lane_of(lx, k).read(x),
        level,
        hf(lane_of(lf, k).read(data).subrange(0, r)) + lane_of(lf, k).read(data).subrange(r, t),
        (j + 1) as nat,
    ) by {
        let xk = lane_of(lx, k).read(x);
        let vk = lane_of(lf, k).read(data);
        assert(lane_holds(f, width, xk, level, vk, j));
        let w = vk.subrange(0, r);
        lemma_levels_bands(f, g, width, xk, level, j);
        assert(w.subrange(0, oj) =~= approx_at(f, width, xk, j)) by {
            assert forall|i: int| 0 <= i < oj implies w.subrange(0, oj)[i] == approx_at(
                f,
                width,
                xk,
                j,
            )[i] by {
                assert(vk[i] == expected_value(f, width, xk, level, j, i));
            }
        }
        assert forall|q: int| r <= q < vk.len() implies #[trigger] vk[q] == detail_value(
            f,
            width,
            xk,
            level,
            j,
            q,
        ) by {
            assert(vk[q] == expected_value(f, width, xk, level, j, q));
        }
        lemma_lane_forward(f, g, zero, width, xk, level, j, w, vk);
    }
    lemma_region_map(data, cs, a, r, hf);
    let res = map_lanes(data, sl, hf, nl as nat);
    assert forall|k: int| 0 <= k < nl implies #[trigger] lane_holds(
        f,
        width,
        lane_of(lx, k).read(x),
        level,
        lane_of(lf, k).read(res),
        (j + 1) as nat,
    ) by {
        assert(lane_of(lf, k).read(res) == hf(lane_of(lf, k).read(data).subrange(0, r))
            + lane_of(lf, k).read(data).subrange(r, t));
    }
}

/// An inverse pass undoes one level.
proof fn lemma_inverse_step<T>(
    f: BandSplit<T>,
    g: BandJoin<T>,
    width: int,
    x: Seq<T>,
    shape: Seq<usize>,
    axis: usize,
    level: nat,
    j: nat,
    data: Seq<T>,
)
    requires
        bands_inverse(f, g, width),
        axis_setting(shape, axis, width, level),
        x.len() == shape_prod(shape),
        j < level,
        lanes_hold(f, width, x, shape, axis, level, data, (j + 1) as nat),
    ensures
        ({
            let q = level_pass(shape, axis, width, level, j, false);
            lanes_hold(
                f,
                width,
                x,
                shape,
                axis,
                level,
                inverse_pass(
                    g,
                    data,
                    coef_shape(shape, axis, width, level),
                    q.sub,
                    axis as int,
                    q.n_s as int,
                    q.n_d as int,
                    q.n_samples,
                ),
                j,
            )
        }),
{
    let a = axis as int;
    let n = shape[a] as int;
    let cs = coef_shape(shape, axis, width, level);
    let t = transformed_len(width, n, level);
    lemma_setting(shape, axis, width, level);
    lemma_bounds(width, n, level, j);
    let q = level_pass(shape, axis, width, level, j, false);
    let r = rest_len(width, n, j, level);
    let oj = outlen_iter(width, n, j);
    let o = q.n_s as int;
    assert(q.sub =~= cs.update(a, r as usize));
    lemma_region_lanes(data, cs, a, r);
    let sl = sub_lane_layout(cs, q.sub, a);
    let lf = lane_layout(cs, a);
    let lx = lane_layout(shape, a);
    let nl = shape_prod(shape.remove(a));
    assert(pass_fits(cs, q.sub, a, o + o, oj));
    lemma_sub_lanes_nonempty(cs, cs, a);
    assert forall|k: int| #![trigger lane_of(lf, k).read(data)] 0 <= k < nl implies {
        let vv = lane_of(lf, k).read(data).subrange(0, r);
        let w = g(vv.subrange(0, o), vv.subrange(r - o, r), oj as usize);
        &&& w == approx_at(f, width, lane_of(lx, k).read(x), j)
        &&& w.len() == oj
        &&& lane_holds(
            f,
            width,
            lane_of(lx, k).read(x),
            level,
            w + lane_of(lf, k).read(data).subrange(oj, t),
            j,
        )
    } by {
        let xk = lane_of(lx, k).read(x);
        let vk = lane_of(lf, k).read(data);
        assert(lane_holds(f, width, xk, level, vk, (j + 1) as nat));
        lemma_lane_inverse(f, g, width, xk, level, j, vk);
        lemma_levels_bands(f, g, width, xk, level, j);
    }
    assert forall|k: int| 0 <= k < nl implies #[trigger] g(lane_of(sl, k).read(data).subrange(0, o),
        lane_of(sl, k).read(data).subrange(sl.lane_length - o, sl.lane_length),
        oj as usize,
    ).len() == oj by {
        assert(lane_of(sl, k).read(data) == lane_of(lf, k).read(data).subrange(0, r));
        assert(sl.lane_length == r);
    }
    lemma_inverse_lanes_padded(g, data, sl, o, o, oj as usize, nl as nat);
    let hp = |v: Seq<T>|
        g(v.subrange(0, o),
            v.subrange(sl.lane_length - o, sl.lane_length),
            oj as usize,
        ) + v.subrange(oj as usize as int, sl.lane_length);
    assert forall|k: int| 0 <= k < nl implies #[trigger] hp(lane_of(lf, k).read(data).subrange(0, r)).len()
        == r by {
        let vv = lane_of(lf, k).read(data).subrange(0, r);
        assert(sl.lane_length == r);
        assert(g(vv.subrange(0, o), vv.subrange(r - o, r), oj as usize).len() == oj);
    }
    lemma_region_map(data, cs, a, r, hp);
    let res = map_lanes(data, sl, hp, nl as nat);
    assert forall|k: int| 0 <= k < nl implies #[trigger] lane_holds(
        f,
        width,
        lane_of(lx, k).read(x),
        level,
        lane_of(lf, k).read(res),
        j,
    ) by {
        let vk = lane_of(lf, k).read(data);
        let vv = vk.subrange(0, r);
        let w = g(vv.subrange(0, o), vv.subrange(r - o, r), oj as usize);
        assert(w.len() == oj);
        assert(lane_of(lf, k).read(res) == hp(vv) + vk.subrange(r, t));
        assert(hp(vv) + vk.subrange(r, t) =~= w + vk.subrange(oj, t));
    }
}

/// The first `j` forward passes leave what the first `j` levels leave.
proof fn lemma_forward_run<T>(
    f: BandSplit<T>,
    g: BandJoin<T>,
    zero: T,
    width: int,
    x: Seq<T>,
    shape: Seq<usize>,
    axis: usize,
    level: nat,
    out: Seq<T>,
    j: nat,
)
    requires
        bands_inverse(f, g, width),
        axis_setting(shape, axis, width, level),
        x.len() == shape_prod(shape),
        out.len() == shape_prod(coef_shape(shape, axis, width, level)),
        1 <= j <= level,
    ensures
        lanes_hold(
            f,
            width,
            x,
            shape,
            axis,
            level,
            run_forward(
                f,
                zero,
                x,
                shape,
                out,
                coef_shape(shape, axis, width, level),
                forward_levels(
                    shape,
                    coef_shape(shape, axis, width, level),
                    seq![axis],
                    j,
                    false,
                    width,
                ).passes,
            ),
            j,
        ),
    decreases j,
{
    let cs = coef_shape(shape, axis, width, level);
    let axes = seq![axis];
    let m = (j - 1) as nat;
    lemma_plan_levels(shape, axis, width, level, j);
    lemma_plan_levels(shape, axis, width, level, m);
    let plan = forward_levels(shape, cs, axes, j, false, width).passes;
    let prev_plan = forward_levels(shape, cs, axes, m, false, width).passes;
    let pj = level_pass(shape, axis, width, level, m, j == 1);
    assert(plan.drop_last() =~= prev_plan);
    assert(plan.last() == pj);
    if j == 1 {
        assert(run_forward(f, zero, x, shape, out, cs, prev_plan) == out);
        lemma_first_pass(f, g, zero, width, x, shape, axis, level, out);
    } else {
        lemma_forward_run(f, g, zero, width, x, shape, axis, level, out, m);
        let prev = run_forward(f, zero, x, shape, out, cs, prev_plan);
        lemma_next_pass(f, g, zero, width, x, shape, axis, level, m, prev);
    }
}

/// The inverse passes of the first `j` levels undo them.
proof fn lemma_inverse_run<T>(
    f: BandSplit<T>,
    g: BandJoin<T>,
    width: int,
    x: Seq<T>,
    shape: Seq<usize>,
    axis: usize,
    level: nat,
    data: Seq<T>,
    j: nat,
)
    requires
        bands_inverse(f, g, width),
        axis_setting(shape, axis, width, level),
        x.len() == shape_prod(shape),
        j <= level,
        lanes_hold(f, width, x, shape, axis, level, data, j),
    ensures
        lanes_hold(
            f,
            width,
            x,
            shape,
            axis,
            level,
            run_inverse(
                g,
                data,
                coef_shape(shape, axis, width, level),
                inverse_plan_levels(
                    coef_shape(shape, axis, width, level),
                    shape,
                    seq![axis],
                    j,
                    false,
                    width,
                ),
            ),
            0,
        ),
    decreases j,
{
    let cs = coef_shape(shape, axis, width, level);
    let axes = seq![axis];
    if j == 0 {
        assert(inverse_plan_levels(cs, shape, axes, 0, false, width) == Seq::<PassModel>::empty());
    } else {
        let m = (j - 1) as nat;
        lemma_plan_levels(shape, axis, width, level, j);
        let q = level_pass(shape, axis, width, level, m, false);
        let rest = inverse_plan_levels(cs, shape, axes, m, false, width);
        lemma_run_inverse_prepend(g, data, cs, q, rest);
        lemma_inverse_step(f, g, width, x, shape, axis, level, m, data);
        let d1 = inverse_pass(g, data, cs, q.sub, q.axis as int, q.n_s as int, q.n_d as int, q.n_samples);
        lemma_inverse_run(f, g, width, x, shape, axis, level, d1, m);
    }
}

/// Along a single axis, the non-periodic inverse transform reconstructs the signal that
/// the non-periodic forward transform decomposed, for kernels that invert each other: the
/// inverse passes over the coefficients, followed by the copy of their leading region into
/// an array of the signal's shape, give the input back.  Every level must leave more than
/// one approximation coefficient (a level that would not is left out by the forward plan
/// but not by the inverse one), and the coefficient lanes must differ in length from the
/// signal's (equal lengths select periodic mode).
pub proof fn lemma_non_periodic_round_trip<T>(
    f: BandSplit<T>,
    g: BandJoin<T>,
    zero: T,
    x: Seq<T>,
    out: Seq<T>,
    work: Seq<T>,
    shape: Seq<usize>,
    axis: usize,
    level: nat,
    width: int,
)
    requires
        bands_inverse(f, g, width),
        axis < shape.len(),
        levels_active(width, shape[axis as int] as int, level),
        transformed_len(width, shape[axis as int] as int, level) != shape[axis as int],
        transformed_len(width, shape[axis as int] as int, level) <= usize::MAX,
        x.len() == shape_prod(shape),
        1 <= shape_prod(shape) <= usize::MAX,
        shape_prod(coef_shape(shape, axis, width, level)) <= usize::MAX,
        out.len() == shape_prod(coef_shape(shape, axis, width, level)),
        work.len() == x.len(),
    ensures
        ({
            let cs = coef_shape(shape, axis, width, level);
            let coefs = run_forward(
                f,
                zero,
                x,
                shape,
                out,
                cs,
                forward_plan(shape, cs, seq![axis], level, width),
            );
            copy_region(
                run_inverse(g, coefs, cs, inverse_plan(cs, shape, seq![axis], level, width)),
                cs,
                work,
                shape,
                min_stride_axis(shape),
            ) == x
        }),
{
    let a = axis as int;
    let n = shape[a] as int;
    let cs = coef_shape(shape, axis, width, level);
    let axes = seq![axis];
    lemma_setting(shape, axis, width, level);
    assert(cs[a] != shape[a]);
    assert(shape != cs);
    let coefs = run_forward(f, zero, x, shape, out, cs, forward_plan(shape, cs, axes, level, width));
    lemma_forward_run(f, g, zero, width, x, shape, axis, level, out, level);
    lemma_inverse_run(f, g, width, x, shape, axis, level, coefs, level);
    let e = run_inverse(g, coefs, cs, inverse_plan(cs, shape, axes, level, width));
    let ax = min_stride_axis(shape);
    lemma_lanes_ok_from_len(cs, ax);
    lemma_lanes_ok_from_len(shape, ax);
    assert forall|k: int| 0 <= k < shape.len() implies #[trigger] shape[k] <= cs[k] by {}
    assert(all_positive(shape.remove(ax))) by {
        assert forall|k: int| 0 <= k < shape.len() - 1 implies shape.remove(ax)[k] > 0 by {
            if k < ax {
                assert(shape.remove(ax)[k] == shape[k]);
            } else {
                assert(shape.remove(ax)[k] == shape[k + 1]);
            }
        }
    }
    assert(sub_lanes_ok(cs, shape, ax));
    let res = copy_region(e, cs, work, shape, ax);
    let lx = lane_layout(shape, a);
    let lc = lane_layout(cs, a);
    assert forall|p: int| 0 <= p < x.len() implies res[p] == x[p] by {
        lemma_flat_multi(p, shape);
        let qi = unravel_spec(p, shape);
        lemma_copy_region_at(e, cs, work, shape, ax, qi);
        lemma_region_lane(shape, a, qi);
        let k = dot(qi.remove(a), row_strides(shape.remove(a)));
        let i = qi[a] as int;
        lemma_sub_lane_element(cs, cs, a, k, i);
        lemma_sub_lane_element(shape, shape, a, k, i);
        let xk = lane_of(lx, k).read(x);
        let ek = lane_of(lc, k).read(e);
        assert(lane_holds(f, width, xk, level, ek, 0));
        assert(ek[i] == expected_value(f, width, xk, level, 0, i));
    }
    lemma_flat_multi(0, shape);
    lemma_copy_region_at(e, cs, work, shape, ax, unravel_spec(0, shape));
    assert(res =~= x);
}

} // verus!
