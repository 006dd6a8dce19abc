//! The passes of a decomposition fit their lanes.
//!
//! For the output shape that [`get_outshape`](crate::dwt::driver::get_outshape) computes,
//! every pass that the forward plan makes reads and writes inside the lanes it works on,
//! so the drivers never leave a pass out.
use crate::dwt::driver::{
    band_lengths, detail_total, forward_level, forward_levels, forward_plan, outlen_iter,
    shrink_level, transformed_len, PassModel, PlanState,
};
use crate::dwt::lanes::{forward_from_fits, pass_fits};
use crate::dwt::outlen_spec;
use crate::iter::slice::{lemma_lanes_ok_from_len, sub_lanes_ok};
use crate::utils::shape_prod;
use vstd::prelude::*;

verus! {

// ---------------------------------------------------------------------------------------
// Sub-band lengths
// ---------------------------------------------------------------------------------------
/// A sub-band holds at least half of the samples (rounded up), and at least one sample of
/// a non-empty signal.
pub(crate) proof fn lemma_outlen_ge(width: int, x: int)
    requires
        width >= 2,
        x >= 0,
    ensures
        outlen_spec(width, x) >= (x + 1) / 2,
        2 * outlen_spec(width, x) >= x,
        x >= 1 ==> outlen_spec(width, x) >= 1,
{
    let offset = (width - 2) / 2;
    if offset % 2 == 1 {
        assert(width >= 4);
        assert(width / 4 >= 1);
    }
}

/// Every level of a non-empty signal keeps a non-empty approximation.
pub(crate) proof fn lemma_outlen_iter_pos(width: int, n: int, k: nat)
    requires
        width >= 2,
        n >= 1,
    ensures
        outlen_iter(width, n, k) >= 1,
    decreases k,
{
    if k > 0 {
        lemma_outlen_iter_pos(width, n, (k - 1) as nat);
        lemma_outlen_ge(width, outlen_iter(width, n, (k - 1) as nat));
    }
}

/// What the levels after level `m` leave of a `level`-level output lane: the details of
/// levels `m + 1` to `level` and the last approximation.
pub open spec fn rest_len(width: int, n: int, m: nat, level: nat) -> int {
    transformed_len(width, n, level) - detail_total(width, n, m)
}

/// The part of a lane that level `m + 1` works on holds both of its bands.
pub(crate) proof fn lemma_rest_holds_bands(width: int, n: int, m: nat, level: nat)
    requires
        width >= 2,
        n >= 1,
        m < level,
    ensures
        rest_len(width, n, m, level) >= 2 * outlen_iter(width, n, m + 1),
        rest_len(width, n, m, level) >= outlen_iter(width, n, m),
    decreases level - m,
{
    lemma_outlen_iter_pos(width, n, m);
    lemma_outlen_ge(width, outlen_iter(width, n, m));
    if m + 1 < level {
        lemma_rest_holds_bands(width, n, m + 1, level);
        lemma_outlen_ge(width, outlen_iter(width, n, m + 1));
        assert(detail_total(width, n, m + 1) == detail_total(width, n, m) + outlen_iter(width, n, m + 1));
    } else {
        assert(level == m + 1);
        assert(detail_total(width, n, level) == detail_total(width, n, m) + outlen_iter(width, n, level));
    }
}

/// Number of the first `l` levels that transform an axis of `n` samples: the levels stop
/// once the approximation would not exceed one coefficient.
pub open spec fn levels_done(width: int, n: int, l: nat) -> nat
    decreases l,
{
    if l == 0 {
        0
    } else {
        let m = levels_done(width, n, (l - 1) as nat);
        if m == l - 1 && outlen_spec(width, outlen_iter(width, n, m)) > 1 {
            l
        } else {
            m
        }
    }
}

proof fn lemma_levels_done(width: int, n: int, l: nat)
    ensures
        levels_done(width, n, l) <= l,
        levels_done(width, n, l) < l ==> outlen_spec(
            width,
            outlen_iter(width, n, levels_done(width, n, l)),
        ) <= 1,
    decreases l,
{
    if l > 0 {
        lemma_levels_done(width, n, (l - 1) as nat);
    }
}

pub(crate) proof fn lemma_detail_total_nonneg(width: int, n: int, m: nat)
    requires
        width >= 2,
        n >= 1,
    ensures
        detail_total(width, n, m) >= 0,
    decreases m,
{
    if m > 0 {
        lemma_detail_total_nonneg(width, n, (m - 1) as nat);
        lemma_outlen_iter_pos(width, n, m);
    }
}

// ---------------------------------------------------------------------------------------
// State of a plan
// ---------------------------------------------------------------------------------------
/// Whether the approximation and region lengths of axis `k` are what `l` levels of a
/// `level`-level decomposition leave: untouched off `axes`; halves in periodic mode;
/// otherwise the approximation and the rest of the output lane after the levels done.
pub open spec fn axis_ok(
    in_shape: Seq<usize>,
    axes: Seq<usize>,
    level: nat,
    width: int,
    per_mode: bool,
    approx: Seq<usize>,
    region: Seq<usize>,
    l: nat,
    k: int,
) -> bool {
    if axes.contains(k as usize) {
        if per_mode {
            approx[k] == region[k] && 1 <= approx[k] <= in_shape[k]
        } else {
            let n = in_shape[k] as int;
            let m = levels_done(width, n, l);
            approx[k] == outlen_iter(width, n, m) && region[k] == rest_len(width, n, m, level)
        }
    } else {
        approx[k] == in_shape[k] && region[k] == in_shape[k]
    }
}

/// Whether pass `p` fits its lanes (see [`forward_from_fits`] and [`pass_fits`]).
pub open spec fn pass_model_fits(p: PassModel, in_shape: Seq<usize>, out_shape: Seq<usize>) -> bool {
    if p.from_input {
        forward_from_fits(
            in_shape,
            out_shape,
            p.sub,
            p.axis as int,
            p.n_samples as int,
            p.n_s as int,
            p.n_d as int,
        )
    } else {
        pass_fits(out_shape, p.sub, p.axis as int, p.n_samples as int, p.n_s + p.n_d)
    }
}

/// The plan state after `l` levels is what the levels leave, and its passes fit.
pub open spec fn state_ok(
    in_shape: Seq<usize>,
    out_shape: Seq<usize>,
    axes: Seq<usize>,
    level: nat,
    width: int,
    per_mode: bool,
    st: PlanState,
    l: nat,
) -> bool {
    &&& st.approx.len() == in_shape.len()
    &&& st.region.len() == in_shape.len()
    &&& forall|k: int|
        0 <= k < in_shape.len() ==> #[trigger] axis_ok(
            in_shape,
            axes,
            level,
            width,
            per_mode,
            st.approx,
            st.region,
            l,
            k,
        )
    &&& st.first ==> st.approx == in_shape
    &&& forall|i: int|
        0 <= i < st.passes.len() ==> #[trigger] pass_model_fits(st.passes[i], in_shape, out_shape)
}

/// Requirements of the fitting law: the output shape is the one `get_outshape` computes
/// (equal shapes select periodic mode), the axes are distinct, and both arrays are
/// non-empty buffers.
pub open spec fn plan_setting(
    in_shape: Seq<usize>,
    out_shape: Seq<usize>,
    axes: Seq<usize>,
    level: nat,
    width: int,
) -> bool {
    &&& width >= 2
    &&& in_shape.len() <= usize::MAX
    &&& out_shape.len() == in_shape.len()
    &&& forall|j: int| 0 <= j < axes.len() ==> #[trigger] axes[j] < in_shape.len()
    &&& forall|i: int, j: int| 0 <= i < j < axes.len() ==> axes[i] != axes[j]
    &&& in_shape != out_shape ==> forall|k: int|
        0 <= k < in_shape.len() ==> #[trigger] out_shape[k] == if axes.contains(k as usize) {
            transformed_len(width, in_shape[k] as int, level)
        } else {
            in_shape[k] as int
        }
    &&& 1 <= shape_prod(in_shape) <= usize::MAX
    &&& 1 <= shape_prod(out_shape) <= usize::MAX
}

/// Bounds on one axis before level `l + 1`: a non-empty approximation inside the region,
/// the region inside the output, and room in the region for the bands of the next level.
proof fn lemma_axis_bounds(
    in_shape: Seq<usize>,
    out_shape: Seq<usize>,
    axes: Seq<usize>,
    level: nat,
    width: int,
    approx: Seq<usize>,
    region: Seq<usize>,
    l: nat,
    k: int,
)
    requires
        plan_setting(in_shape, out_shape, axes, level, width),
        l < level,
        0 <= k < in_shape.len(),
        axis_ok(in_shape, axes, level, width, in_shape == out_shape, approx, region, l, k),
    ensures
        1 <= approx[k] <= region[k] <= out_shape[k],
        axes.contains(k as usize) ==> ({
            let (n_s, n_d) = band_lengths(in_shape == out_shape, width, approx[k] as int);
            n_s + n_d <= region[k] && n_s >= 1
        }),
{
    let pm = in_shape == out_shape;
    lemma_lanes_ok_from_len(in_shape, k);
    assert(in_shape[k] >= 1);
    if axes.contains(k as usize) && !pm {
        let n = in_shape[k] as int;
        let m = levels_done(width, n, l);
        lemma_levels_done(width, n, l);
        lemma_rest_holds_bands(width, n, m, level);
        lemma_outlen_iter_pos(width, n, m);
        lemma_outlen_iter_pos(width, n, m + 1);
        lemma_detail_total_nonneg(width, n, m);
        assert(outlen_iter(width, n, m + 1) == outlen_spec(width, outlen_iter(width, n, m)));
    } else if !axes.contains(k as usize) && !pm {
        lemma_outlen_ge(width, approx[k] as int);
    } else {
        assert(out_shape[k] == in_shape[k]);
        lemma_outlen_ge(width, approx[k] as int);
    }
}

/// One forward level over `axes[0..i]`: the plan state keeps its shapes, the region seen
/// by the next axis has the region's lengths on the axes done, every pass made fits, and
/// while no pass was made no axis done had an approximation to split.
proof fn lemma_level(
    in_shape: Seq<usize>,
    out_shape: Seq<usize>,
    axes: Seq<usize>,
    level: nat,
    width: int,
    st: PlanState,
    l: nat,
    i: nat,
)
    requires
        plan_setting(in_shape, out_shape, axes, level, width),
        l < level,
        i <= axes.len(),
        state_ok(in_shape, out_shape, axes, level, width, in_shape == out_shape, st, l),
    ensures
        ({
            let pm = in_shape == out_shape;
            let (st1, sub) = forward_level(st, axes, i, pm, width);
            &&& st1.approx == st.approx
            &&& st1.region == st.region
            &&& sub.len() == in_shape.len()
            &&& forall|k: int|
                0 <= k < in_shape.len() ==> #[trigger] sub[k] == if axes.subrange(
                    0,
                    i as int,
                ).contains(k as usize) {
                    st.region[k]
                } else {
                    st.approx[k]
                }
            &&& forall|j: int|
                0 <= j < st1.passes.len() ==> #[trigger] pass_model_fits(
                    st1.passes[j],
                    in_shape,
                    out_shape,
                )
            &&& st1.first ==> st.first && forall|j: int|
                0 <= j < i ==> #[trigger] band_lengths(pm, width, st.approx[axes[j] as int] as int).0
                    <= 1
        }),
    decreases i,
{
    let pm = in_shape == out_shape;
    if i == 0 {
        assert(axes.subrange(0, 0) =~= Seq::<usize>::empty());
    } else {
        lemma_level(in_shape, out_shape, axes, level, width, st, l, (i - 1) as nat);
        let (st0, sub0) = forward_level(st, axes, (i - 1) as nat, pm, width);
        let ax = axes[i - 1] as int;
        let pre = axes.subrange(0, i - 1);
        assert(axes.subrange(0, i as int) =~= pre.push(axes[i - 1]));
        assert(!pre.contains(ax as usize)) by {
            if pre.contains(ax as usize) {
                let j = choose|j: int| 0 <= j < pre.len() && #[trigger] pre[j] == ax as usize;
                assert(axes[j] == axes[i - 1]);
            }
        }
        assert(sub0[ax] == st.approx[ax]);
        let n = sub0[ax] as int;
        let (n_s, n_d) = band_lengths(pm, width, n);
        let sub2 = sub0.update(ax, st.region[ax]);
        assert forall|k: int| 0 <= k < in_shape.len() implies #[trigger] sub2[k] == if axes.subrange(
            0,
            i as int,
        ).contains(k as usize) {
            st.region[k]
        } else {
            st.approx[k]
        } by {
            if k != ax {
                assert(pre.push(axes[i - 1]).contains(k as usize) == pre.contains(k as usize)) by {
                    let q = pre.push(axes[i - 1]);
                    if q.contains(k as usize) {
                        let j = choose|j: int| 0 <= j < q.len() && #[trigger] q[j] == k as usize;
                        if j == pre.len() {
                            assert(q[j] == axes[i - 1]);
                        }
                        assert(j < pre.len());
                        assert(pre[j] == k as usize);
                    }
                    if pre.contains(k as usize) {
                        let j = choose|j: int| 0 <= j < pre.len() && #[trigger] pre[j] == k as usize;
                        assert(q[j] == k as usize);
                    }
                }
            } else {
                assert(pre.push(axes[i - 1])[i - 1] == ax as usize);
            }
        }
        assert(axes.contains(ax as usize)) by {
            assert(axes[i - 1] == ax as usize);
        }
        if n_s > 1 {
            let p = PassModel {
                axis: ax as usize,
                sub: sub2,
                n_samples: n as usize,
                n_s: n_s as usize,
                n_d: n_d as usize,
                from_input: st0.first,
            };
            assert forall|k: int| 0 <= k < in_shape.len() implies 1 <= #[trigger] st.approx[k]
                <= st.region[k] <= out_shape[k] by {
                assert(axis_ok(in_shape, axes, level, width, pm, st.approx, st.region, l, k));
                lemma_axis_bounds(in_shape, out_shape, axes, level, width, st.approx, st.region, l, k);
            }
            assert(axis_ok(in_shape, axes, level, width, pm, st.approx, st.region, l, ax));
            lemma_axis_bounds(in_shape, out_shape, axes, level, width, st.approx, st.region, l, ax);
            lemma_lanes_ok_from_len(out_shape, ax);
            lemma_lanes_ok_from_len(in_shape, ax);
            assert(sub_lanes_ok(out_shape, sub2, ax)) by {
                assert forall|k: int| 0 <= k < sub2.len() implies #[trigger] sub2[k] <= out_shape[k] by {
                    assert(1 <= st.approx[k] <= st.region[k] <= out_shape[k]);
                    assert(sub2[k] == st.approx[k] || sub2[k] == st.region[k]);
                }
                let br = sub2.remove(ax);
                assert forall|j: int| 0 <= j < br.len() implies br[j] > 0 by {
                    let kk = if j < ax {
                        j
                    } else {
                        j + 1
                    };
                    assert(br[j] == sub2[kk]);
                    assert(1 <= st.approx[kk] <= st.region[kk]);
                    assert(sub2[kk] == st.approx[kk] || sub2[kk] == st.region[kk]);
                }
            }
            assert(n as usize == n && n_s as usize == n_s && n_d as usize == n_d);
            if st0.first {
                assert(st.approx == in_shape);
                assert(n == in_shape[ax]);
            }
            assert(pass_model_fits(p, in_shape, out_shape));
            let passes = st0.passes.push(p);
            assert forall|j: int| 0 <= j < passes.len() implies #[trigger] pass_model_fits(
                passes[j],
                in_shape,
                out_shape,
            ) by {
                if j < st0.passes.len() {
                    assert(passes[j] == st0.passes[j]);
                }
            }
        } else if st0.first {
            assert forall|j: int| 0 <= j < i implies #[trigger] band_lengths(
                pm,
                width,
                st.approx[axes[j] as int] as int,
            ).0 <= 1 by {
                if j < i - 1 {
                } else {
                    assert(j == i - 1);
                }
            }
        }
    }
}

/// One forward level's shrinking over `axes[0..i]`: each axis done has the lengths that
/// one more level leaves (unchanged when its approximation was not split), and the others
/// keep theirs.
proof fn lemma_shrink(
    in_shape: Seq<usize>,
    out_shape: Seq<usize>,
    axes: Seq<usize>,
    level: nat,
    width: int,
    st: PlanState,
    l: nat,
    i: nat,
)
    requires
        plan_setting(in_shape, out_shape, axes, level, width),
        l < level,
        i <= axes.len(),
        state_ok(in_shape, out_shape, axes, level, width, in_shape == out_shape, st, l),
    ensures
        ({
            let pm = in_shape == out_shape;
            let (a, r) = shrink_level(st.approx, st.region, axes, i, pm, width);
            &&& a.len() == in_shape.len()
            &&& r.len() == in_shape.len()
            &&& forall|k: int|
                0 <= k < in_shape.len() && axes.subrange(0, i as int).contains(k as usize)
                    ==> #[trigger] axis_ok(in_shape, axes, level, width, pm, a, r, l + 1, k)
            &&& forall|k: int|
                0 <= k < in_shape.len() && axes.subrange(0, i as int).contains(k as usize)
                    && band_lengths(pm, width, st.approx[k] as int).0 <= 1 ==> #[trigger] a[k]
                    == st.approx[k]
            &&& forall|k: int|
                0 <= k < in_shape.len() && !axes.subrange(0, i as int).contains(k as usize)
                    ==> #[trigger] a[k] == st.approx[k] && r[k] == st.region[k]
        }),
    decreases i,
{
    let pm = in_shape == out_shape;
    if i == 0 {
        assert(axes.subrange(0, 0) =~= Seq::<usize>::empty());
    } else {
        lemma_shrink(in_shape, out_shape, axes, level, width, st, l, (i - 1) as nat);
        let (a0, r0) = shrink_level(st.approx, st.region, axes, (i - 1) as nat, pm, width);
        let ax = axes[i - 1] as int;
        let pre = axes.subrange(0, i - 1);
        let q = axes.subrange(0, i as int);
        assert(q =~= pre.push(axes[i - 1]));
        assert(!pre.contains(ax as usize)) by {
            if pre.contains(ax as usize) {
                let j = choose|j: int| 0 <= j < pre.len() && #[trigger] pre[j] == ax as usize;
                assert(axes[j] == axes[i - 1]);
            }
        }
        assert(0 <= ax < in_shape.len());
        assert(!axes.subrange(0, (i - 1) as nat as int).contains(ax as usize));
        assert(a0[ax] == st.approx[ax] && r0[ax] == st.region[ax]);
        assert(axes.contains(ax as usize)) by {
            assert(axes[i - 1] == ax as usize);
        }
        lemma_lanes_ok_from_len(in_shape, ax);
        assert(axis_ok(in_shape, axes, level, width, pm, st.approx, st.region, l, ax));
        lemma_axis_bounds(in_shape, out_shape, axes, level, width, st.approx, st.region, l, ax);
        let (n_s, n_d) = band_lengths(pm, width, a0[ax] as int);
        let (a, r) = shrink_level(st.approx, st.region, axes, i, pm, width);
        assert forall|k: int| 0 <= k < in_shape.len() implies (#[trigger] q.contains(k as usize) == (k
            == ax || pre.contains(k as usize))) by {
            if q.contains(k as usize) {
                let j = choose|j: int| 0 <= j < q.len() && #[trigger] q[j] == k as usize;
                if j < pre.len() {
                    assert(pre[j] == k as usize);
                }
            }
            if pre.contains(k as usize) {
                let j = choose|j: int| 0 <= j < pre.len() && #[trigger] pre[j] == k as usize;
                assert(q[j] == k as usize);
            }
            if k == ax {
                assert(q[i - 1] == k as usize);
            }
        }
        // the axis of this step
        if !pm {
            let n = in_shape[ax] as int;
            let m = levels_done(width, n, l);
            lemma_levels_done(width, n, l);
            lemma_levels_done(width, n, l + 1);
            if n_s > 1 {
                assert(m == l);
                assert(levels_done(width, n, l + 1) == l + 1);
                lemma_rest_holds_bands(width, n, m, level);
                assert(detail_total(width, n, m + 1) == detail_total(width, n, m) + outlen_iter(
                    width,
                    n,
                    m + 1,
                ));
            } else {
                assert(levels_done(width, n, l + 1) == m);
            }
        }
        assert(axis_ok(in_shape, axes, level, width, pm, a, r, l + 1, ax));
        assert forall|k: int|
            0 <= k < in_shape.len() && q.contains(k as usize) implies #[trigger] axis_ok(
            in_shape,
            axes,
            level,
            width,
            pm,
            a,
            r,
            l + 1,
            k,
        ) by {
            if k != ax {
                assert(pre.contains(k as usize));
                assert(axis_ok(in_shape, axes, level, width, pm, a0, r0, l + 1, k));
            }
        }
        assert forall|k: int|
            0 <= k < in_shape.len() && q.contains(k as usize) && band_lengths(
                pm,
                width,
                st.approx[k] as int,
            ).0 <= 1 implies #[trigger] a[k] == st.approx[k] by {
            if k != ax {
                assert(pre.contains(k as usize));
            }
        }
    }
}

/// The plan state after `l` levels is what the levels leave, and every pass so far fits.
proof fn lemma_levels(
    in_shape: Seq<usize>,
    out_shape: Seq<usize>,
    axes: Seq<usize>,
    level: nat,
    width: int,
    l: nat,
)
    requires
        plan_setting(in_shape, out_shape, axes, level, width),
        l <= level,
    ensures
        state_ok(
            in_shape,
            out_shape,
            axes,
            level,
            width,
            in_shape == out_shape,
            forward_levels(in_shape, out_shape, axes, l, in_shape == out_shape, width),
            l,
        ),
    decreases l,
{
    let pm = in_shape == out_shape;
    if l == 0 {
        let st = forward_levels(in_shape, out_shape, axes, 0, pm, width);
        assert forall|k: int| 0 <= k < in_shape.len() implies #[trigger] axis_ok(
            in_shape,
            axes,
            level,
            width,
            pm,
            st.approx,
            st.region,
            0,
            k,
        ) by {
            lemma_lanes_ok_from_len(in_shape, k);
            assert(detail_total(width, in_shape[k] as int, 0) == 0);
        }
    } else {
        let m = (l - 1) as nat;
        lemma_levels(in_shape, out_shape, axes, level, width, m);
        let st = forward_levels(in_shape, out_shape, axes, m, pm, width);
        lemma_level(in_shape, out_shape, axes, level, width, st, m, axes.len());
        lemma_shrink(in_shape, out_shape, axes, level, width, st, m, axes.len());
        assert(axes.subrange(0, axes.len() as int) =~= axes);
        let (st1, _sub) = forward_level(st, axes, axes.len(), pm, width);
        let (a, r) = shrink_level(st.approx, st.region, axes, axes.len(), pm, width);
        let nst = forward_levels(in_shape, out_shape, axes, l, pm, width);
        assert(nst == PlanState { approx: a, region: r, first: st1.first, passes: st1.passes });
        assert forall|k: int| 0 <= k < in_shape.len() implies #[trigger] axis_ok(
            in_shape,
            axes,
            level,
            width,
            pm,
            a,
            r,
            l,
            k,
        ) by {
            if !axes.contains(k as usize) {
                assert(axis_ok(in_shape, axes, level, width, pm, st.approx, st.region, m, k));
                assert(!axes.subrange(0, axes.len() as int).contains(k as usize));
                assert(a[k] == st.approx[k] && r[k] == st.region[k]);
            } else {
                assert(axes.subrange(0, axes.len() as int).contains(k as usize));
                assert(axis_ok(in_shape, axes, level, width, pm, a, r, m + 1, k));
            }
        }
        if st1.first {
            assert forall|k: int| 0 <= k < in_shape.len() implies a[k] == st.approx[k] by {
                if axes.contains(k as usize) {
                    let j = choose|j: int| 0 <= j < axes.len() && #[trigger] axes[j] == k as usize;
                    assert(band_lengths(pm, width, st.approx[axes[j] as int] as int).0 <= 1);
                }
            }
            assert(a =~= st.approx);
        }
    }
}

/// Every pass of a forward plan fits its lanes when the output has the shape
/// `get_outshape` gives the input (equal shapes select periodic mode) and the axes are
/// distinct: the drivers then never leave a pass out.
pub proof fn lemma_forward_plan_fits(
    in_shape: Seq<usize>,
    out_shape: Seq<usize>,
    axes: Seq<usize>,
    level: nat,
    width: int,
)
    requires
        plan_setting(in_shape, out_shape, axes, level, width),
    ensures
        forall|i: int|
            0 <= i < forward_plan(in_shape, out_shape, axes, level, width).len()
                ==> #[trigger] pass_model_fits(
                forward_plan(in_shape, out_shape, axes, level, width)[i],
                in_shape,
                out_shape,
            ),
{
    lemma_levels(in_shape, out_shape, axes, level, width, level);
}

} // verus!
