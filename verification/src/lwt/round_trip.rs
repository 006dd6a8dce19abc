//! Reconstruction by the lifting drivers along several axes.
//!
//! The inverse plan holds the levels of the forward plan in reverse order, each made in
//! place.  Within a level the inverse takes the axes in the same order as the forward
//! level, so an inverse pass along one axis has to be moved past the forward passes along
//! the later axes: reconstruction holds for kernel pairs whose passes along different axes
//! commute, as those of separable linear kernels and of plain sample rearrangements do.
//! Kernels that hand their bands back unchanged are proved to be such a pair: their passes
//! only move samples along their own axis.
use crate::dwt::driver::{in_place, in_place_all, min_stride_axis, PassModel};
use crate::dwt::lanes::{copy_region, lemma_copy_whole};
use crate::dwt::lanes::{in_lanes, lemma_map_lanes, lemma_sub_lanes_apart, map_lanes};
use crate::iter::slice::{
    dot, in_shape, lane_layout, lane_of, lanes_ok, lemma_dot_insert, lemma_flat_bound,
    lemma_flat_multi, lemma_lanes_ok_from_len,
    lemma_region_lane, lemma_sub_lane_element, lemma_sub_lane_in_bounds,
    lemma_sub_lanes_nonempty, lemma_unravel_dot, row_strides, sub_lane_layout, sub_lanes_ok,
    unravel_spec,
};
use crate::lwt::driver::{
    lemma_lift_from_whole, lemma_lift_lanes_map, lemma_run_lift_forward_len, lemma_run_lift_inverse_prepend,
    lemma_unlift_lanes_map, lemma_unlift_lift_pass, lift_forward_plan, lift_inverse_plan, lift_level, lift_levels,
    lift_lane, lift_pass, lift_shrink, lifting_inverse, BandMap, run_lift_forward, run_lift_inverse, unique_axes,
    unlift_lane, unlift_pass,
};
use crate::utils::{deint_nd_src, deint_src, evens_of, interleaved, odds_of, row_major_stride, shape_prod};
use vstd::arithmetic::div_mod::lemma_fundamental_div_mod_converse;
use vstd::prelude::*;

verus! {

/// Passes of forward lifting level `l` of an array of shape `shape` along `axes`.
pub open spec fn lift_level_passes(shape: Seq<usize>, axes: Seq<usize>, l: nat) -> Seq<PassModel> {
    let (sub, first, _ps) = lift_levels(shape, axes, l);
    lift_level(sub, axes, axes.len(), first).0
}

/// The entries of `axes` are distinct.
pub open spec fn distinct_axes(axes: Seq<usize>) -> bool {
    forall|i: int, j: int| 0 <= i < j < axes.len() ==> axes[i] != axes[j]
}

/// What one lifting level over `axes[0..i]` makes: passes over region `sub` along distinct
/// axes of `axes[0..i]`, only the first of them possibly from the input, the same passes
/// in place whatever the first-pass flag, none when every axis is at most one long and
/// some when an axis is longer than two.
proof fn lemma_lift_level(sub: Seq<usize>, axes: Seq<usize>, i: nat, first: bool)
    requires
        i <= axes.len(),
    ensures
        ({
            let (lp, fst) = lift_level(sub, axes, i, first);
            &&& fst == (first && lp.len() == 0)
            &&& lp.len() > 0 ==> lp[0].from_input == first
            &&& forall|k: int| 1 <= k < lp.len() ==> !(#[trigger] lp[k]).from_input
            &&& forall|k: int| 0 <= k < lp.len() ==> (#[trigger] lp[k]).sub == sub
            &&& forall|k: int|
                0 <= k < lp.len() ==> axes.subrange(0, i as int).contains((#[trigger] lp[k]).axis)
            &&& distinct_axes(axes) ==> forall|k1: int, k2: int|
                0 <= k1 < k2 < lp.len() ==> (#[trigger] lp[k1]).axis != (#[trigger] lp[k2]).axis
            &&& lift_level(sub, axes, i, false).0 == in_place_all(lp)
            &&& (forall|j: int| 0 <= j < i ==> sub[#[trigger] axes[j] as int] <= 1) ==> lp.len() == 0
            &&& lp.len() == 0 ==> forall|j: int| 0 <= j < i ==> sub[#[trigger] axes[j] as int] <= 2
        }),
    decreases i,
{
    if i > 0 {
        let m = (i - 1) as nat;
        lemma_lift_level(sub, axes, m, first);
        lemma_lift_level(sub, axes, m, false);
        let (ps, fst) = lift_level(sub, axes, m, first);
        let (lp, fst2) = lift_level(sub, axes, i, first);
        let ax = axes[m as int];
        assert(axes.subrange(0, i as int).drop_last() =~= axes.subrange(0, m as int));
        assert forall|k: int| 0 <= k < lp.len() implies axes.subrange(0, i as int).contains(
            (#[trigger] lp[k]).axis,
        ) by {
            if k < ps.len() {
                assert(lp[k] == ps[k]);
                let j = choose|j: int| 0 <= j < m && axes.subrange(0, m as int)[j] == ps[k].axis;
                assert(axes.subrange(0, i as int)[j] == ps[k].axis);
            } else {
                assert(axes.subrange(0, i as int)[m as int] == ax);
            }
        }
        if distinct_axes(axes) {
            assert forall|k1: int, k2: int| 0 <= k1 < k2 < lp.len() implies (#[trigger] lp[k1]).axis
                != (#[trigger] lp[k2]).axis by {
                if k2 >= ps.len() {
                    assert(lp[k1] == ps[k1]);
                    assert(axes.subrange(0, m as int).contains(ps[k1].axis));
                    let j = choose|j: int| 0 <= j < m && axes.subrange(0, m as int)[j] == ps[k1].axis;
                    assert(axes[j] == ps[k1].axis);
                } else {
                    assert(lp[k1] == ps[k1] && lp[k2] == ps[k2]);
                }
            }
        }
        assert(lift_level(sub, axes, i, false).0 =~= in_place_all(lp));
    }
}

/// A lifting level shrinks no length, halves (rounded up) every axis of `axes[0..i]`
/// longer than one, and leaves a region whose axes are at most one long as it is.
proof fn lemma_lift_shrink(sub: Seq<usize>, axes: Seq<usize>, i: nat)
    requires
        i <= axes.len(),
        forall|j: int| 0 <= j < axes.len() ==> #[trigger] axes[j] < sub.len(),
    ensures
        lift_shrink(sub, axes, i).len() == sub.len(),
        forall|q: int| 0 <= q < sub.len() ==> #[trigger] lift_shrink(sub, axes, i)[q] <= sub[q],
        (forall|j: int| 0 <= j < i ==> sub[#[trigger] axes[j] as int] <= 2) ==> forall|j: int|
            0 <= j < i ==> lift_shrink(sub, axes, i)[#[trigger] axes[j] as int] <= 1,
        (forall|j: int| 0 <= j < i ==> sub[#[trigger] axes[j] as int] <= 1) ==> lift_shrink(
            sub,
            axes,
            i,
        ) == sub,
    decreases i,
{
    if i > 0 {
        let m = (i - 1) as nat;
        lemma_lift_shrink(sub, axes, m);
        let s = lift_shrink(sub, axes, m);
        let ax = axes[m as int] as int;
        assert(axes[m as int] < sub.len());
        if forall|j: int| 0 <= j < i ==> sub[#[trigger] axes[j] as int] <= 2 {
            assert forall|j: int| 0 <= j < i implies lift_shrink(sub, axes, i)[#[trigger] axes[j] as int]
                <= 1 by {
                if j < m {
                    assert(s[axes[j] as int] <= 1);
                } else {
                    assert(sub[axes[m as int] as int] <= 2);
                }
            }
        }
    }
}

/// What stays true of the first `lvl` forward lifting levels: the region keeps the shape's
/// length and no axis length grows, the first-pass flag says whether no pass was made,
/// only the first pass reads the input and it covers the whole array, and before the first
/// pass the region is the whole array or every transformed axis is at most one long.
proof fn lemma_lift_levels(shape: Seq<usize>, axes: Seq<usize>, lvl: nat)
    requires
        forall|j: int| 0 <= j < axes.len() ==> #[trigger] axes[j] < shape.len(),
    ensures
        ({
            let (sub, first, ps) = lift_levels(shape, axes, lvl);
            &&& sub.len() == shape.len()
            &&& first == (ps.len() == 0)
            &&& ps.len() > 0 ==> ps[0].from_input && ps[0].sub == shape
            &&& forall|k: int| 1 <= k < ps.len() ==> !(#[trigger] ps[k]).from_input
            &&& forall|k: int| 0 <= k < ps.len() ==> (#[trigger] ps[k]).axis < shape.len()
            &&& ps.len() == 0 ==> (sub == shape || forall|j: int|
                0 <= j < axes.len() ==> sub[#[trigger] axes[j] as int] <= 1)
        }),
    decreases lvl,
{
    if lvl > 0 {
        let m = (lvl - 1) as nat;
        lemma_lift_levels(shape, axes, m);
        let (sub, first, ps) = lift_levels(shape, axes, m);
        let n = axes.len();
        lemma_lift_level(sub, axes, n, first);
        lemma_lift_shrink(sub, axes, n);
        let (lp, fst) = lift_level(sub, axes, n, first);
        let all = ps + lp;
        assert forall|k: int| 0 <= k < all.len() implies (#[trigger] all[k]).axis < shape.len() by {
            if k >= ps.len() {
                assert(all[k] == lp[k - ps.len()]);
                assert(axes.subrange(0, n as int).contains(lp[k - ps.len()].axis));
            } else {
                assert(all[k] == ps[k]);
            }
        }
        assert forall|k: int| 1 <= k < all.len() implies !(#[trigger] all[k]).from_input by {
            if k >= ps.len() {
                assert(all[k] == lp[k - ps.len()]);
                if k - ps.len() == 0 {
                    assert(ps.len() > 0);
                }
            } else {
                assert(all[k] == ps[k]);
            }
        }
        if ps.len() == 0 {
            assert(all =~= lp);
            if sub != shape {
                assert(lp.len() == 0);
            }
        } else {
            assert(all[0] == ps[0]);
        }
    }
}

/// The inverse plan holds the levels of the forward plan in reverse order, each made in
/// place: going from `lvl - 1` to `lvl` levels, the forward plan gains the passes of level
/// `lvl - 1` at its end and the inverse plan gains the same passes, in place, at its start.
pub proof fn lemma_lift_plans_mirror(shape: Seq<usize>, axes: Seq<usize>, lvl: nat)
    requires
        lvl > 0,
        forall|j: int| 0 <= j < axes.len() ==> #[trigger] axes[j] < shape.len(),
    ensures
        lift_forward_plan(shape, axes, lvl) == lift_forward_plan(shape, axes, (lvl - 1) as nat)
            + lift_level_passes(shape, axes, (lvl - 1) as nat),
        lift_inverse_plan(shape, axes, lvl) == in_place_all(
            lift_level_passes(shape, axes, (lvl - 1) as nat),
        ) + lift_inverse_plan(shape, axes, (lvl - 1) as nat),
{
    let m = (lvl - 1) as nat;
    let (sub, first, ps) = lift_levels(shape, axes, m);
    lemma_lift_level(sub, axes, axes.len(), first);
}

/// Every axis left by [`unique_axes`] appears once.
pub proof fn lemma_unique_axes_distinct(axes: Seq<usize>)
    ensures
        distinct_axes(unique_axes(axes)),
    decreases axes.len(),
{
    if axes.len() > 0 {
        lemma_unique_axes_distinct(axes.drop_last());
        let rest = unique_axes(axes.drop_last());
        if !rest.contains(axes.last()) {
            let u = rest.push(axes.last());
            assert forall|i: int, j: int| 0 <= i < j < u.len() implies u[i] != u[j] by {
                if j == rest.len() {
                    assert(u[i] == rest[i]);
                }
            }
        }
    }
}

/// Passes along different axes over the same region commute between kernels `f` and `g`:
/// undoing a `g`-pass along one axis after an `f`-pass along another gives what the two
/// passes give the other way round.  Separable linear kernels and kernels that only
/// rearrange samples have this property.
pub open spec fn lift_passes_commute<T>(f: BandMap<T>, g: BandMap<T>) -> bool {
    forall|data: Seq<T>, shape: Seq<usize>, sub: Seq<usize>, a: int, b: int|
        a != b && data.len() == shape_prod(shape) ==> #[trigger] unlift_pass(
            g,
            lift_pass(f, data, shape, sub, b),
            shape,
            sub,
            a,
        ) == lift_pass(f, unlift_pass(g, data, shape, sub, a), shape, sub, b)
}

proof fn lemma_run_forward_append<T>(
    f: BandMap<T>,
    x: Seq<T>,
    d: Seq<T>,
    shape: Seq<usize>,
    a: Seq<PassModel>,
    b: Seq<PassModel>,
)
    ensures
        run_lift_forward(f, x, d, shape, a + b) == run_lift_forward(
            f,
            x,
            run_lift_forward(f, x, d, shape, a),
            shape,
            b,
        ),
    decreases b.len(),
{
    if b.len() == 0 {
        assert(a + b =~= a);
    } else {
        lemma_run_forward_append(f, x, d, shape, a, b.drop_last());
        assert((a + b).drop_last() =~= a + b.drop_last());
        assert((a + b).last() == b.last());
    }
}

proof fn lemma_run_inverse_append<T>(
    g: BandMap<T>,
    d: Seq<T>,
    shape: Seq<usize>,
    a: Seq<PassModel>,
    b: Seq<PassModel>,
)
    ensures
        run_lift_inverse(g, d, shape, a + b) == run_lift_inverse(
            g,
            run_lift_inverse(g, d, shape, a),
            shape,
            b,
        ),
    decreases b.len(),
{
    if b.len() == 0 {
        assert(a + b =~= a);
    } else {
        lemma_run_inverse_append(g, d, shape, a, b.drop_last());
        assert((a + b).drop_last() =~= a + b.drop_last());
        assert((a + b).last() == b.last());
    }
}

/// An inverse pass along `axis` moves past in-place forward passes along other axes over
/// the same region.
proof fn lemma_unlift_past<T>(
    f: BandMap<T>,
    g: BandMap<T>,
    x: Seq<T>,
    d: Seq<T>,
    shape: Seq<usize>,
    q: Seq<PassModel>,
    sub: Seq<usize>,
    axis: int,
)
    requires
        lift_passes_commute(f, g),
        d.len() == shape_prod(shape),
        x.len() == shape_prod(shape),
        forall|k: int|
            0 <= k < q.len() ==> (#[trigger] q[k]).sub == sub && q[k].axis != axis
                && !q[k].from_input,
    ensures
        unlift_pass(g, run_lift_forward(f, x, d, shape, q), shape, sub, axis) == run_lift_forward(
            f,
            x,
            unlift_pass(g, d, shape, sub, axis),
            shape,
            q,
        ),
    decreases q.len(),
{
    if q.len() > 0 {
        let q1 = q.drop_last();
        assert forall|k: int| 0 <= k < q1.len() implies (#[trigger] q1[k]).sub == sub && q1[k].axis
            != axis && !q1[k].from_input by {
            assert(q1[k] == q[k]);
        }
        lemma_unlift_past(f, g, x, d, shape, q1, sub, axis);
        let r = run_lift_forward(f, x, d, shape, q1);
        lemma_run_lift_forward_len(f, x, d, shape, q1);
        let p = q.last();
        assert(p == q[q.len() - 1]);
        assert(unlift_pass(g, lift_pass(f, r, shape, sub, p.axis as int), shape, sub, axis)
            == lift_pass(f, unlift_pass(g, r, shape, sub, axis), shape, sub, p.axis as int));
    }
}

/// In-place forward passes over one region along distinct axes are undone by the same
/// passes inverted, taken in the same order.
proof fn lemma_undo_level<T>(f: BandMap<T>, g: BandMap<T>, x: Seq<T>, d: Seq<T>, shape: Seq<usize>, ps: Seq<PassModel>, sub: Seq<usize>)
    requires
        lifting_inverse(f, g),
        lift_passes_commute(f, g),
        d.len() == shape_prod(shape),
        x.len() == shape_prod(shape),
        forall|k: int| 0 <= k < ps.len() ==> (#[trigger] ps[k]).sub == sub && !ps[k].from_input,
        forall|k1: int, k2: int|
            0 <= k1 < k2 < ps.len() ==> (#[trigger] ps[k1]).axis != (#[trigger] ps[k2]).axis,
    ensures
        run_lift_inverse(g, run_lift_forward(f, x, d, shape, ps), shape, ps) == d,
    decreases ps.len(),
{
    if ps.len() > 0 {
        let p = ps[0];
        let rest = ps.subrange(1, ps.len() as int);
        assert(ps =~= seq![p] + rest);
        assert forall|k: int| 0 <= k < rest.len() implies (#[trigger] rest[k]).sub == sub
            && !rest[k].from_input by {
            assert(rest[k] == ps[k + 1]);
        }
        assert forall|k1: int, k2: int| 0 <= k1 < k2 < rest.len() implies (#[trigger] rest[k1]).axis
            != (#[trigger] rest[k2]).axis by {
            assert(rest[k1] == ps[k1 + 1] && rest[k2] == ps[k2 + 1]);
        }
        assert forall|k: int| 0 <= k < rest.len() implies (#[trigger] rest[k]).sub == sub
            && rest[k].axis != p.axis && !rest[k].from_input by {
            assert(rest[k] == ps[k + 1]);
        }
        lemma_run_forward_append(f, x, d, shape, seq![p], rest);
        assert(seq![p].drop_last() =~= Seq::<PassModel>::empty());
        assert(seq![p].last() == p);
        let d1 = run_lift_forward(f, x, d, shape, seq![p]);
        assert(p.sub == sub && !p.from_input);
        assert(run_lift_forward(f, x, d, shape, seq![p].drop_last()) == d);
        assert(d1 == lift_pass(f, d, shape, sub, p.axis as int));
        lemma_run_lift_forward_len(f, x, d, shape, seq![p]);
        let e = run_lift_forward(f, x, d1, shape, rest);
        lemma_run_lift_inverse_prepend(g, e, shape, p, rest);
        lemma_unlift_past(f, g, x, d1, shape, rest, sub, p.axis as int);
        lemma_unlift_lift_pass(f, g, d, shape, sub, p.axis as int);
        lemma_undo_level(f, g, x, d, shape, rest, sub);
    }
}

/// The inverse plan undoes the forward plan made wholly in place.
proof fn lemma_undo_levels<T>(f: BandMap<T>, g: BandMap<T>, x: Seq<T>, d: Seq<T>, shape: Seq<usize>, axes: Seq<usize>, lvl: nat)
    requires
        lifting_inverse(f, g),
        lift_passes_commute(f, g),
        d.len() == shape_prod(shape),
        x.len() == shape_prod(shape),
        distinct_axes(axes),
        forall|j: int| 0 <= j < axes.len() ==> #[trigger] axes[j] < shape.len(),
    ensures
        run_lift_inverse(
            g,
            run_lift_forward(f, x, d, shape, in_place_all(lift_forward_plan(shape, axes, lvl))),
            shape,
            lift_inverse_plan(shape, axes, lvl),
        ) == d,
    decreases lvl,
{
    if lvl == 0 {
        assert(in_place_all(lift_forward_plan(shape, axes, 0)) =~= Seq::<PassModel>::empty());
    } else {
        let m = (lvl - 1) as nat;
        lemma_lift_plans_mirror(shape, axes, lvl);
        let (sub, first, ps) = lift_levels(shape, axes, m);
        lemma_lift_level(sub, axes, axes.len(), first);
        let lp = lift_level_passes(shape, axes, m);
        let a = in_place_all(lift_forward_plan(shape, axes, m));
        let b = in_place_all(lp);
        assert(in_place_all(lift_forward_plan(shape, axes, lvl)) =~= a + b);
        lemma_run_forward_append(f, x, d, shape, a, b);
        let e = run_lift_forward(f, x, d, shape, a);
        lemma_run_lift_forward_len(f, x, d, shape, a);
        let iprev = lift_inverse_plan(shape, axes, m);
        lemma_run_inverse_append(g, run_lift_forward(f, x, e, shape, b), shape, b, iprev);
        assert forall|k: int| 0 <= k < b.len() implies (#[trigger] b[k]).sub == sub
            && !b[k].from_input by {
            assert(b[k] == in_place(lp[k]));
        }
        assert forall|k1: int, k2: int| 0 <= k1 < k2 < b.len() implies (#[trigger] b[k1]).axis
            != (#[trigger] b[k2]).axis by {
            assert(b[k1] == in_place(lp[k1]) && b[k2] == in_place(lp[k2]));
        }
        lemma_undo_level(f, g, x, e, shape, b, sub);
        lemma_undo_levels(f, g, x, d, shape, axes, m);
    }
}

/// A forward plan whose only pass from the input is its first one, over the whole array,
/// gives from any output what the same plan made wholly in place on the input gives.
proof fn lemma_from_input_in_place<T>(f: BandMap<T>, g: BandMap<T>, x: Seq<T>, out: Seq<T>, shape: Seq<usize>, ps: Seq<PassModel>)
    requires
        lifting_inverse(f, g),
        x.len() == shape_prod(shape),
        out.len() == x.len(),
        0 < x.len() <= usize::MAX,
        ps.len() > 0,
        ps[0].from_input,
        ps[0].sub == shape,
        ps[0].axis < shape.len(),
        forall|k: int| 1 <= k < ps.len() ==> !(#[trigger] ps[k]).from_input,
    ensures
        run_lift_forward(f, x, out, shape, ps) == run_lift_forward(f, x, x, shape, in_place_all(ps)),
    decreases ps.len(),
{
    let ip = in_place_all(ps);
    assert(ip.drop_last() =~= in_place_all(ps.drop_last()));
    if ps.len() == 1 {
        assert(ps.drop_last() =~= Seq::<PassModel>::empty());
        assert(ip.drop_last() =~= Seq::<PassModel>::empty());
        lemma_lanes_ok_from_len(shape, ps[0].axis as int);
        lemma_lift_from_whole(f, g, x, out, shape, ps[0].axis as int);
        assert(ps.last() == ps[0]);
        assert(ip.last() == in_place(ps[0]));
        assert(run_lift_forward(f, x, out, shape, ps.drop_last()) == out);
        assert(run_lift_forward(f, x, x, shape, ip.drop_last()) == x);
    } else {
        let p1 = ps.drop_last();
        assert forall|k: int| 1 <= k < p1.len() implies !(#[trigger] p1[k]).from_input by {
            assert(p1[k] == ps[k]);
        }
        lemma_from_input_in_place(f, g, x, out, shape, p1);
        assert(!ps[ps.len() - 1].from_input);
        assert(ps.last() == ps[ps.len() - 1]);
        assert(ip.last() == in_place(ps.last()));
    }
}

/// The lifting drivers reconstruct along any set of axes: for kernels that invert each
/// other and whose passes along different axes commute, when the forward transform makes
/// at least one pass, the inverse transform of a copy of its output gives the input back.
pub proof fn lemma_lift_round_trip_nd<T>(
    f: BandMap<T>,
    g: BandMap<T>,
    x: Seq<T>,
    out: Seq<T>,
    work: Seq<T>,
    shape: Seq<usize>,
    axes: Seq<usize>,
    level: nat,
)
    requires
        lifting_inverse(f, g),
        lift_passes_commute(f, g),
        x.len() == shape_prod(shape),
        out.len() == x.len(),
        work.len() == x.len(),
        0 < x.len() <= usize::MAX,
        forall|j: int| 0 <= j < axes.len() ==> #[trigger] axes[j] < shape.len(),
        lift_forward_plan(shape, unique_axes(axes), level).len() > 0,
    ensures
        ({
            let ua = unique_axes(axes);
            let coefs = run_lift_forward(f, x, out, shape, lift_forward_plan(shape, ua, level));
            run_lift_inverse(
                g,
                copy_region(coefs, shape, work, shape, min_stride_axis(shape)),
                shape,
                lift_inverse_plan(shape, ua, level),
            ) == x
        }),
{
    let ua = unique_axes(axes);
    crate::lwt::driver::lemma_unique_axes_in(axes, shape.len() as int);
    lemma_unique_axes_distinct(axes);
    let plan = lift_forward_plan(shape, ua, level);
    lemma_lift_levels(shape, ua, level);
    lemma_from_input_in_place(f, g, x, out, shape, plan);
    let coefs = run_lift_forward(f, x, out, shape, plan);
    lemma_run_lift_forward_len(f, x, out, shape, plan);
    lemma_lanes_ok_from_len(shape, min_stride_axis(shape));
    lemma_copy_whole(coefs, work, shape, min_stride_axis(shape));
    lemma_undo_levels(f, g, x, x, shape, ua, level);
}

/// Lane `v` with its even-indexed samples first and its odd-indexed ones after.
pub open spec fn split_lane<T>(v: Seq<T>) -> Seq<T> {
    evens_of(v) + odds_of(v)
}

/// Array `x` (shape `shape`) with every lane along `axes[0]`, then along `axes[1]`, and so
/// on up to `axes[i - 1]`, split into its even- and odd-indexed samples.
pub open spec fn split_axes<T>(x: Seq<T>, shape: Seq<usize>, axes: Seq<usize>, i: nat) -> Seq<T>
    decreases i,
{
    if i == 0 {
        x
    } else {
        let ax = axes[i - 1] as int;
        map_lanes(
            split_axes(x, shape, axes, (i - 1) as nat),
            lane_layout(shape, ax),
            |v: Seq<T>| split_lane(v),
            shape_prod(shape.remove(ax)) as nat,
        )
    }
}

/// Band map `f` hands its bands back unchanged (the map of a no-op lifting kernel).
pub open spec fn keeps_bands<T>(f: BandMap<T>) -> bool {
    forall|s: Seq<T>, d: Seq<T>| #[trigger] f(s, d) == (s, d)
}

/// Splitting lanes of at most two samples leaves the array as it is.
proof fn lemma_split_short_lanes<T>(d: Seq<T>, shape: Seq<usize>, ax: int)
    requires
        lanes_ok(shape, ax),
        d.len() == shape_prod(shape),
        shape[ax] <= 2,
    ensures
        map_lanes(
            d,
            lane_layout(shape, ax),
            |v: Seq<T>| split_lane(v),
            shape_prod(shape.remove(ax)) as nat,
        ) == d,
{
    let l = lane_layout(shape, ax);
    let n = shape_prod(shape.remove(ax));
    let h = |v: Seq<T>| split_lane(v);
    assert(sub_lanes_ok(shape, shape, ax));
    assert(sub_lane_layout(shape, shape, ax) == l);
    lemma_sub_lanes_apart(shape, shape, ax);
    lemma_sub_lanes_nonempty(shape, shape, ax);
    assert forall|k: int| 0 <= k < n implies #[trigger] h(lane_of(l, k).read(d)) == lane_of(
        l,
        k,
    ).read(d) by {
        let v = lane_of(l, k).read(d);
        assert(split_lane(v) =~= v);
    }
    lemma_map_lanes(d, l, h, n as nat);
    let r = map_lanes(d, l, h, n as nat);
    assert forall|p: int| 0 <= p < d.len() implies r[p] == d[p] by {
        if in_lanes(l, n, p) {
            let (k, i) = choose|k: int, i: int|
                0 <= k < n && 0 <= i < l.lane_length && #[trigger] lane_of(l, k).index_of(i) == p;
            assert(r[lane_of(l, k).index_of(i)] == h(lane_of(l, k).read(d))[i]);
        }
    }
    assert(r =~= d);
}

/// The first lifting level of a kernel that keeps its bands, over `axes[0..i]`, is the
/// even/odd split of every lane along each of those axes in turn.
proof fn lemma_split_level<T>(
    f: BandMap<T>,
    x: Seq<T>,
    shape: Seq<usize>,
    axes: Seq<usize>,
    i: nat,
)
    requires
        keeps_bands(f),
        x.len() == shape_prod(shape),
        1 <= x.len() <= usize::MAX,
        i <= axes.len(),
        forall|j: int| 0 <= j < axes.len() ==> #[trigger] axes[j] < shape.len(),
    ensures
        run_lift_forward(f, x, x, shape, in_place_all(lift_level(shape, axes, i, true).0))
            == split_axes(x, shape, axes, i),
    decreases i,
{
    if i == 0 {
        assert(in_place_all(lift_level(shape, axes, 0, true).0) =~= Seq::<PassModel>::empty());
    } else {
        let m = (i - 1) as nat;
        lemma_split_level(f, x, shape, axes, m);
        let ax = axes[m as int] as int;
        let prev = split_axes(x, shape, axes, m);
        let (ps, fst) = lift_level(shape, axes, m, true);
        let (lp, fst2) = lift_level(shape, axes, i, true);
        lemma_lanes_ok_from_len(shape, ax);
        assert(axes[m as int] < shape.len());
        let nn = shape[ax];
        let l = lane_layout(shape, ax);
        let nl = shape_prod(shape.remove(ax));
        let ip = in_place_all(lp);
        lemma_run_lift_forward_len(f, x, x, shape, in_place_all(ps));
        if nn - nn / 2 > 1 {
            assert(ip.drop_last() =~= in_place_all(ps));
            let q = ip.last();
            assert(q.sub == shape && q.axis as int == ax && !q.from_input);
            assert(sub_lanes_ok(shape, shape, ax));
            assert(sub_lane_layout(shape, shape, ax) == l);
            lemma_lift_lanes_map(f, prev, l, nl as nat);
            let h1 = |v: Seq<T>| lift_lane(f, v);
            let h2 = |v: Seq<T>| split_lane(v);
            assert forall|v: Seq<T>| #[trigger] h1(v) == h2(v) by {
                assert(f(evens_of(v), odds_of(v)) == (evens_of(v), odds_of(v)));
            }
            assert(h1 =~= h2);
        } else {
            assert(ip =~= in_place_all(ps));
            lemma_split_short_lanes(prev, shape, ax);
            assert(nn <= 2);
        }
    }
}

/// The first lifting level of a kernel that keeps its bands splits every lane of the input
/// into its even- and odd-indexed samples along each transformed axis in turn, when it
/// makes at least one pass: the lifting transform is a lifting scheme layered on the even /
/// odd split of the lanes.
pub proof fn lemma_level_one_splits<T>(
    f: BandMap<T>,
    x: Seq<T>,
    out: Seq<T>,
    shape: Seq<usize>,
    axes: Seq<usize>,
)
    requires
        keeps_bands(f),
        x.len() == shape_prod(shape),
        out.len() == x.len(),
        0 < x.len() <= usize::MAX,
        forall|j: int| 0 <= j < axes.len() ==> #[trigger] axes[j] < shape.len(),
        lift_forward_plan(shape, unique_axes(axes), 1).len() > 0,
    ensures
        run_lift_forward(f, x, out, shape, lift_forward_plan(shape, unique_axes(axes), 1))
            == split_axes(x, shape, unique_axes(axes), unique_axes(axes).len()),
{
    let ua = unique_axes(axes);
    crate::lwt::driver::lemma_unique_axes_in(axes, shape.len() as int);
    assert(lifting_inverse(f, f)) by {
        assert forall|s: Seq<T>, d: Seq<T>|
            s.len() == d.len() || s.len() == d.len() + 1 implies {
                let (s2, d2) = #[trigger] f(s, d);
                &&& s2.len() == s.len()
                &&& d2.len() == d.len()
                &&& f(s2, d2) == (s, d)
            } by {
            assert(f(s, d) == (s, d));
        }
    }
    let plan = lift_forward_plan(shape, ua, 1);
    lemma_lift_levels(shape, ua, 1);
    lemma_from_input_in_place(f, f, x, out, shape, plan);
    assert(lift_levels(shape, ua, 0) == (shape, true, Seq::<PassModel>::empty()));
    assert(plan =~= lift_level(shape, ua, ua.len(), true).0);
    lemma_split_level(f, x, shape, ua, ua.len());
}

// ---------------------------------------------------------------------------------------
// Kernels that keep their bands
// ---------------------------------------------------------------------------------------
/// Source of element `i` of a lane of `n` samples after the even/odd split.
pub open spec fn split_src(n: int, i: int) -> int {
    let ne = n - n / 2;
    if i < ne {
        2 * i
    } else {
        2 * (i - ne) + 1
    }
}

/// Source of element `i` of a lane of `n` samples after its leading `n - n / 2` samples
/// and the rest are interleaved again.
pub open spec fn merge_src(n: int, i: int) -> int {
    if i % 2 == 0 {
        i / 2
    } else {
        (n - n / 2) + i / 2
    }
}

/// Element `q[axis]` of the lane of region `sub` through multi-index `q` after a lane pass
/// that rearranges every lane by the index map `src`.
proof fn lemma_rearranged_inside<T>(
    data: Seq<T>,
    r: Seq<T>,
    shape: Seq<usize>,
    sub: Seq<usize>,
    axis: int,
    h: spec_fn(Seq<T>) -> Seq<T>,
    src: spec_fn(int, int) -> int,
    q: Seq<usize>,
)
    requires
        sub_lanes_ok(shape, sub, axis),
        in_shape(q, sub),
        forall|i: int| 0 <= i < sub[axis] ==> 0 <= #[trigger] src(sub[axis] as int, i) < sub[axis],
        forall|v: Seq<T>, i: int|
            v.len() == sub[axis] && 0 <= i < v.len() ==> #[trigger] h(v)[i] == v[src(
                v.len() as int,
                i,
            )],
        forall|k: int, i: int|
            0 <= k < shape_prod(sub.remove(axis)) && 0 <= i < sub[axis] ==> r[#[trigger] lane_of(
                sub_lane_layout(shape, sub, axis),
                k,
            ).index_of(i)] == h(lane_of(sub_lane_layout(shape, sub, axis), k).read(data))[i],
    ensures
        r[dot(q, row_strides(shape))] == data[dot(
            q.update(axis, src(sub[axis] as int, q[axis] as int) as usize),
            row_strides(shape),
        )],
{
    let l = sub_lane_layout(shape, sub, axis);
    lemma_region_lane(sub, axis, q);
    let k = dot(q.remove(axis), row_strides(sub.remove(axis)));
    let i = q[axis] as int;
    let u = unravel_spec(k, sub.remove(axis));
    lemma_sub_lane_element(shape, sub, axis, k, i);
    lemma_sub_lane_in_bounds(shape, sub, axis, k);
    let lane = lane_of(l, k);
    let v = lane.read(data);
    assert(v.len() == sub[axis]);
    let j = src(v.len() as int, i);
    assert(0 <= src(sub[axis] as int, i) < sub[axis]);
    assert(h(v)[i] == v[j]);
    lemma_sub_lane_element(shape, sub, axis, k, j);
    crate::iter::slice::lemma_unravel_shape(k, sub.remove(axis));
    assert(u.len() == sub.len() - 1);
    assert(u =~= q.remove(axis)) by {
        assert(u.insert(axis, q[axis]) == q);
        assert forall|j: int| 0 <= j < u.len() implies u[j] == q.remove(axis)[j] by {
            if j < axis {
                assert(u.insert(axis, q[axis])[j] == u[j]);
            } else {
                assert(u.insert(axis, q[axis])[j + 1] == u[j]);
            }
        }
    }
    assert(u.insert(axis, j as usize) =~= q.update(axis, j as usize));
}

/// A sample whose multi-index lies outside region `sub` is on no lane of the region.
proof fn lemma_outside_lanes(shape: Seq<usize>, sub: Seq<usize>, axis: int, p: int)
    requires
        sub_lanes_ok(shape, sub, axis),
        !in_shape(unravel_spec(p, shape), sub),
    ensures
        !crate::dwt::lanes::in_lanes(
            sub_lane_layout(shape, sub, axis),
            shape_prod(sub.remove(axis)),
            p,
        ),
{
    let l = sub_lane_layout(shape, sub, axis);
    let n = shape_prod(sub.remove(axis));
    if crate::dwt::lanes::in_lanes(l, n, p) {
        let (k, i) = choose|k: int, i: int|
            0 <= k < n && 0 <= i < l.lane_length && #[trigger] lane_of(l, k).index_of(i) == p;
        lemma_sub_lane_element(shape, sub, axis, k, i);
        let q = unravel_spec(k, sub.remove(axis)).insert(axis, i as usize);
        assert(in_shape(q, shape)) by {
            assert forall|j: int| 0 <= j < shape.len() implies q[j] < shape[j] by {
                assert(sub[j] <= shape[j]);
            }
        }
        lemma_unravel_dot(q, shape);
    }
}

/// A lane pass that rearranges every lane of region `sub` along `axis` by the same index
/// map moves the sample at multi-index `q` of the region along `axis` only, and leaves the
/// samples outside the region where they are.
proof fn lemma_rearranging_pass<T>(
    data: Seq<T>,
    shape: Seq<usize>,
    sub: Seq<usize>,
    axis: int,
    h: spec_fn(Seq<T>) -> Seq<T>,
    src: spec_fn(int, int) -> int,
)
    requires
        sub_lanes_ok(shape, sub, axis),
        data.len() == shape_prod(shape),
        forall|v: Seq<T>| v.len() == sub[axis] ==> #[trigger] h(v).len() == v.len(),
        forall|i: int| 0 <= i < sub[axis] ==> 0 <= #[trigger] src(sub[axis] as int, i) < sub[axis],
        forall|v: Seq<T>, i: int|
            v.len() == sub[axis] && 0 <= i < v.len() ==> #[trigger] h(v)[i] == v[src(
                v.len() as int,
                i,
            )],
    ensures
        ({
            let r = map_lanes(
                data,
                sub_lane_layout(shape, sub, axis),
                h,
                shape_prod(sub.remove(axis)) as nat,
            );
            &&& r.len() == data.len()
            &&& forall|q: Seq<usize>|
                in_shape(q, sub) ==> r[#[trigger] dot(q, row_strides(shape))] == data[dot(
                    q.update(axis, src(sub[axis] as int, q[axis] as int) as usize),
                    row_strides(shape),
                )]
            &&& forall|p: int|
                0 <= p < data.len() && !in_shape(unravel_spec(p, shape), sub) ==> #[trigger] r[p]
                    == data[p]
        }),
{
    let l = sub_lane_layout(shape, sub, axis);
    crate::utils::lemma_shape_prod_nonneg(sub.remove(axis));
    let n = shape_prod(sub.remove(axis));
    lemma_sub_lanes_apart(shape, sub, axis);
    assert forall|k: int| 0 <= k < n implies #[trigger] h(lane_of(l, k).read(data)).len()
        == l.lane_length by {
        lemma_sub_lane_in_bounds(shape, sub, axis, k);
    }
    lemma_map_lanes(data, l, h, n as nat);
    let r = map_lanes(data, l, h, n as nat);
    assert forall|q: Seq<usize>| in_shape(q, sub) implies r[#[trigger] dot(q, row_strides(shape))]
        == data[dot(
        q.update(axis, src(sub[axis] as int, q[axis] as int) as usize),
        row_strides(shape),
    )] by {
        lemma_rearranged_inside(data, r, shape, sub, axis, h, src, q);
    }
    assert forall|p: int| 0 <= p < data.len() && !in_shape(unravel_spec(p, shape), sub) implies #[trigger] r[p]
        == data[p] by {
        lemma_outside_lanes(shape, sub, axis, p);
    }
}

/// A pass of a lifting kernel that keeps its bands splits every lane of the region.
proof fn lemma_split_pass<T>(
    f: BandMap<T>,
    data: Seq<T>,
    shape: Seq<usize>,
    sub: Seq<usize>,
    axis: int,
)
    requires
        keeps_bands(f),
        sub_lanes_ok(shape, sub, axis),
        data.len() == shape_prod(shape),
    ensures
        ({
            let r = lift_pass(f, data, shape, sub, axis);
            &&& r.len() == data.len()
            &&& forall|q: Seq<usize>|
                in_shape(q, sub) ==> r[#[trigger] dot(q, row_strides(shape))] == data[dot(
                    q.update(axis, split_src(sub[axis] as int, q[axis] as int) as usize),
                    row_strides(shape),
                )]
            &&& forall|p: int|
                0 <= p < data.len() && !in_shape(unravel_spec(p, shape), sub) ==> #[trigger] r[p]
                    == data[p]
        }),
{
    let l = sub_lane_layout(shape, sub, axis);
    let n = shape_prod(sub.remove(axis)) as nat;
    lemma_lift_lanes_map(f, data, l, n);
    let h1 = |v: Seq<T>| lift_lane(f, v);
    let h2 = |v: Seq<T>| split_lane(v);
    assert forall|v: Seq<T>| #[trigger] h1(v) == h2(v) by {
        assert(f(evens_of(v), odds_of(v)) == (evens_of(v), odds_of(v)));
    }
    assert(h1 =~= h2);
    assert forall|v: Seq<T>, i: int|
        v.len() == sub[axis] && 0 <= i < v.len() implies #[trigger] h2(v)[i] == v[split_src(
        v.len() as int,
        i,
    )] by {
        let ne = v.len() - v.len() / 2;
        assert(evens_of(v).len() == ne);
        if i < ne {
            assert(h2(v)[i] == evens_of(v)[i]);
        } else {
            assert(h2(v)[i] == odds_of(v)[i - ne]);
        }
    }
    lemma_rearranging_pass(data, shape, sub, axis, h2, |n: int, i: int| split_src(n, i));
}

/// An inverse pass of a lifting kernel that keeps its bands interleaves every lane of the
/// region again.
proof fn lemma_merge_pass<T>(
    g: BandMap<T>,
    data: Seq<T>,
    shape: Seq<usize>,
    sub: Seq<usize>,
    axis: int,
)
    requires
        keeps_bands(g),
        sub_lanes_ok(shape, sub, axis),
        data.len() == shape_prod(shape),
    ensures
        ({
            let r = unlift_pass(g, data, shape, sub, axis);
            &&& r.len() == data.len()
            &&& forall|q: Seq<usize>|
                in_shape(q, sub) ==> r[#[trigger] dot(q, row_strides(shape))] == data[dot(
                    q.update(axis, merge_src(sub[axis] as int, q[axis] as int) as usize),
                    row_strides(shape),
                )]
            &&& forall|p: int|
                0 <= p < data.len() && !in_shape(unravel_spec(p, shape), sub) ==> #[trigger] r[p]
                    == data[p]
        }),
{
    let l = sub_lane_layout(shape, sub, axis);
    let n = shape_prod(sub.remove(axis)) as nat;
    lemma_unlift_lanes_map(g, data, l, n);
    let h = |v: Seq<T>| unlift_lane(g, v);
    assert forall|v: Seq<T>| v.len() == sub[axis] implies #[trigger] h(v).len() == v.len() by {
        let ne = v.len() - v.len() / 2;
        assert(g(v.subrange(0, ne), v.subrange(ne, v.len() as int)) == (
            v.subrange(0, ne),
            v.subrange(ne, v.len() as int),
        ));
    }
    assert forall|v: Seq<T>, i: int|
        v.len() == sub[axis] && 0 <= i < v.len() implies #[trigger] h(v)[i] == v[merge_src(
        v.len() as int,
        i,
    )] by {
        let ne = v.len() - v.len() / 2;
        let a = v.subrange(0, ne);
        let b = v.subrange(ne, v.len() as int);
        assert(g(a, b) == (a, b));
        assert(h(v) == interleaved(a, b));
        if i % 2 == 0 {
            assert(h(v)[i] == a[i / 2]);
        } else {
            assert(h(v)[i] == b[i / 2]);
        }
    }
    lemma_rearranging_pass(data, shape, sub, axis, h, |n: int, i: int| merge_src(n, i));
}

/// The passes of lifting kernels that keep their bands, along different axes, commute.
proof fn lemma_keeping_passes_commute<T>(f: BandMap<T>, g: BandMap<T>, data: Seq<T>, shape: Seq<usize>, sub: Seq<usize>, a: int, b: int)
    requires
        keeps_bands(f),
        keeps_bands(g),
        a != b,
        data.len() == shape_prod(shape),
    ensures
        unlift_pass(g, lift_pass(f, data, shape, sub, b), shape, sub, a) == lift_pass(
            f,
            unlift_pass(g, data, shape, sub, a),
            shape,
            sub,
            b,
        ),
{
    if sub_lanes_ok(shape, sub, a) && sub_lanes_ok(shape, sub, b) {
        let rs = row_strides(shape);
        let lb = lift_pass(f, data, shape, sub, b);
        let ua = unlift_pass(g, data, shape, sub, a);
        lemma_split_pass(f, data, shape, sub, b);
        lemma_merge_pass(g, data, shape, sub, a);
        lemma_merge_pass(g, lb, shape, sub, a);
        lemma_split_pass(f, ua, shape, sub, b);
        let x1 = unlift_pass(g, lb, shape, sub, a);
        let x2 = lift_pass(f, ua, shape, sub, b);
        assert forall|p: int| 0 <= p < data.len() implies x1[p] == x2[p] by {
            lemma_flat_multi(p, shape);
            let q = unravel_spec(p, shape);
            if in_shape(q, sub) {
                let ma = merge_src(sub[a] as int, q[a] as int) as usize;
                let sb = split_src(sub[b] as int, q[b] as int) as usize;
                let q1 = q.update(a, ma);
                let q2 = q.update(b, sb);
                assert(in_shape(q1, sub));
                assert(in_shape(q2, sub));
                assert(x1[dot(q, rs)] == lb[dot(q1, rs)]);
                assert(lb[dot(q1, rs)] == data[dot(q1.update(b, sb), rs)]);
                assert(x2[dot(q, rs)] == ua[dot(q2, rs)]);
                assert(ua[dot(q2, rs)] == data[dot(q2.update(a, ma), rs)]);
                assert(q1.update(b, sb) =~= q2.update(a, ma));
            } else {
                assert(x1[p] == lb[p]);
                assert(x2[p] == ua[p]);
            }
        }
        assert(x1 =~= x2);
    }
}

/// Lifting kernels that hand their bands back unchanged have passes along different axes
/// that commute: each such pass only rearranges the samples of its lanes along its own
/// axis.
pub proof fn lemma_keeping_kernels_commute<T>(f: BandMap<T>, g: BandMap<T>)
    requires
        keeps_bands(f),
        keeps_bands(g),
    ensures
        lift_passes_commute(f, g),
{
    assert forall|data: Seq<T>, shape: Seq<usize>, sub: Seq<usize>, a: int, b: int|
        a != b && data.len() == shape_prod(shape) implies #[trigger] unlift_pass(
        g,
        lift_pass(f, data, shape, sub, b),
        shape,
        sub,
        a,
    ) == lift_pass(f, unlift_pass(g, data, shape, sub, a), shape, sub, b) by {
        lemma_keeping_passes_commute(f, g, data, shape, sub, a, b);
    }
}

/// The lifting drivers reconstruct along any set of axes with a pair of kernels that hand
/// their bands back unchanged (the drivers then only split and merge the lanes): when the
/// forward transform makes at least one pass, the inverse transform of a copy of its
/// output gives the input back.
pub proof fn lemma_keeping_round_trip_nd<T>(
    f: BandMap<T>,
    g: BandMap<T>,
    x: Seq<T>,
    out: Seq<T>,
    work: Seq<T>,
    shape: Seq<usize>,
    axes: Seq<usize>,
    level: nat,
)
    requires
        keeps_bands(f),
        keeps_bands(g),
        x.len() == shape_prod(shape),
        out.len() == x.len(),
        work.len() == x.len(),
        0 < x.len() <= usize::MAX,
        forall|j: int| 0 <= j < axes.len() ==> #[trigger] axes[j] < shape.len(),
        lift_forward_plan(shape, unique_axes(axes), level).len() > 0,
    ensures
        ({
            let ua = unique_axes(axes);
            let coefs = run_lift_forward(f, x, out, shape, lift_forward_plan(shape, ua, level));
            run_lift_inverse(
                g,
                copy_region(coefs, shape, work, shape, min_stride_axis(shape)),
                shape,
                lift_inverse_plan(shape, ua, level),
            ) == x
        }),
{
    lemma_keeping_kernels_commute(f, g);
    assert(lifting_inverse(f, g)) by {
        assert forall|s: Seq<T>, d: Seq<T>|
            s.len() == d.len() || s.len() == d.len() + 1 implies {
                let (s2, d2) = #[trigger] f(s, d);
                &&& s2.len() == s.len()
                &&& d2.len() == d.len()
                &&& g(s2, d2) == (s, d)
            } by {
            assert(f(s, d) == (s, d));
            assert(g(s, d) == (s, d));
        }
    }
    lemma_lift_round_trip_nd(f, g, x, out, work, shape, axes, level);
}

// ---------------------------------------------------------------------------------------
// Deinterleaving as successive lane splits
// ---------------------------------------------------------------------------------------
/// The axes `0, 1, ..., d - 1`.
pub open spec fn all_axes(d: nat) -> Seq<usize> {
    Seq::new(d, |j: int| j as usize)
}

/// Multi-index `q` with each of its first `i` entries mapped through the even/odd split of
/// its axis.
pub open spec fn split_index(shape: Seq<usize>, q: Seq<usize>, i: int) -> Seq<usize> {
    Seq::new(
        q.len(),
        |j: int|
            if j < i {
                split_src(shape[j] as int, q[j] as int) as usize
            } else {
                q[j]
            },
    )
}

proof fn lemma_split_lane_at<T>(v: Seq<T>, i: int)
    requires
        0 <= i < v.len(),
    ensures
        0 <= split_src(v.len() as int, i) < v.len(),
        split_lane(v)[i] == v[split_src(v.len() as int, i)],
{
    let ne = v.len() - v.len() / 2;
    assert(evens_of(v).len() == ne);
    if i < ne {
        assert(split_lane(v)[i] == evens_of(v)[i]);
    } else {
        assert(split_lane(v)[i] == odds_of(v)[i - ne]);
    }
}

/// Splitting the lanes along axis `m` of an array whose first `m` axes are already split
/// splits the first `m + 1`.
proof fn lemma_split_axis_step<T>(x: Seq<T>, prev: Seq<T>, shape: Seq<usize>, m: int)
    requires
        x.len() == shape_prod(shape),
        prev.len() == x.len(),
        1 <= shape_prod(shape) <= usize::MAX,
        0 <= m < shape.len(),
        forall|q: Seq<usize>|
            in_shape(q, shape) ==> prev[#[trigger] dot(q, row_strides(shape))] == x[dot(
                split_index(shape, q, m),
                row_strides(shape),
            )],
    ensures
        ({
            let cur = map_lanes(
                prev,
                lane_layout(shape, m),
                |v: Seq<T>| split_lane(v),
                shape_prod(shape.remove(m)) as nat,
            );
            &&& cur.len() == x.len()
            &&& forall|q: Seq<usize>|
                in_shape(q, shape) ==> cur[#[trigger] dot(q, row_strides(shape))] == x[dot(
                    split_index(shape, q, m + 1),
                    row_strides(shape),
                )]
        }),
{
    let rs = row_strides(shape);
    lemma_lanes_ok_from_len(shape, m);
    assert(sub_lanes_ok(shape, shape, m));
    assert(sub_lane_layout(shape, shape, m) == lane_layout(shape, m));
    let h = |v: Seq<T>| split_lane(v);
    assert forall|v: Seq<T>| v.len() == shape[m] implies #[trigger] h(v).len() == v.len() by {
        assert(evens_of(v).len() + odds_of(v).len() == v.len());
    }
    assert forall|v: Seq<T>, j: int| v.len() == shape[m] && 0 <= j < v.len() implies #[trigger] h(
        v,
    )[j] == v[split_src(v.len() as int, j)] by {
        lemma_split_lane_at(v, j);
    }
    lemma_rearranging_pass(prev, shape, shape, m, h, |n: int, j: int| split_src(n, j));
    let cur = map_lanes(prev, lane_layout(shape, m), h, shape_prod(shape.remove(m)) as nat);
    assert forall|q: Seq<usize>| in_shape(q, shape) implies cur[#[trigger] dot(q, rs)] == x[dot(
        split_index(shape, q, m + 1),
        rs,
    )] by {
        let q1 = q.update(m, split_src(shape[m] as int, q[m] as int) as usize);
        assert(in_shape(q1, shape));
        assert(cur[dot(q, rs)] == prev[dot(q1, rs)]);
        assert(split_index(shape, q1, m) =~= split_index(shape, q, m + 1));
    }
}

/// Splitting the lanes along the first `i` axes moves the sample at multi-index `q` to the
/// multi-index whose first `i` entries are mapped through the split.
proof fn lemma_split_axes_at<T>(x: Seq<T>, shape: Seq<usize>, i: nat)
    requires
        x.len() == shape_prod(shape),
        1 <= shape_prod(shape) <= usize::MAX,
        shape.len() <= usize::MAX,
        i <= shape.len(),
    ensures
        split_axes(x, shape, all_axes(shape.len()), i).len() == x.len(),
        forall|q: Seq<usize>|
            in_shape(q, shape) ==> split_axes(x, shape, all_axes(shape.len()), i)[#[trigger] dot(
                q,
                row_strides(shape),
            )] == x[dot(split_index(shape, q, i as int), row_strides(shape))],
    decreases i,
{
    let axes = all_axes(shape.len());
    let rs = row_strides(shape);
    if i == 0 {
        assert forall|q: Seq<usize>| in_shape(q, shape) implies split_axes(x, shape, axes, i)[
            #[trigger] dot(q, rs)] == x[dot(split_index(shape, q, i as int), rs)] by {
            assert(split_index(shape, q, 0) =~= q);
        }
    } else {
        let m = (i - 1) as nat;
        lemma_split_axes_at(x, shape, m);
        assert(axes[m as int] as int == m);
        lemma_split_axis_step(x, split_axes(x, shape, axes, m), shape, m as int);
    }
}

/// The row strides of an array without its first axis are those of the array after the
/// first one, and the first is the size of the rest.
proof fn lemma_row_strides_first(shape: Seq<usize>)
    requires
        shape.len() >= 1,
    ensures
        row_strides(shape).remove(0) == row_strides(shape.drop_first()),
        row_strides(shape)[0] == shape_prod(shape.drop_first()),
{
    let rest = shape.drop_first();
    assert(shape.subrange(1, shape.len() as int) =~= rest);
    assert forall|j: int| 0 <= j < rest.len() implies row_strides(shape).remove(0)[j]
        == row_strides(rest)[j] by {
        assert(shape.subrange(j + 2, shape.len() as int) =~= rest.subrange(j + 1, rest.len() as int));
        assert(row_strides(shape).remove(0)[j] == row_major_stride(shape, j + 1));
    }
    assert(row_strides(shape).remove(0) =~= row_strides(rest));
}

/// The source map of the N-D deinterleave sends the flat index of `q` to the flat index
/// of `q` with every entry mapped through the split of its axis.
#[verifier::spinoff_prover]
proof fn lemma_deint_nd_src_split(shape: Seq<usize>, q: Seq<usize>)
    requires
        shape.len() >= 1,
        in_shape(q, shape),
    ensures
        deint_nd_src(shape, dot(q, row_strides(shape))) == dot(
            split_index(shape, q, shape.len() as int),
            row_strides(shape),
        ),
    decreases shape.len(),
{
    let rs = row_strides(shape);
    let sq = split_index(shape, q, shape.len() as int);
    let n0 = shape[0] as int;
    let q0 = q[0] as int;
    assert(q0 < n0);
    assert(deint_src(n0, q0) == split_src(n0, q0));
    assert(0 <= split_src(n0, q0) < n0);
    assert(sq[0] as int == split_src(n0, q0));
    lemma_row_strides_first(shape);
    let rest = shape.drop_first();
    let qr = q.drop_first();
    assert(qr.insert(0, q[0]) =~= q);
    lemma_dot_insert(qr, rs, 0, q[0]);
    let sqr = sq.drop_first();
    assert(sqr.insert(0, sq[0]) =~= sq);
    lemma_dot_insert(sqr, rs, 0, sq[0]);
    if shape.len() == 1 {
        assert(rest =~= Seq::<usize>::empty());
        assert(qr =~= Seq::<usize>::empty());
        assert(sqr =~= Seq::<usize>::empty());
        assert(shape_prod(rest) == 1);
        assert(rs[0] == 1);
        assert(dot(q, rs) == q0);
        assert(dot(sq, rs) == split_src(n0, q0));
        assert(deint_nd_src(shape, q0) == deint_src(n0, q0));
    } else {
        let sub = shape_prod(rest);
        assert(in_shape(qr, rest)) by {
            assert forall|j: int| 0 <= j < rest.len() implies qr[j] < rest[j] by {
                assert(qr[j] == q[j + 1]);
            }
        }
        lemma_flat_bound(qr, rest);
        let r = dot(qr, row_strides(rest));
        let k = dot(q, rs);
        assert(k == q[0] * sub + r) by (nonlinear_arith)
            requires
                k == r + q[0] * sub,
        ;
        lemma_fundamental_div_mod_converse(k, sub, q[0] as int, r);
        assert(k / sub == q0 && k % sub == r);
        assert(deint_nd_src(shape, k) == deint_src(n0, q0) * sub + deint_nd_src(rest, r));
        lemma_deint_nd_src_split(rest, qr);
        assert(sqr =~= split_index(rest, qr, rest.len() as int));
        let t = dot(sqr, row_strides(rest));
        assert(deint_nd_src(rest, r) == t);
        assert(dot(sq, rs) == t + sq[0] * sub);
        assert(split_src(n0, q0) * sub == sq[0] * sub);
    }
}

/// Deinterleaving an N-D array is the even/odd split of every lane along the first axis,
/// then along the second, and so on: the source map of `deinterleave_nd` takes each
/// output sample from where successive per-axis lane splits take it.
pub proof fn lemma_deinterleave_nd_splits_axes<T>(x: Seq<T>, shape: Seq<usize>)
    requires
        1 <= shape.len() <= usize::MAX,
        x.len() == shape_prod(shape),
        1 <= x.len() <= usize::MAX,
    ensures
        Seq::new(x.len(), |k: int| x[deint_nd_src(shape, k)]) == split_axes(
            x,
            shape,
            all_axes(shape.len()),
            shape.len(),
        ),
{
    let rs = row_strides(shape);
    let target = split_axes(x, shape, all_axes(shape.len()), shape.len());
    lemma_split_axes_at(x, shape, shape.len());
    assert forall|k: int| 0 <= k < x.len() implies x[deint_nd_src(shape, k)] == target[k] by {
        lemma_flat_multi(k, shape);
        let q = unravel_spec(k, shape);
        lemma_deint_nd_src_split(shape, q);
        assert(target[dot(q, rs)] == x[dot(split_index(shape, q, shape.len() as int), rs)]);
    }
    assert(Seq::new(x.len(), |k: int| x[deint_nd_src(shape, k)]) =~= target);
}

} // verus!
