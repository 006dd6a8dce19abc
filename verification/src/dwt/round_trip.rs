//! Periodic reconstruction by the DWT drivers along several axes.
//!
//! In periodic mode every pass of a level works on the same region, the approximation
//! block left by the previous levels.  The inverse plan holds the levels of the forward
//! plan in reverse order; within a level it takes the axes in the forward order, so each
//! inverse pass is moved past the forward passes along the later axes.  Reconstruction
//! therefore holds for kernel pairs whose passes along different axes commute, as those of
//! separable linear kernels do.  An inverse level also lists, for an axis of two samples
//! that the forward level leaves alone, a pass whose bands do not fit its lanes; the
//! drivers leave such a pass out.
use crate::dwt::driver::{
    band_lengths, forward_level, forward_levels, forward_plan, in_place, in_place_all,
    inverse_level_passes, inverse_level_shapes, inverse_level_state, inverse_plan,
    inverse_plan_levels, lemma_forward_from_whole, lemma_periodic_pass, lemma_run_forward_len,
    lemma_run_inverse_prepend, min_stride_axis, periodic_inverse, run_forward, run_inverse,
    sat_sub, shrink_level, PassModel, PlanState,
};
use crate::dwt::lanes::{
    BandJoin, BandSplit,
    copy_region, forward_pass, inverse_lanes, inverse_pass, lemma_copy_whole, pass_fits,
};
use crate::iter::slice::{lane_of, lemma_lanes_ok_from_len, LaneLayout};
use crate::lwt::round_trip::distinct_axes;
use crate::utils::shape_prod;
use vstd::prelude::*;

verus! {

/// Passes of one periodic forward level over `axes[0..i]` from the approximation block
/// `s`, with first-pass flag `first`.
pub open spec fn periodic_level_passes(s: Seq<usize>, axes: Seq<usize>, i: nat, first: bool, width: int) -> Seq<
    PassModel,
> {
    forward_level(
        PlanState { approx: s, region: s, first, passes: Seq::empty() },
        axes,
        i,
        true,
        width,
    ).0.passes
}

/// A forward level appends its passes to those made before.
proof fn lemma_level_appends(st: PlanState, axes: Seq<usize>, i: nat, pm: bool, width: int)
    requires
        i <= axes.len(),
    ensures
        ({
            let (st1, sub) = forward_level(st, axes, i, pm, width);
            let (st0, sub0) = forward_level(PlanState { passes: Seq::empty(), ..st }, axes, i, pm, width);
            &&& st1.passes == st.passes + st0.passes
            &&& st1.first == st0.first
            &&& st1.approx == st.approx
            &&& st1.region == st.region
            &&& sub == sub0
        }),
    decreases i,
{
    if i > 0 {
        lemma_level_appends(st, axes, (i - 1) as nat, pm, width);
        let (st1, sub) = forward_level(st, axes, (i - 1) as nat, pm, width);
        let (st0, sub0) = forward_level(PlanState { passes: Seq::empty(), ..st }, axes, (i - 1) as nat, pm, width);
        let ax = axes[i - 1] as int;
        let (n_s, n_d) = band_lengths(pm, width, sub[ax] as int);
        let p = PassModel {
            axis: ax as usize,
            sub: sub.update(ax, st.region[ax]),
            n_samples: sub[ax],
            n_s: n_s as usize,
            n_d: n_d as usize,
            from_input: st1.first,
        };
        assert(st.passes + st0.passes.push(p) =~= (st.passes + st0.passes).push(p));
    }
}

/// Shrinking the shapes of a level is what the inverse level computes of them.
proof fn lemma_shrink_is_inverse_shapes(
    a: Seq<usize>,
    r: Seq<usize>,
    axes: Seq<usize>,
    i: nat,
    pm: bool,
    width: int,
)
    requires
        i <= axes.len(),
    ensures
        shrink_level(a, r, axes, i, pm, width) == (
            inverse_level_shapes(a, r, axes, i, pm, width).0,
            inverse_level_shapes(a, r, axes, i, pm, width).2,
        ),
    decreases i,
{
    if i > 0 {
        lemma_shrink_is_inverse_shapes(a, r, axes, (i - 1) as nat, pm, width);
    }
}

/// Axis `q` of inverse-level shapes `sh` made from block `s` took its periodic band
/// lengths, when the level splits it.
pub open spec fn shapes_split(
    s: Seq<usize>,
    sh: (Seq<usize>, Seq<usize>, Seq<usize>),
    q: int,
    width: int,
) -> bool {
    let (bs, bd) = band_lengths(true, width, s[q] as int);
    &&& sh.0[q] == (if bs > 1 {
        bs as usize
    } else {
        s[q]
    })
    &&& sh.1[q] == (if bs > 1 {
        bd as usize
    } else {
        s[q]
    })
}

/// Axis `q` of inverse-level shapes `sh` made from block `s` kept its length.
pub open spec fn shapes_kept(s: Seq<usize>, sh: (Seq<usize>, Seq<usize>, Seq<usize>), q: int) -> bool {
    sh.0[q] == s[q] && sh.1[q] == s[q]
}

/// Periodic shapes of an inverse level over `axes[0..i]` from the block `s`: each axis
/// that a level splits takes its band lengths, the others keep their length, and the region
/// stays the approximation.
#[verifier::spinoff_prover]
#[verifier::rlimit(40)]
proof fn lemma_periodic_shapes(s: Seq<usize>, axes: Seq<usize>, i: nat, width: int)
    requires
        i <= axes.len(),
        distinct_axes(axes),
        forall|j: int| 0 <= j < axes.len() ==> #[trigger] axes[j] < s.len(),
    ensures
        inverse_level_shapes(s, s, axes, i, true, width).0 == inverse_level_shapes(
            s,
            s,
            axes,
            i,
            true,
            width,
        ).2,
        inverse_level_shapes(s, s, axes, i, true, width).0.len() == s.len(),
        inverse_level_shapes(s, s, axes, i, true, width).1.len() == s.len(),
        forall|j: int|
            0 <= j < i ==> shapes_split(
                s,
                inverse_level_shapes(s, s, axes, i, true, width),
                #[trigger] axes[j] as int,
                width,
            ),
        forall|q: int|
            0 <= q < s.len() && !axes.subrange(0, i as int).contains(q as usize) ==> shapes_kept(
                s,
                #[trigger] inverse_level_shapes(s, s, axes, i, true, width),
                q,
            ),
    decreases i,
{
    let sh = inverse_level_shapes(s, s, axes, i, true, width);
    if i > 0 {
        let m = (i - 1) as nat;
        lemma_periodic_shapes(s, axes, m, width);
        let ax = axes[m as int] as int;
        let ih = inverse_level_shapes(s, s, axes, m, true, width);
        assert(!axes.subrange(0, m as int).contains(ax as usize)) by {
            if axes.subrange(0, m as int).contains(ax as usize) {
                let j = choose|j: int| 0 <= j < m && axes.subrange(0, m as int)[j] == ax as usize;
                assert(axes[j] == axes[m as int]);
            }
        }
        assert(shapes_kept(s, ih, ax));
        assert forall|j: int| 0 <= j < i implies shapes_split(s, sh, #[trigger] axes[j] as int, width) by {
            if j < m {
                assert(axes[j] != axes[m as int]);
                assert(shapes_split(s, ih, axes[j] as int, width));
            }
        }
        assert forall|q: int|
            0 <= q < s.len() && !axes.subrange(0, i as int).contains(q as usize) implies shapes_kept(
            s,
            #[trigger] inverse_level_shapes(s, s, axes, i, true, width),
            q,
        ) by {
            assert(axes.subrange(0, i as int)[m as int] == ax as usize);
            assert(q != ax);
            assert(!axes.subrange(0, m as int).contains(q as usize)) by {
                if axes.subrange(0, m as int).contains(q as usize) {
                    let j = choose|j: int| 0 <= j < m && axes.subrange(0, m as int)[j] == q as usize;
                    assert(axes.subrange(0, i as int)[j] == q as usize);
                }
            }
            assert(shapes_kept(s, ih, q));
        }
        assert(sh.0 =~= sh.2);
    }
}

/// The passes of a periodic forward level over `axes[0..i]` from block `s`: they all work
/// on `s`, split each lane into halves, take axes from `axes[0..i]`, only the first may read
/// the input, and none is made when no axis is longer than two.
proof fn lemma_periodic_level(s: Seq<usize>, axes: Seq<usize>, i: nat, first: bool, width: int)
    requires
        i <= axes.len(),
        forall|j: int| 0 <= j < axes.len() ==> #[trigger] axes[j] < s.len(),
    ensures
        ({
            let (st1, sub) = forward_level(
                PlanState { approx: s, region: s, first, passes: Seq::empty() },
                axes,
                i,
                true,
                width,
            );
            let np = st1.passes;
            &&& sub == s
            &&& st1.first == (first && np.len() == 0)
            &&& np.len() > 0 ==> np[0].from_input == first
            &&& forall|k: int| 1 <= k < np.len() ==> !(#[trigger] np[k]).from_input
            &&& forall|k: int|
                0 <= k < np.len() ==> {
                    let p = #[trigger] np[k];
                    &&& p.sub == s
                    &&& p.axis < s.len()
                    &&& p.n_samples == s[p.axis as int]
                    &&& p.n_s + p.n_d == s[p.axis as int]
                    &&& p.n_d == s[p.axis as int] / 2
                    &&& axes.subrange(0, i as int).contains(p.axis)
                }
            &&& np.len() == 0 ==> forall|j: int|
                0 <= j < i ==> band_lengths(true, width, s[#[trigger] axes[j] as int] as int).0 <= 1
        }),
    decreases i,
{
    if i > 0 {
        let m = (i - 1) as nat;
        lemma_periodic_level(s, axes, m, first, width);
        let st0 = PlanState { approx: s, region: s, first, passes: Seq::empty() };
        let (st1, sub) = forward_level(st0, axes, m, true, width);
        let (st2, sub2) = forward_level(st0, axes, i, true, width);
        let ax = axes[m as int] as int;
        assert(sub.update(ax, s[ax]) =~= s);
        assert(axes.subrange(0, i as int).drop_last() =~= axes.subrange(0, m as int));
        assert forall|k: int| 0 <= k < st2.passes.len() implies axes.subrange(0, i as int).contains(
            (#[trigger] st2.passes[k]).axis,
        ) by {
            if k < st1.passes.len() {
                assert(st2.passes[k] == st1.passes[k]);
                let j = choose|j: int|
                    0 <= j < m && axes.subrange(0, m as int)[j] == st1.passes[k].axis;
                assert(axes.subrange(0, i as int)[j] == st1.passes[k].axis);
            } else {
                assert(axes.subrange(0, i as int)[m as int] == ax as usize);
            }
        }
    }
}

/// Passes along different axes over the same region commute between kernels `f` and `g`:
/// an inverse pass along one axis after a forward pass along another gives what the two
/// passes give the other way round.  Separable linear kernels with `zero` as additive
/// identity have this property.
pub open spec fn dwt_passes_commute<T>(f: BandSplit<T>, g: BandJoin<T>, zero: T) -> bool {
    forall|
        data: Seq<T>,
        shape: Seq<usize>,
        sub: Seq<usize>,
        a: int,
        b: int,
        n_b: int,
        s_b: usize,
        d_b: usize,
        s_a: int,
        d_a: int,
        n_a: usize,
    |
        a != b && data.len() == shape_prod(shape) ==> #[trigger] inverse_pass(
            g,
            forward_pass(f, zero, data, shape, sub, b, n_b, s_b, d_b),
            shape,
            sub,
            a,
            s_a,
            d_a,
            n_a,
        ) == forward_pass(
            f,
            zero,
            inverse_pass(g, data, shape, sub, a, s_a, d_a, n_a),
            shape,
            sub,
            b,
            n_b,
            s_b,
            d_b,
        )
}

proof fn lemma_inverse_lanes_len<T>(
    g: BandJoin<T>,
    data: Seq<T>,
    l: LaneLayout,
    n_s: int,
    n_d: int,
    n_out: usize,
    j: nat,
)
    ensures
        inverse_lanes(g, data, l, n_s, n_d, n_out, j).len() == data.len(),
    decreases j,
{
    if j > 0 {
        lemma_inverse_lanes_len(g, data, l, n_s, n_d, n_out, (j - 1) as nat);
    }
}

proof fn lemma_run_inverse_len<T>(
    g: BandJoin<T>,
    data: Seq<T>,
    shape: Seq<usize>,
    ps: Seq<PassModel>,
)
    ensures
        run_inverse(g, data, shape, ps).len() == data.len(),
    decreases ps.len(),
{
    if ps.len() > 0 {
        lemma_run_inverse_len(g, data, shape, ps.drop_last());
        let prev = run_inverse(g, data, shape, ps.drop_last());
        let p = ps.last();
        lemma_inverse_lanes_len(
            g,
            prev,
            crate::iter::slice::sub_lane_layout(shape, p.sub, p.axis as int),
            p.n_s as int,
            p.n_d as int,
            p.n_samples,
            shape_prod(p.sub.remove(p.axis as int)) as nat,
        );
    }
}

proof fn lemma_run_forward_append<T>(
    f: BandSplit<T>,
    zero: T,
    x: Seq<T>,
    d: Seq<T>,
    shape: Seq<usize>,
    a: Seq<PassModel>,
    b: Seq<PassModel>,
)
    ensures
        run_forward(f, zero, x, shape, d, shape, a + b) == run_forward(
            f,
            zero,
            x,
            shape,
            run_forward(f, zero, x, shape, d, shape, a),
            shape,
            b,
        ),
    decreases b.len(),
{
    if b.len() == 0 {
        assert(a + b =~= a);
    } else {
        lemma_run_forward_append(f, zero, x, d, shape, a, b.drop_last());
        assert((a + b).drop_last() =~= a + b.drop_last());
        assert((a + b).last() == b.last());
    }
}

proof fn lemma_run_inverse_append<T>(
    g: BandJoin<T>,
    d: Seq<T>,
    shape: Seq<usize>,
    a: Seq<PassModel>,
    b: Seq<PassModel>,
)
    ensures
        run_inverse(g, d, shape, a + b) == run_inverse(g, run_inverse(g, d, shape, a), shape, b),
    decreases b.len(),
{
    if b.len() == 0 {
        assert(a + b =~= a);
    } else {
        lemma_run_inverse_append(g, d, shape, a, b.drop_last());
        assert((a + b).drop_last() =~= a + b.drop_last());
        assert((a + b).last() == b.last());
    }
}

/// A forward pass along one axis moves past inverse passes along other axes over the same
/// region.
proof fn lemma_forward_past<T>(
    f: BandSplit<T>,
    g: BandJoin<T>,
    zero: T,
    y: Seq<T>,
    shape: Seq<usize>,
    sub: Seq<usize>,
    b: int,
    n_b: int,
    s_b: usize,
    d_b: usize,
    ps: Seq<PassModel>,
)
    requires
        dwt_passes_commute(f, g, zero),
        y.len() == shape_prod(shape),
        forall|k: int| 0 <= k < ps.len() ==> (#[trigger] ps[k]).sub == sub && ps[k].axis != b,
    ensures
        run_inverse(g, forward_pass(f, zero, y, shape, sub, b, n_b, s_b, d_b), shape, ps)
            == forward_pass(f, zero, run_inverse(g, y, shape, ps), shape, sub, b, n_b, s_b, d_b),
    decreases ps.len(),
{
    if ps.len() > 0 {
        let p1 = ps.drop_last();
        assert forall|k: int| 0 <= k < p1.len() implies (#[trigger] p1[k]).sub == sub && p1[k].axis
            != b by {
            assert(p1[k] == ps[k]);
        }
        lemma_forward_past(f, g, zero, y, shape, sub, b, n_b, s_b, d_b, p1);
        let z = run_inverse(g, y, shape, p1);
        lemma_run_inverse_len(g, y, shape, p1);
        let q = ps.last();
        assert(q == ps[ps.len() - 1]);
        assert(inverse_pass(
            g,
            forward_pass(f, zero, z, shape, sub, b, n_b, s_b, d_b),
            shape,
            sub,
            q.axis as int,
            q.n_s as int,
            q.n_d as int,
            q.n_samples,
        ) == forward_pass(
            f,
            zero,
            inverse_pass(g, z, shape, sub, q.axis as int, q.n_s as int, q.n_d as int, q.n_samples),
            shape,
            sub,
            b,
            n_b,
            s_b,
            d_b,
        ));
    }
}

/// The inverse passes of a periodic level over `axes[0..i]` undo its forward passes made
/// in place: they work on the same block, take axes from `axes[0..i]`, and those of the
/// forward level come out in the same order, with a non-fitting pass for an axis the
/// forward level leaves alone.
proof fn lemma_undo_periodic_level<T>(
    f: BandSplit<T>,
    g: BandJoin<T>,
    zero: T,
    x: Seq<T>,
    d: Seq<T>,
    shape: Seq<usize>,
    s: Seq<usize>,
    axes: Seq<usize>,
    i: nat,
    first: bool,
    width: int,
)
    requires
        periodic_inverse(f, g),
        dwt_passes_commute(f, g, zero),
        distinct_axes(axes),
        forall|j: int| 0 <= j < axes.len() ==> #[trigger] axes[j] < s.len(),
        i <= axes.len(),
        d.len() == shape_prod(shape),
    ensures
        ({
            let sh = inverse_level_shapes(s, s, axes, axes.len(), true, width);
            let ip = inverse_level_passes(s, s, sh.0, sh.1, axes, i);
            &&& ip.1 == s
            &&& forall|k: int|
                0 <= k < ip.0.len() ==> (#[trigger] ip.0[k]).sub == s && axes.subrange(
                    0,
                    i as int,
                ).contains(ip.0[k].axis)
            &&& run_inverse(
                g,
                run_forward(
                    f,
                    zero,
                    x,
                    shape,
                    d,
                    shape,
                    in_place_all(periodic_level_passes(s, axes, i, first, width)),
                ),
                shape,
                ip.0,
            ) == d
        }),
    decreases i,
{
    let n_ax = axes.len();
    let sh = inverse_level_shapes(s, s, axes, n_ax, true, width);
    lemma_periodic_shapes(s, axes, n_ax, width);
    if i == 0 {
        assert(in_place_all(periodic_level_passes(s, axes, 0, first, width)) =~= Seq::<PassModel>::empty());
    } else {
        let m = (i - 1) as nat;
        lemma_undo_periodic_level(f, g, zero, x, d, shape, s, axes, m, first, width);
        lemma_periodic_level(s, axes, m, first, width);
        lemma_periodic_level(s, axes, i, first, width);
        let ax = axes[m as int] as int;
        assert(shapes_split(s, sh, ax, width));
        let nn = s[ax] as int;
        let (bs, bd) = band_lengths(true, width, nn);
        let ip_m = inverse_level_passes(s, s, sh.0, sh.1, axes, m);
        let ip_i = inverse_level_passes(s, s, sh.0, sh.1, axes, i);
        let np_m = periodic_level_passes(s, axes, m, first, width);
        let np_i = periodic_level_passes(s, axes, i, first, width);
        assert(axes.subrange(0, i as int).drop_last() =~= axes.subrange(0, m as int));
        assert(ip_m.1.update(ax, s[ax]) =~= s);
        assert forall|k: int| 0 <= k < ip_i.0.len() implies (#[trigger] ip_i.0[k]).sub == s
            && axes.subrange(0, i as int).contains(ip_i.0[k].axis) by {
            if k < ip_m.0.len() {
                assert(ip_i.0[k] == ip_m.0[k]);
                let j = choose|j: int| 0 <= j < m && axes.subrange(0, m as int)[j] == ip_m.0[k].axis;
                assert(axes.subrange(0, i as int)[j] == ip_m.0[k].axis);
            } else {
                assert(axes.subrange(0, i as int)[m as int] == ax as usize);
            }
        }
        assert forall|k: int| 0 <= k < ip_m.0.len() implies (#[trigger] ip_m.0[k]).sub == s
            && ip_m.0[k].axis != ax by {
            let j = choose|j: int| 0 <= j < m && axes.subrange(0, m as int)[j] == ip_m.0[k].axis;
            assert(axes[j] != axes[m as int]);
        }
        let y = run_forward(f, zero, x, shape, d, shape, in_place_all(np_m));
        lemma_run_forward_len(f, zero, x, d, shape, in_place_all(np_m));
        if bs > 1 {
            let p = np_i.last();
            assert(np_i == np_m.push(p));
            assert(in_place_all(np_i) =~= in_place_all(np_m).push(in_place(p)));
            assert(in_place_all(np_i).drop_last() =~= in_place_all(np_m));
            assert(p.axis == ax && p.sub == s && p.n_samples == s[ax]);
            let fy = forward_pass(f, zero, y, shape, s, ax, nn, bs as usize, bd as usize);
            assert(run_forward(f, zero, x, shape, d, shape, in_place_all(np_i)) == fy);
            let q = ip_i.0.last();
            assert(ip_i.0 == ip_m.0.push(q));
            assert(ip_i.0.drop_last() =~= ip_m.0);
            lemma_forward_past(f, g, zero, y, shape, s, ax, nn, bs as usize, bd as usize, ip_m.0);
            lemma_periodic_pass(f, g, zero, d, shape, s, ax, bs as usize, bd as usize);
        } else {
            assert(np_i == np_m);
            if sh.0[ax] > 1 {
                let q = ip_i.0.last();
                assert(ip_i.0 == ip_m.0.push(q));
                assert(ip_i.0.drop_last() =~= ip_m.0);
                assert(!pass_fits(shape, s, ax, q.n_s + q.n_d, q.n_samples as int));
            } else {
                assert(ip_i.0 == ip_m.0);
            }
        }
    }
}

/// What stays true of the first `l` periodic levels along distinct axes: the region is the
/// approximation block, the first-pass flag says whether no pass was made, only the first
/// pass reads the input and it splits whole lanes of the array, the inverse plan sees the
/// same blocks, and each level adds its passes at the end of the forward plan and at the
/// start of the inverse plan.
proof fn lemma_periodic_plan(shape: Seq<usize>, axes: Seq<usize>, l: nat, width: int)
    requires
        shape.len() <= usize::MAX,
        distinct_axes(axes),
        forall|j: int| 0 <= j < axes.len() ==> #[trigger] axes[j] < shape.len(),
    ensures
        ({
            let st = forward_levels(shape, shape, axes, l, true, width);
            let ps = st.passes;
            &&& st.approx == st.region
            &&& st.approx.len() == shape.len()
            &&& st.first == (ps.len() == 0)
            &&& ps.len() == 0 ==> st.approx == shape
            &&& ps.len() > 0 ==> {
                &&& ps[0].from_input
                &&& ps[0].sub == shape
                &&& ps[0].axis < shape.len()
                &&& ps[0].n_samples == shape[ps[0].axis as int]
                &&& ps[0].n_s + ps[0].n_d == shape[ps[0].axis as int]
                &&& ps[0].n_d == shape[ps[0].axis as int] / 2
            }
            &&& forall|k: int| 1 <= k < ps.len() ==> !(#[trigger] ps[k]).from_input
            &&& inverse_level_state(shape, shape, axes, l, true, width) == (st.approx, st.region)
        }),
    decreases l,
{
    if l > 0 {
        let m = (l - 1) as nat;
        let n = axes.len();
        lemma_periodic_plan(shape, axes, m, width);
        let st = forward_levels(shape, shape, axes, m, true, width);
        let s = st.approx;
        lemma_level_appends(st, axes, n, true, width);
        assert(PlanState { passes: Seq::empty(), ..st } == PlanState {
            approx: s,
            region: s,
            first: st.first,
            passes: Seq::<PassModel>::empty(),
        });
        lemma_periodic_level(s, axes, n, st.first, width);
        lemma_shrink_is_inverse_shapes(s, st.region, axes, n, true, width);
        lemma_periodic_shapes(s, axes, n, width);
        let np = periodic_level_passes(s, axes, n, st.first, width);
        let all = st.passes + np;
        let sh = inverse_level_shapes(s, s, axes, n, true, width);
        assert forall|k: int| 1 <= k < all.len() implies !(#[trigger] all[k]).from_input by {
            if k >= st.passes.len() {
                assert(all[k] == np[k - st.passes.len()]);
                if k - st.passes.len() == 0 {
                    assert(st.passes.len() > 0);
                }
            } else {
                assert(all[k] == st.passes[k]);
            }
        }
        if st.passes.len() == 0 {
            assert(all =~= np);
            if np.len() == 0 {
                assert forall|q: int| 0 <= q < s.len() implies sh.0[q] == s[q] by {
                    if axes.subrange(0, n as int).contains(q as usize) {
                        let j = choose|j: int| 0 <= j < n && axes.subrange(0, n as int)[j] == q as usize;
                        assert(axes[j] == q as usize);
                        assert(band_lengths(true, width, s[axes[j] as int] as int).0 <= 1);
                        assert(shapes_split(s, sh, axes[j] as int, width));
                        assert(sh.0[axes[j] as int] == s[axes[j] as int]);
                        assert(sh.0[q] == s[q]);
                    } else {
                        assert(shapes_kept(s, sh, q));
                        assert(sh.0[q] == s[q]);
                    }
                }
                assert(sh.0 =~= s);
            }
        } else {
            assert(all[0] == st.passes[0]);
        }
    }
}

/// The periodic inverse plan undoes the periodic forward plan made wholly in place.
proof fn lemma_undo_periodic_levels<T>(
    f: BandSplit<T>,
    g: BandJoin<T>,
    zero: T,
    x: Seq<T>,
    d: Seq<T>,
    shape: Seq<usize>,
    axes: Seq<usize>,
    l: nat,
    width: int,
)
    requires
        periodic_inverse(f, g),
        dwt_passes_commute(f, g, zero),
        shape.len() <= usize::MAX,
        distinct_axes(axes),
        forall|j: int| 0 <= j < axes.len() ==> #[trigger] axes[j] < shape.len(),
        d.len() == shape_prod(shape),
    ensures
        run_inverse(
            g,
            run_forward(
                f,
                zero,
                x,
                shape,
                d,
                shape,
                in_place_all(forward_levels(shape, shape, axes, l, true, width).passes),
            ),
            shape,
            inverse_plan_levels(shape, shape, axes, l, true, width),
        ) == d,
    decreases l,
{
    if l == 0 {
        assert(in_place_all(forward_levels(shape, shape, axes, 0, true, width).passes)
            =~= Seq::<PassModel>::empty());
    } else {
        let m = (l - 1) as nat;
        let n = axes.len();
        lemma_periodic_plan(shape, axes, m, width);
        let st = forward_levels(shape, shape, axes, m, true, width);
        let s = st.approx;
        lemma_level_appends(st, axes, n, true, width);
        assert(PlanState { passes: Seq::empty(), ..st } == PlanState {
            approx: s,
            region: s,
            first: st.first,
            passes: Seq::<PassModel>::empty(),
        });
        let np = periodic_level_passes(s, axes, n, st.first, width);
        let a = in_place_all(st.passes);
        let b = in_place_all(np);
        assert(in_place_all(forward_levels(shape, shape, axes, l, true, width).passes) =~= a + b);
        lemma_run_forward_append(f, zero, x, d, shape, a, b);
        let e = run_forward(f, zero, x, shape, d, shape, a);
        lemma_run_forward_len(f, zero, x, d, shape, a);
        let sh = inverse_level_shapes(s, s, axes, n, true, width);
        let ipl = inverse_level_passes(s, s, sh.0, sh.1, axes, n).0;
        let rest = inverse_plan_levels(shape, shape, axes, m, true, width);
        assert(inverse_plan_levels(shape, shape, axes, l, true, width) == ipl + rest);
        lemma_run_inverse_append(g, run_forward(f, zero, x, shape, e, shape, b), shape, ipl, rest);
        lemma_undo_periodic_level(f, g, zero, x, e, shape, s, axes, n, st.first, width);
        lemma_undo_periodic_levels(f, g, zero, x, d, shape, axes, m, width);
    }
}

/// A forward plan whose only pass from the input is its first one, splitting whole lanes
/// of the array, gives from any output what the same plan made wholly in place on the
/// input gives.
proof fn lemma_from_input_in_place<T>(f: BandSplit<T>, g: BandJoin<T>, zero: T, x: Seq<T>, out: Seq<T>, shape: Seq<usize>, ps: Seq<PassModel>)
    requires
        periodic_inverse(f, g),
        x.len() == shape_prod(shape),
        out.len() == x.len(),
        0 < x.len() <= usize::MAX,
        ps.len() > 0,
        ps[0].from_input,
        ps[0].sub == shape,
        ps[0].axis < shape.len(),
        ps[0].n_samples == shape[ps[0].axis as int],
        ps[0].n_s + ps[0].n_d == shape[ps[0].axis as int],
        ps[0].n_d == shape[ps[0].axis as int] / 2,
        forall|k: int| 1 <= k < ps.len() ==> !(#[trigger] ps[k]).from_input,
    ensures
        run_forward(f, zero, x, shape, out, shape, ps) == run_forward(
            f,
            zero,
            x,
            shape,
            x,
            shape,
            in_place_all(ps),
        ),
    decreases ps.len(),
{
    let ip = in_place_all(ps);
    assert(ip.drop_last() =~= in_place_all(ps.drop_last()));
    if ps.len() == 1 {
        let p = ps[0];
        assert(ps.drop_last() =~= Seq::<PassModel>::empty());
        assert(ip.drop_last() =~= Seq::<PassModel>::empty());
        lemma_lanes_ok_from_len(shape, p.axis as int);
        lemma_forward_from_whole(f, g, zero, x, out, shape, p.axis as int, p.n_s, p.n_d);
        assert(ps.last() == p);
        assert(ip.last() == in_place(p));
        assert(run_forward(f, zero, x, shape, out, shape, ps.drop_last()) == out);
        assert(run_forward(f, zero, x, shape, x, shape, ip.drop_last()) == x);
    } else {
        let p1 = ps.drop_last();
        assert forall|k: int| 1 <= k < p1.len() implies !(#[trigger] p1[k]).from_input by {
            assert(p1[k] == ps[k]);
        }
        lemma_from_input_in_place(f, g, zero, x, out, shape, p1);
        assert(!ps[ps.len() - 1].from_input);
        assert(ps.last() == ps[ps.len() - 1]);
        assert(ip.last() == in_place(ps.last()));
    }
}

/// In periodic mode the DWT drivers reconstruct along any set of distinct axes: for
/// kernels that invert each other and whose passes along different axes commute, when the
/// forward transform makes at least one pass, the inverse transform of a copy of its output
/// gives the input back.
pub proof fn lemma_periodic_round_trip_nd<T>(
    f: BandSplit<T>,
    g: BandJoin<T>,
    zero: T,
    x: Seq<T>,
    out: Seq<T>,
    work: Seq<T>,
    shape: Seq<usize>,
    axes: Seq<usize>,
    level: nat,
    width: int,
)
    requires
        periodic_inverse(f, g),
        dwt_passes_commute(f, g, zero),
        x.len() == shape_prod(shape),
        out.len() == x.len(),
        work.len() == x.len(),
        0 < x.len() <= usize::MAX,
        shape.len() <= usize::MAX,
        distinct_axes(axes),
        forall|j: int| 0 <= j < axes.len() ==> #[trigger] axes[j] < shape.len(),
        forward_plan(shape, shape, axes, level, width).len() > 0,
    ensures
        ({
            let coefs = run_forward(
                f,
                zero,
                x,
                shape,
                out,
                shape,
                forward_plan(shape, shape, axes, level, width),
            );
            run_inverse(
                g,
                copy_region(coefs, shape, work, shape, min_stride_axis(shape)),
                shape,
                inverse_plan(shape, shape, axes, level, width),
            ) == x
        }),
{
    let plan = forward_plan(shape, shape, axes, level, width);
    lemma_periodic_plan(shape, axes, level, width);
    lemma_from_input_in_place(f, g, zero, x, out, shape, plan);
    let coefs = run_forward(f, zero, x, shape, out, shape, plan);
    lemma_run_forward_len(f, zero, x, out, shape, plan);
    lemma_lanes_ok_from_len(shape, min_stride_axis(shape));
    lemma_copy_whole(coefs, work, shape, min_stride_axis(shape));
    lemma_undo_periodic_levels(f, g, zero, x, x, shape, axes, level, width);
}

} // verus!
