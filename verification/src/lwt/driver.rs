//! Multi-level N-D lifting (LWT) drivers.
//!
//! The lifting transform is length preserving: each level splits a lane of the current
//! region into its even and odd samples, lifts them with a caller-supplied kernel and
//! stores the approximation followed by the detail in the same lane.  The next level works
//! on the leading half (rounded up) of every transformed axis.
use crate::dwt::driver::{min_stride_axis, models, LanePass, PassModel};
use crate::dwt::lanes::{
    copy_region, copy_region_into, in_lanes, lemma_copy_whole, lemma_map_lanes,
    lemma_map_lanes_from, lemma_sub_lanes_apart, map_lanes, map_lanes_from,
};
use crate::iter::slice::{
    copy_shape, lane_of, lanes_ok, lemma_lanes_ok_from_len, lemma_sub_lane_in_bounds,
    lemma_sub_lanes_cover, lemma_sub_lanes_nonempty, sub_lane_count, sub_lane_layout, sub_lanes_ok,
    sub_lanes_ok_exec, LaneCursor, LaneLayout,
};
use crate::utils::{evens_of, interleaved, lemma_interleave_deinterleave, odds_of, shape_prod};
use vstd::prelude::*;

verus! {

// ---------------------------------------------------------------------------------------
// Kernels
// ---------------------------------------------------------------------------------------
/// Requirements on a lifting kernel `f(s, d) = (s', d')`: it accepts any bands and
/// returns bands of the lengths it was given.
pub open spec fn lifting_kernel<T, F: Fn(&[T], &[T]) -> (Vec<T>, Vec<T>)>(f: F) -> bool {
    &&& forall|s: &[T], d: &[T]| #[trigger] call_requires(f, (s, d))
    &&& forall|s: &[T], d: &[T], r: (Vec<T>, Vec<T>)|
        #[trigger] call_ensures(f, (s, d), r) ==> r.0@.len() == s@.len() && r.1@.len()
            == d@.len()
}

/// What a lifting kernel does, as a map from a pair of bands to a pair of bands.
pub type BandMap<T> = spec_fn(Seq<T>, Seq<T>) -> (Seq<T>, Seq<T>);

/// Kernel `f` computes the band map `k`: whatever `f` returns for bands `a` and `b` is
/// `k(a, b)`.
pub open spec fn lifts_by<T, F: Fn(&[T], &[T]) -> (Vec<T>, Vec<T>)>(f: F, k: BandMap<T>) -> bool {
    forall|a: &[T], b: &[T], r: (Vec<T>, Vec<T>)|
        #[trigger] call_ensures(f, (a, b), r) ==> (r.0@, r.1@) == k(a@, b@)
}

// ---------------------------------------------------------------------------------------
// What a pass does
// ---------------------------------------------------------------------------------------
/// One forward lifting step on lane values `v`: the lifted even samples followed by the
/// lifted odd samples.
pub open spec fn lift_lane<T>(f: BandMap<T>, v: Seq<T>) -> Seq<T> {
    let (s, d) = f(evens_of(v), odds_of(v));
    s + d
}

/// One inverse lifting step on lane values `v`: its leading half (rounded up) and the rest
/// are lifted by `g` and interleaved again.
pub open spec fn unlift_lane<T>(g: BandMap<T>, v: Seq<T>) -> Seq<T> {
    let n_s = v.len() - v.len() / 2;
    let (s, d) = g(v.subrange(0, n_s), v.subrange(n_s, v.len() as int));
    interleaved(s, d)
}

/// Forward lifting over lanes `0..j` of layout `l`: lane `k` of `dst` is overwritten by the
/// lifted lane `k` of `src`.
pub open spec fn lift_lanes_from<T>(
    f: BandMap<T>,
    src: Seq<T>,
    dst: Seq<T>,
    l: LaneLayout,
    j: nat,
) -> Seq<T>
    decreases j,
{
    if j == 0 {
        dst
    } else {
        let prev = lift_lanes_from(f, src, dst, l, (j - 1) as nat);
        lane_of(l, j - 1).overwrite(prev, lift_lane(f, lane_of(l, j - 1).read(src)))
    }
}

/// Forward lifting in place over lanes `0..j` of layout `l`.
pub open spec fn lift_lanes<T>(
    f: BandMap<T>,
    data: Seq<T>,
    l: LaneLayout,
    j: nat,
) -> Seq<T>
    decreases j,
{
    if j == 0 {
        data
    } else {
        let prev = lift_lanes(f, data, l, (j - 1) as nat);
        let lane = lane_of(l, j - 1);
        lane.overwrite(prev, lift_lane(f, lane.read(prev)))
    }
}

/// Inverse lifting in place over lanes `0..j` of layout `l`.
pub open spec fn unlift_lanes<T>(
    g: BandMap<T>,
    data: Seq<T>,
    l: LaneLayout,
    j: nat,
) -> Seq<T>
    decreases j,
{
    if j == 0 {
        data
    } else {
        let prev = unlift_lanes(g, data, l, (j - 1) as nat);
        let lane = lane_of(l, j - 1);
        lane.overwrite(prev, unlift_lane(g, lane.read(prev)))
    }
}

/// Result of a forward lifting pass from region `sub` of `src` into region `sub` of `dst`
/// (both of shape `shape`) along `axis`; a region without valid lanes leaves `dst` as it is.
pub open spec fn lift_pass_from<T>(
    f: BandMap<T>,
    src: Seq<T>,
    dst: Seq<T>,
    shape: Seq<usize>,
    sub: Seq<usize>,
    axis: int,
) -> Seq<T> {
    if sub_lanes_ok(shape, sub, axis) {
        lift_lanes_from(
            f,
            src,
            dst,
            sub_lane_layout(shape, sub, axis),
            shape_prod(sub.remove(axis)) as nat,
        )
    } else {
        dst
    }
}

/// Result of a forward lifting pass in place over region `sub` of `data` along `axis`.
pub open spec fn lift_pass<T>(
    f: BandMap<T>,
    data: Seq<T>,
    shape: Seq<usize>,
    sub: Seq<usize>,
    axis: int,
) -> Seq<T> {
    if sub_lanes_ok(shape, sub, axis) {
        lift_lanes(f, data, sub_lane_layout(shape, sub, axis), shape_prod(sub.remove(axis)) as nat)
    } else {
        data
    }
}

/// Result of an inverse lifting pass in place over region `sub` of `data` along `axis`.
pub open spec fn unlift_pass<T>(
    g: BandMap<T>,
    data: Seq<T>,
    shape: Seq<usize>,
    sub: Seq<usize>,
    axis: int,
) -> Seq<T> {
    if sub_lanes_ok(shape, sub, axis) {
        unlift_lanes(
            g,
            data,
            sub_lane_layout(shape, sub, axis),
            shape_prod(sub.remove(axis)) as nat,
        )
    } else {
        data
    }
}

// ---------------------------------------------------------------------------------------
// Passes
// ---------------------------------------------------------------------------------------
/// The even- and odd-indexed elements of `x`.
fn parity_split<T: Copy>(x: &Vec<T>) -> (r: (Vec<T>, Vec<T>))
    ensures
        r.0@ == evens_of(x@),
        r.1@ == odds_of(x@),
{
    let mut e: Vec<T> = Vec::new();
    let mut o: Vec<T> = Vec::new();
    let mut k: usize = 0;
    while k < x.len()
        invariant
            k <= x@.len(),
            e@ == evens_of(x@.subrange(0, k as int)),
            o@ == odds_of(x@.subrange(0, k as int)),
        decreases x@.len() - k,
    {
        let ghost p = x@.subrange(0, k as int + 1);
        if k % 2 == 0 {
            e.push(x[k]);
        } else {
            o.push(x[k]);
        }
        proof {
            assert(e@ =~= evens_of(p));
            assert(o@ =~= odds_of(p));
        }
        k += 1;
    }
    proof {
        assert(x@.subrange(0, x@.len() as int) =~= x@);
    }
    (e, o)
}

/// The sequence whose even-indexed elements are `e` and odd-indexed elements are `o`.
fn parity_merge<T: Copy>(e: &Vec<T>, o: &Vec<T>) -> (r: Vec<T>)
    requires
        e@.len() == o@.len() || e@.len() == o@.len() + 1,
        e@.len() + o@.len() <= usize::MAX,
    ensures
        r@ == interleaved(e@, o@),
{
    let mut r: Vec<T> = Vec::new();
    let n = e.len() + o.len();
    let mut k: usize = 0;
    while k < n
        invariant
            k <= n,
            n == e@.len() + o@.len(),
            e@.len() == o@.len() || e@.len() == o@.len() + 1,
            r@ == interleaved(e@, o@).subrange(0, k as int),
        decreases n - k,
    {
        if k % 2 == 0 {
            r.push(e[k / 2]);
        } else {
            r.push(o[k / 2]);
        }
        proof {
            assert(r@ =~= interleaved(e@, o@).subrange(0, k as int + 1));
        }
        k += 1;
    }
    proof {
        assert(interleaved(e@, o@).subrange(0, n as int) =~= interleaved(e@, o@));
    }
    r
}

/// Forward lifting pass from the lanes along `axis` of region `sub` of `src` into the same
/// lanes of `dst` (both of shape `shape`): each lane's even and odd samples are lifted by
/// `f` and stored as the approximation followed by the detail.  A region without valid
/// lanes leaves `dst` as it is.
pub fn lift_lanes_into<T: Copy, F: Fn(&[T], &[T]) -> (Vec<T>, Vec<T>)>(
    f: &F,
    src: &[T],
    dst: &mut [T],
    shape: &[usize],
    sub: &[usize],
    axis: usize,
)
    requires
        lifting_kernel(*f),
        src@.len() == shape_prod(shape@),
        old(dst)@.len() == shape_prod(shape@),
    ensures
        final(dst)@.len() == old(dst)@.len(),
        forall|kk: BandMap<T>|
            #[trigger] lifts_by(*f, kk) ==> final(dst)@ == lift_pass_from(
                kk,
                src@,
                old(dst)@,
                shape@,
                sub@,
                axis as int,
            ),
{
    if !sub_lanes_ok_exec(shape, sub, axis) {
        return;
    }
    let n = sub_lane_count(shape, sub, axis);
    let mut c = LaneCursor::new_sub_range(shape, sub, axis, 0, n);
    let ghost l = sub_lane_layout(shape@, sub@, axis as int);
    let len = sub[axis];
    let mut k: usize = 0;
    while k < n
        invariant
            lifting_kernel(*f),
            sub_lanes_ok(shape@, sub@, axis as int),
            len == sub@[axis as int],
            src@.len() == shape_prod(shape@),
            dst@.len() == shape_prod(shape@),
            n == shape_prod(sub@.remove(axis as int)),
            k <= n,
            l == sub_lane_layout(shape@, sub@, axis as int),
            c.wf(),
            c.layout() == l,
            c.lo() == k,
            c.hi() == n,
            forall|kk: BandMap<T>|
                #[trigger] lifts_by(*f, kk) ==> dst@ == lift_lanes_from(
                    kk,
                    src@,
                    old(dst)@,
                    l,
                    k as nat,
                ),
        decreases n - k,
    {
        let v = c.next().unwrap();
        proof {
            lemma_sub_lane_in_bounds(shape@, sub@, axis as int, k as int);
        }
        let x = v.read_prefix(src, len);
        proof {
            assert(x@ =~= v.read(src@));
        }
        let (e, o) = parity_split(&x);
        let es = e.as_slice();
        let os = o.as_slice();
        let r = f(es, os);
        let ghost r0 = r.0@;
        let ghost r1 = r.1@;
        let ghost prev = dst@;
        let (mut s, mut d) = r;
        s.append(&mut d);
        v.write_prefix(dst, &s);
        proof {
            assert forall|kk: BandMap<T>| #[trigger] lifts_by(*f, kk) implies dst@ == lift_lanes_from(
                kk,
                src@,
                old(dst)@,
                l,
                (k + 1) as nat,
            ) by {
                assert(kk(es@, os@) == (r0, r1));
                assert(prev == lift_lanes_from(kk, src@, old(dst)@, l, k as nat));
            }
        }
        k += 1;
    }
}

/// Forward lifting pass in place over the lanes along `axis` of region `sub` of `data`
/// (shape `shape`), as [`lift_lanes_into`] does.
pub fn lift_lanes_in_place<T: Copy, F: Fn(&[T], &[T]) -> (Vec<T>, Vec<T>)>(
    f: &F,
    data: &mut [T],
    shape: &[usize],
    sub: &[usize],
    axis: usize,
)
    requires
        lifting_kernel(*f),
        old(data)@.len() == shape_prod(shape@),
    ensures
        final(data)@.len() == old(data)@.len(),
        forall|kk: BandMap<T>|
            #[trigger] lifts_by(*f, kk) ==> final(data)@ == lift_pass(
                kk,
                old(data)@,
                shape@,
                sub@,
                axis as int,
            ),
{
    if !sub_lanes_ok_exec(shape, sub, axis) {
        return;
    }
    let n = sub_lane_count(shape, sub, axis);
    let mut c = LaneCursor::new_sub_range(shape, sub, axis, 0, n);
    let ghost l = sub_lane_layout(shape@, sub@, axis as int);
    let len = sub[axis];
    let mut k: usize = 0;
    while k < n
        invariant
            lifting_kernel(*f),
            sub_lanes_ok(shape@, sub@, axis as int),
            len == sub@[axis as int],
            data@.len() == shape_prod(shape@),
            n == shape_prod(sub@.remove(axis as int)),
            k <= n,
            l == sub_lane_layout(shape@, sub@, axis as int),
            c.wf(),
            c.layout() == l,
            c.lo() == k,
            c.hi() == n,
            forall|kk: BandMap<T>|
                #[trigger] lifts_by(*f, kk) ==> data@ == lift_lanes(kk, old(data)@, l, k as nat),
        decreases n - k,
    {
        let v = c.next().unwrap();
        proof {
            lemma_sub_lane_in_bounds(shape@, sub@, axis as int, k as int);
        }
        let x = v.read_prefix(data, len);
        proof {
            assert(x@ =~= v.read(data@));
        }
        let (e, o) = parity_split(&x);
        let es = e.as_slice();
        let os = o.as_slice();
        let r = f(es, os);
        let ghost r0 = r.0@;
        let ghost r1 = r.1@;
        let ghost prev = data@;
        let (mut s, mut d) = r;
        s.append(&mut d);
        v.write_prefix(data, &s);
        proof {
            assert forall|kk: BandMap<T>| #[trigger] lifts_by(*f, kk) implies data@ == lift_lanes(
                kk,
                old(data)@,
                l,
                (k + 1) as nat,
            ) by {
                assert(kk(es@, os@) == (r0, r1));
                assert(prev == lift_lanes(kk, old(data)@, l, k as nat));
            }
        }
        k += 1;
    }
}

/// Inverse lifting pass in place over the lanes along `axis` of region `sub` of `data`
/// (shape `shape`): each lane's leading half (rounded up) and the rest are lifted by `g`
/// and interleaved back into the lane.  A region without valid lanes leaves `data` as it
/// is.
pub fn unlift_lanes_in_place<T: Copy, G: Fn(&[T], &[T]) -> (Vec<T>, Vec<T>)>(
    g: &G,
    data: &mut [T],
    shape: &[usize],
    sub: &[usize],
    axis: usize,
)
    requires
        lifting_kernel(*g),
        old(data)@.len() == shape_prod(shape@),
    ensures
        final(data)@.len() == old(data)@.len(),
        forall|kk: BandMap<T>|
            #[trigger] lifts_by(*g, kk) ==> final(data)@ == unlift_pass(
                kk,
                old(data)@,
                shape@,
                sub@,
                axis as int,
            ),
{
    if !sub_lanes_ok_exec(shape, sub, axis) {
        return;
    }
    let n = sub_lane_count(shape, sub, axis);
    let mut c = LaneCursor::new_sub_range(shape, sub, axis, 0, n);
    let ghost l = sub_lane_layout(shape@, sub@, axis as int);
    let len = sub[axis];
    let n_s = len - len / 2;
    let mut k: usize = 0;
    while k < n
        invariant
            lifting_kernel(*g),
            sub_lanes_ok(shape@, sub@, axis as int),
            len == sub@[axis as int],
            n_s == len - len / 2,
            data@.len() == shape_prod(shape@),
            n == shape_prod(sub@.remove(axis as int)),
            k <= n,
            l == sub_lane_layout(shape@, sub@, axis as int),
            c.wf(),
            c.layout() == l,
            c.lo() == k,
            c.hi() == n,
            forall|kk: BandMap<T>|
                #[trigger] lifts_by(*g, kk) ==> data@ == unlift_lanes(kk, old(data)@, l, k as nat),
        decreases n - k,
    {
        let v = c.next().unwrap();
        proof {
            lemma_sub_lane_in_bounds(shape@, sub@, axis as int, k as int);
        }
        let mut s = v.read_prefix(data, len);
        let ghost lane_vals = v.read(data@);
        let d = s.split_off(n_s);
        proof {
            assert(s@ =~= lane_vals.subrange(0, n_s as int));
            assert(d@ =~= lane_vals.subrange(n_s as int, len as int));
        }
        let ss = s.as_slice();
        let ds = d.as_slice();
        let r = g(ss, ds);
        let ghost r0 = r.0@;
        let ghost r1 = r.1@;
        let ghost prev = data@;
        let (s2, d2) = r;
        let x = parity_merge(&s2, &d2);
        v.write_prefix(data, &x);
        proof {
            assert forall|kk: BandMap<T>| #[trigger] lifts_by(*g, kk) implies data@ == unlift_lanes(
                kk,
                old(data)@,
                l,
                (k + 1) as nat,
            ) by {
                assert(kk(ss@, ds@) == (r0, r1));
                assert(prev == unlift_lanes(kk, old(data)@, l, k as nat));
            }
        }
        k += 1;
    }
}

// ---------------------------------------------------------------------------------------
// Plans
// ---------------------------------------------------------------------------------------
/// The axes of `axes` without repetitions, in order of first occurrence.
pub open spec fn unique_axes(axes: Seq<usize>) -> Seq<usize>
    decreases axes.len(),
{
    if axes.len() == 0 {
        axes
    } else {
        let rest = unique_axes(axes.drop_last());
        if rest.contains(axes.last()) {
            rest
        } else {
            rest.push(axes.last())
        }
    }
}

/// Every axis left by [`unique_axes`] is one of the given axes.
pub proof fn lemma_unique_axes_in(axes: Seq<usize>, n: int)
    requires
        forall|j: int| 0 <= j < axes.len() ==> #[trigger] axes[j] < n,
    ensures
        forall|j: int| 0 <= j < unique_axes(axes).len() ==> #[trigger] unique_axes(axes)[j] < n,
    decreases axes.len(),
{
    if axes.len() > 0 {
        let rest = unique_axes(axes.drop_last());
        lemma_unique_axes_in(axes.drop_last(), n);
        assert(axes.last() < n) by {
            assert(axes[axes.len() - 1] < n);
        }
        assert forall|j: int| 0 <= j < unique_axes(axes).len() implies #[trigger] unique_axes(
            axes,
        )[j] < n by {
            if j < rest.len() {
                assert(rest[j] < n);
            }
        }
    }
}

/// The axes of `axes` without repetitions, in order of first occurrence.
pub fn dedup_axes(axes: &[usize]) -> (r: Vec<usize>)
    ensures
        r@ == unique_axes(axes@),
{
    let mut r: Vec<usize> = Vec::new();
    let mut k: usize = 0;
    proof {
        assert(axes@.subrange(0, 0) =~= Seq::<usize>::empty());
    }
    while k < axes.len()
        invariant
            k <= axes@.len(),
            r@ == unique_axes(axes@.subrange(0, k as int)),
        decreases axes@.len() - k,
    {
        let ghost p = axes@.subrange(0, k as int + 1);
        proof {
            assert(p.drop_last() =~= axes@.subrange(0, k as int));
        }
        if !crate::dwt::driver::contains_usize(r.as_slice(), axes[k]) {
            r.push(axes[k]);
        }
        k += 1;
    }
    proof {
        assert(axes@.subrange(0, axes@.len() as int) =~= axes@);
    }
    r
}

/// Passes of one lifting level over region `sub` for `axes[0..i]`, and whether no pass
/// had been made before the last of them: every axis whose approximation would exceed one
/// sample is transformed over the whole region.
pub open spec fn lift_level(sub: Seq<usize>, axes: Seq<usize>, i: nat, first: bool) -> (Seq<
    PassModel,
>, bool)
    decreases i,
{
    if i == 0 {
        (Seq::empty(), first)
    } else {
        let (ps, fst) = lift_level(sub, axes, (i - 1) as nat, first);
        let ax = axes[i - 1];
        let n = sub[ax as int];
        let n_d = n / 2;
        let n_s = n - n_d;
        if n_s > 1 {
            (
                ps.push(
                    PassModel {
                        axis: ax,
                        sub,
                        n_samples: n,
                        n_s: n_s as usize,
                        n_d: n_d as usize,
                        from_input: fst,
                    },
                ),
                false,
            )
        } else {
            (ps, fst)
        }
    }
}

/// The region after a lifting level over `axes[0..i]`: every axis longer than one keeps
/// its leading half, rounded up.
pub open spec fn lift_shrink(sub: Seq<usize>, axes: Seq<usize>, i: nat) -> Seq<usize>
    decreases i,
{
    if i == 0 {
        sub
    } else {
        let s = lift_shrink(sub, axes, (i - 1) as nat);
        let ax = axes[i - 1] as int;
        if s[ax] > 1 {
            s.update(ax, (s[ax] - s[ax] / 2) as usize)
        } else {
            s
        }
    }
}

/// Region, first-pass flag and passes after `lvl` forward lifting levels.
pub open spec fn lift_levels(shape: Seq<usize>, axes: Seq<usize>, lvl: nat) -> (Seq<usize>, bool, Seq<
    PassModel,
>)
    decreases lvl,
{
    if lvl == 0 {
        (shape, true, Seq::empty())
    } else {
        let (sub, first, ps) = lift_levels(shape, axes, (lvl - 1) as nat);
        let (lp, fst) = lift_level(sub, axes, axes.len(), first);
        (lift_shrink(sub, axes, axes.len()), fst, ps + lp)
    }
}

/// Passes of a `level`-level forward lifting transform of an array of shape `shape`
/// along `axes`.
pub open spec fn lift_forward_plan(shape: Seq<usize>, axes: Seq<usize>, level: nat) -> Seq<PassModel> {
    lift_levels(shape, axes, level).2
}

/// Passes of levels `lvl - 1` down to `0` of an inverse lifting transform.
pub open spec fn lift_inverse_plan(shape: Seq<usize>, axes: Seq<usize>, lvl: nat) -> Seq<PassModel>
    decreases lvl,
{
    if lvl == 0 {
        Seq::empty()
    } else {
        let l = (lvl - 1) as nat;
        let sub = lift_levels(shape, axes, l).0;
        lift_level(sub, axes, axes.len(), false).0 + lift_inverse_plan(shape, axes, l)
    }
}

/// Passes of one lifting level (see [`lift_level`]), appended to `passes`.
fn push_lift_level(
    passes: &mut Vec<LanePass>,
    sub: &Vec<usize>,
    axes: &[usize],
    first: bool,
) -> (r: bool)
    requires
        forall|j: int| 0 <= j < axes@.len() ==> #[trigger] axes@[j] < sub@.len(),
    ensures
        ({
            let (lp, fst) = lift_level(sub@, axes@, axes@.len(), first);
            models(final(passes)@) == models(old(passes)@) + lp && r == fst
        }),
{
    let ghost before = models(passes@);
    let mut fst = first;
    let mut i: usize = 0;
    proof {
        assert(models(passes@) =~= before + Seq::<PassModel>::empty());
    }
    while i < axes.len()
        invariant
            i <= axes@.len(),
            forall|j: int| 0 <= j < axes@.len() ==> #[trigger] axes@[j] < sub@.len(),
            ({
                let (lp, f2) = lift_level(sub@, axes@, i as nat, first);
                models(passes@) == before + lp && fst == f2
            }),
        decreases axes@.len() - i,
    {
        let ax = axes[i];
        let n = sub[ax];
        let n_d = n / 2;
        let n_s = n - n_d;
        if n_s > 1 {
            let pass = LanePass {
                axis: ax,
                sub_shape: copy_shape(sub.as_slice()),
                n_samples: n,
                n_s,
                n_d,
                from_input: fst,
            };
            let ghost old_passes = passes@;
            passes.push(pass);
            proof {
                let (lp, f2) = lift_level(sub@, axes@, i as nat, first);
                assert(models(passes@) =~= models(old_passes).push(pass.model()));
                assert(before + lp.push(pass.model()) =~= (before + lp).push(pass.model()));
            }
            fst = false;
        }
        i += 1;
    }
    fst
}

/// The region after one lifting level (see [`lift_shrink`]).
fn shrink_lift_region(sub: &mut Vec<usize>, axes: &[usize])
    requires
        forall|j: int| 0 <= j < axes@.len() ==> #[trigger] axes@[j] < old(sub)@.len(),
    ensures
        final(sub)@ == lift_shrink(old(sub)@, axes@, axes@.len()),
        final(sub)@.len() == old(sub)@.len(),
{
    let ghost s0 = sub@;
    let mut i: usize = 0;
    while i < axes.len()
        invariant
            i <= axes@.len(),
            sub@.len() == s0.len(),
            forall|j: int| 0 <= j < axes@.len() ==> #[trigger] axes@[j] < s0.len(),
            sub@ == lift_shrink(s0, axes@, i as nat),
        decreases axes@.len() - i,
    {
        let ax = axes[i];
        let n = sub[ax];
        if n > 1 {
            sub.set(ax, n - n / 2);
        }
        i += 1;
    }
}

/// The passes of a `level`-level forward lifting transform (see [`lift_forward_plan`]).
pub fn lift_forward_passes(shape: &[usize], axes: &[usize], level: usize) -> (r: Vec<LanePass>)
    requires
        forall|j: int| 0 <= j < axes@.len() ==> #[trigger] axes@[j] < shape@.len(),
    ensures
        models(r@) == lift_forward_plan(shape@, axes@, level as nat),
{
    let mut sub = copy_shape(shape);
    let mut first = true;
    let mut passes: Vec<LanePass> = Vec::new();
    let mut lvl: usize = 0;
    proof {
        assert(models(passes@) =~= Seq::<PassModel>::empty());
    }
    while lvl < level
        invariant
            lvl <= level,
            sub@.len() == shape@.len(),
            forall|j: int| 0 <= j < axes@.len() ==> #[trigger] axes@[j] < shape@.len(),
            lift_levels(shape@, axes@, lvl as nat) == (sub@, first, models(passes@)),
        decreases level - lvl,
    {
        first = push_lift_level(&mut passes, &sub, axes, first);
        shrink_lift_region(&mut sub, axes);
        lvl += 1;
    }
    passes
}

/// The passes of a `level`-level inverse lifting transform (see [`lift_inverse_plan`]).
pub fn lift_inverse_passes(shape: &[usize], axes: &[usize], level: usize) -> (r: Vec<LanePass>)
    requires
        forall|j: int| 0 <= j < axes@.len() ==> #[trigger] axes@[j] < shape@.len(),
    ensures
        models(r@) == lift_inverse_plan(shape@, axes@, level as nat),
{
    let mut passes: Vec<LanePass> = Vec::new();
    let mut lvl = level;
    proof {
        assert(models(passes@) + lift_inverse_plan(shape@, axes@, lvl as nat) =~= lift_inverse_plan(
            shape@,
            axes@,
            level as nat,
        ));
    }
    while lvl > 0
        invariant
            lvl <= level,
            forall|j: int| 0 <= j < axes@.len() ==> #[trigger] axes@[j] < shape@.len(),
            models(passes@) + lift_inverse_plan(shape@, axes@, lvl as nat) == lift_inverse_plan(
                shape@,
                axes@,
                level as nat,
            ),
        decreases lvl,
    {
        lvl -= 1;
        let mut sub = copy_shape(shape);
        let mut k: usize = 0;
        while k < lvl
            invariant
                k <= lvl,
                sub@.len() == shape@.len(),
                forall|j: int| 0 <= j < axes@.len() ==> #[trigger] axes@[j] < shape@.len(),
                sub@ == lift_levels(shape@, axes@, k as nat).0,
            decreases lvl - k,
        {
            shrink_lift_region(&mut sub, axes);
            k += 1;
        }
        let ghost before = models(passes@);
        let _ = push_lift_level(&mut passes, &sub, axes, false);
        proof {
            let lp = lift_level(sub@, axes@, axes@.len(), false).0;
            let rest = lift_inverse_plan(shape@, axes@, lvl as nat);
            assert((before + lp) + rest =~= before + (lp + rest));
        }
    }
    proof {
        assert(models(passes@) + Seq::<PassModel>::empty() =~= models(passes@));
    }
    passes
}

// ---------------------------------------------------------------------------------------
// Drivers
// ---------------------------------------------------------------------------------------
/// Result of running forward lifting passes over `data` (shape `shape`); a pass from the
/// input reads `input`.
pub open spec fn run_lift_forward<T>(
    f: BandMap<T>,
    input: Seq<T>,
    data: Seq<T>,
    shape: Seq<usize>,
    passes: Seq<PassModel>,
) -> Seq<T>
    decreases passes.len(),
{
    if passes.len() == 0 {
        data
    } else {
        let prev = run_lift_forward(f, input, data, shape, passes.drop_last());
        let p = passes.last();
        if p.from_input {
            lift_pass_from(f, input, prev, shape, p.sub, p.axis as int)
        } else {
            lift_pass(f, prev, shape, p.sub, p.axis as int)
        }
    }
}

/// Result of running inverse lifting passes over `data` (shape `shape`).
pub open spec fn run_lift_inverse<T>(
    g: BandMap<T>,
    data: Seq<T>,
    shape: Seq<usize>,
    passes: Seq<PassModel>,
) -> Seq<T>
    decreases passes.len(),
{
    if passes.len() == 0 {
        data
    } else {
        let prev = run_lift_inverse(g, data, shape, passes.drop_last());
        let p = passes.last();
        unlift_pass(g, prev, shape, p.sub, p.axis as int)
    }
}

/// Multi-level N-D forward lifting transform of `input` into `output` (both of shape
/// `shape`) along the distinct axes of `axes`, with the lifting kernel `func`: the passes
/// of [`lift_forward_plan`] run in order, the first one reading the input and the others
/// working in place on the output.  The result is stated for every band map the kernel
/// computes ([`lifts_by`]): a kernel whose `ensures` fixes its result by a band map `k`
/// gets the run of `k`.
pub fn general_nd_forward_multilevel<T: Copy, F: Fn(&[T], &[T]) -> (Vec<T>, Vec<T>)>(
    func: &F,
    input: &[T],
    output: &mut [T],
    shape: &[usize],
    axes: &[usize],
    level: usize,
)
    requires
        lifting_kernel(*func),
        input@.len() == shape_prod(shape@),
        old(output)@.len() == shape_prod(shape@),
        forall|j: int| 0 <= j < axes@.len() ==> #[trigger] axes@[j] < shape@.len(),
    ensures
        final(output)@.len() == old(output)@.len(),
        forall|kk: BandMap<T>|
            #[trigger] lifts_by(*func, kk) ==> final(output)@ == run_lift_forward(
                kk,
                input@,
                old(output)@,
                shape@,
                lift_forward_plan(shape@, unique_axes(axes@), level as nat),
            ),
{
    let uaxes = dedup_axes(axes);
    proof {
        lemma_unique_axes_in(axes@, shape@.len() as int);
    }
    let passes = lift_forward_passes(shape, uaxes.as_slice(), level);
    let ghost plan = models(passes@);
    let mut k: usize = 0;
    proof {
        assert(plan.subrange(0, 0) =~= Seq::<PassModel>::empty());
    }
    while k < passes.len()
        invariant
            lifting_kernel(*func),
            input@.len() == shape_prod(shape@),
            output@.len() == shape_prod(shape@),
            plan == models(passes@),
            k <= passes@.len(),
            forall|kk: BandMap<T>|
                #[trigger] lifts_by(*func, kk) ==> output@ == run_lift_forward(
                    kk,
                    input@,
                    old(output)@,
                    shape@,
                    plan.subrange(0, k as int),
                ),
        decreases passes@.len() - k,
    {
        let p = &passes[k];
        let ghost prev = output@;
        if p.from_input {
            lift_lanes_into(func, input, output, shape, p.sub_shape.as_slice(), p.axis);
        } else {
            lift_lanes_in_place(func, output, shape, p.sub_shape.as_slice(), p.axis);
        }
        proof {
            assert(plan.subrange(0, k + 1).drop_last() =~= plan.subrange(0, k as int));
            assert forall|kk: BandMap<T>| #[trigger] lifts_by(*func, kk) implies output@
                == run_lift_forward(
                kk,
                input@,
                old(output)@,
                shape@,
                plan.subrange(0, k + 1),
            ) by {
                assert(prev == run_lift_forward(
                    kk,
                    input@,
                    old(output)@,
                    shape@,
                    plan.subrange(0, k as int),
                ));
            }
        }
        k += 1;
    }
    proof {
        assert(plan.subrange(0, passes@.len() as int) =~= plan);
    }
}

/// Multi-level N-D inverse lifting transform of `input` into `output` (both of shape
/// `shape`) along the distinct axes of `axes`, with the lifting kernel `func`: the input
/// is copied to the output and the passes of [`lift_inverse_plan`] run there in order.
/// The result is stated for every band map the kernel computes ([`lifts_by`]).
pub fn general_nd_inverse_multilevel<T: Copy, G: Fn(&[T], &[T]) -> (Vec<T>, Vec<T>)>(
    func: &G,
    input: &[T],
    output: &mut [T],
    shape: &[usize],
    axes: &[usize],
    level: usize,
)
    requires
        lifting_kernel(*func),
        input@.len() == shape_prod(shape@),
        old(output)@.len() == shape_prod(shape@),
        forall|j: int| 0 <= j < axes@.len() ==> #[trigger] axes@[j] < shape@.len(),
    ensures
        final(output)@.len() == old(output)@.len(),
        forall|kk: BandMap<T>|
            #[trigger] lifts_by(*func, kk) ==> final(output)@ == run_lift_inverse(
                kk,
                copy_region(input@, shape@, old(output)@, shape@, min_stride_axis(shape@)),
                shape@,
                lift_inverse_plan(shape@, unique_axes(axes@), level as nat),
            ),
{
    let uaxes = dedup_axes(axes);
    proof {
        lemma_unique_axes_in(axes@, shape@.len() as int);
    }
    let min_axis = if shape.len() > 0 {
        shape.len() - 1
    } else {
        0
    };
    copy_region_into(input, shape, output, shape, min_axis);
    let passes = lift_inverse_passes(shape, uaxes.as_slice(), level);
    let ghost start = output@;
    let ghost plan = models(passes@);
    let mut k: usize = 0;
    proof {
        assert(plan.subrange(0, 0) =~= Seq::<PassModel>::empty());
    }
    while k < passes.len()
        invariant
            lifting_kernel(*func),
            output@.len() == shape_prod(shape@),
            plan == models(passes@),
            k <= passes@.len(),
            forall|kk: BandMap<T>|
                #[trigger] lifts_by(*func, kk) ==> output@ == run_lift_inverse(
                    kk,
                    start,
                    shape@,
                    plan.subrange(0, k as int),
                ),
        decreases passes@.len() - k,
    {
        let p = &passes[k];
        let ghost prev = output@;
        unlift_lanes_in_place(func, output, shape, p.sub_shape.as_slice(), p.axis);
        proof {
            assert(plan.subrange(0, k + 1).drop_last() =~= plan.subrange(0, k as int));
            assert forall|kk: BandMap<T>| #[trigger] lifts_by(*func, kk) implies output@
                == run_lift_inverse(kk, start, shape@, plan.subrange(0, k + 1)) by {
                assert(prev == run_lift_inverse(kk, start, shape@, plan.subrange(0, k as int)));
            }
        }
        k += 1;
    }
    proof {
        assert(plan.subrange(0, passes@.len() as int) =~= plan);
    }
}

// ---------------------------------------------------------------------------------------
// Reconstruction
// ---------------------------------------------------------------------------------------
/// Band map `g` undoes band map `f`: on bands of the lengths a lane split gives, `f` keeps
/// their lengths and `g` brings them back.
pub open spec fn lifting_inverse<T>(f: BandMap<T>, g: BandMap<T>) -> bool {
    forall|s: Seq<T>, d: Seq<T>|
        s.len() == d.len() || s.len() == d.len() + 1 ==> {
            let (s2, d2) = #[trigger] f(s, d);
            &&& s2.len() == s.len()
            &&& d2.len() == d.len()
            &&& g(s2, d2) == (s, d)
        }
}

/// Inverse lifting of a lifted lane gives the lane back.
pub proof fn lemma_unlift_lift_lane<T>(f: BandMap<T>, g: BandMap<T>, v: Seq<T>)
    requires
        lifting_inverse(f, g),
    ensures
        lift_lane(f, v).len() == v.len(),
        unlift_lane(g, lift_lane(f, v)) == v,
{
    let e = evens_of(v);
    let o = odds_of(v);
    let (s2, d2) = f(e, o);
    let w = s2 + d2;
    let n_s = w.len() - w.len() / 2;
    assert(n_s == e.len());
    assert(w.subrange(0, n_s) =~= s2);
    assert(w.subrange(n_s, w.len() as int) =~= d2);
    lemma_interleave_deinterleave(v);
}

pub(crate) proof fn lemma_lift_lanes_map<T>(
    f: BandMap<T>,
    data: Seq<T>,
    l: LaneLayout,
    j: nat,
)
    ensures
        lift_lanes(f, data, l, j) == map_lanes(data, l, |v: Seq<T>| lift_lane(f, v), j),
    decreases j,
{
    if j > 0 {
        lemma_lift_lanes_map(f, data, l, (j - 1) as nat);
    }
}

pub(crate) proof fn lemma_unlift_lanes_map<T>(
    g: BandMap<T>,
    data: Seq<T>,
    l: LaneLayout,
    j: nat,
)
    ensures
        unlift_lanes(g, data, l, j) == map_lanes(data, l, |v: Seq<T>| unlift_lane(g, v), j),
    decreases j,
{
    if j > 0 {
        lemma_unlift_lanes_map(g, data, l, (j - 1) as nat);
    }
}

proof fn lemma_lift_lanes_from_map<T>(
    f: BandMap<T>,
    src: Seq<T>,
    dst: Seq<T>,
    l: LaneLayout,
    j: nat,
)
    ensures
        lift_lanes_from(f, src, dst, l, j) == map_lanes_from(
            src,
            dst,
            l,
            |v: Seq<T>| lift_lane(f, v),
            j,
        ),
    decreases j,
{
    if j > 0 {
        lemma_lift_lanes_from_map(f, src, dst, l, (j - 1) as nat);
    }
}

/// An inverse lifting pass undoes a forward lifting pass over the same region, for kernels
/// that invert each other.
pub proof fn lemma_unlift_lift_pass<T>(f: BandMap<T>, g: BandMap<T>, data: Seq<T>, shape: Seq<usize>, sub: Seq<usize>, axis: int)
    requires
        lifting_inverse(f, g),
        data.len() == shape_prod(shape),
    ensures
        unlift_pass(g, lift_pass(f, data, shape, sub, axis), shape, sub, axis) == data,
{
    if sub_lanes_ok(shape, sub, axis) {
        let l = sub_lane_layout(shape, sub, axis);
        let n = shape_prod(sub.remove(axis));
        lemma_sub_lanes_nonempty(shape, sub, axis);
        lemma_sub_lanes_apart(shape, sub, axis);
        let hf = |v: Seq<T>| lift_lane(f, v);
        let hg = |v: Seq<T>| unlift_lane(g, v);
        assert forall|k: int| 0 <= k < n implies #[trigger] hf(lane_of(l, k).read(data)).len()
            == l.lane_length by {
            lemma_unlift_lift_lane(f, g, lane_of(l, k).read(data));
        }
        lemma_lift_lanes_map(f, data, l, n as nat);
        lemma_map_lanes(data, l, hf, n as nat);
        let d1 = map_lanes(data, l, hf, n as nat);
        assert forall|k: int| 0 <= k < n implies #[trigger] lane_of(l, k).read(d1) == hf(
            lane_of(l, k).read(data),
        ) by {
            lemma_unlift_lift_lane(f, g, lane_of(l, k).read(data));
            assert(lane_of(l, k).read(d1) =~= hf(lane_of(l, k).read(data)));
        }
        assert forall|k: int| 0 <= k < n implies #[trigger] hg(lane_of(l, k).read(d1)).len()
            == l.lane_length by {
            lemma_unlift_lift_lane(f, g, lane_of(l, k).read(data));
        }
        lemma_unlift_lanes_map(g, d1, l, n as nat);
        lemma_map_lanes(d1, l, hg, n as nat);
        let d2 = map_lanes(d1, l, hg, n as nat);
        assert forall|p: int| 0 <= p < data.len() implies d2[p] == data[p] by {
            if in_lanes(l, n, p) {
                let (k, i) = choose|k: int, i: int|
                    0 <= k < n && 0 <= i < l.lane_length && #[trigger] lane_of(l, k).index_of(i)
                        == p;
                lemma_unlift_lift_lane(f, g, lane_of(l, k).read(data));
                assert(d2[lane_of(l, k).index_of(i)] == hg(lane_of(l, k).read(d1))[i]);
            }
        }
        assert(d2 =~= data);
    }
}

/// A forward lifting pass from a source over the whole array is the same pass made in
/// place on the source: nothing of the destination survives.
pub(crate) proof fn lemma_lift_from_whole<T>(f: BandMap<T>, g: BandMap<T>, src: Seq<T>, dst: Seq<T>, shape: Seq<usize>, axis: int)
    requires
        lifting_inverse(f, g),
        lanes_ok(shape, axis),
        src.len() == shape_prod(shape),
        dst.len() == shape_prod(shape),
    ensures
        lift_pass_from(f, src, dst, shape, shape, axis) == lift_pass(f, src, shape, shape, axis),
{
    assert(sub_lanes_ok(shape, shape, axis));
    let l = sub_lane_layout(shape, shape, axis);
    let n = shape_prod(shape.remove(axis));
    lemma_sub_lanes_nonempty(shape, shape, axis);
    lemma_sub_lanes_apart(shape, shape, axis);
    let hf = |v: Seq<T>| lift_lane(f, v);
    assert forall|k: int| 0 <= k < n implies #[trigger] hf(lane_of(l, k).read(src)).len()
        == l.lane_length by {
        lemma_unlift_lift_lane(f, g, lane_of(l, k).read(src));
    }
    lemma_lift_lanes_map(f, src, l, n as nat);
    lemma_lift_lanes_from_map(f, src, dst, l, n as nat);
    lemma_map_lanes(src, l, hf, n as nat);
    lemma_map_lanes_from(src, dst, l, hf, n as nat);
    let a = map_lanes_from(src, dst, l, hf, n as nat);
    let b = map_lanes(src, l, hf, n as nat);
    assert forall|p: int| 0 <= p < src.len() implies a[p] == b[p] by {
        lemma_sub_lanes_cover(shape, axis, p);
        let (k, i) = choose|k: int, i: int|
            0 <= k < n && 0 <= i < shape[axis] && #[trigger] lane_of(l, k).index_of(i) == p;
        assert(a[lane_of(l, k).index_of(i)] == hf(lane_of(l, k).read(src))[i]);
        assert(b[lane_of(l, k).index_of(i)] == hf(lane_of(l, k).read(src))[i]);
    }
    assert(a =~= b);
}

pub(crate) proof fn lemma_run_lift_inverse_prepend<T>(
    g: BandMap<T>,
    data: Seq<T>,
    shape: Seq<usize>,
    q: PassModel,
    rest: Seq<PassModel>,
)
    ensures
        run_lift_inverse(g, data, shape, seq![q] + rest) == run_lift_inverse(
            g,
            unlift_pass(g, data, shape, q.sub, q.axis as int),
            shape,
            rest,
        ),
    decreases rest.len(),
{
    let all = seq![q] + rest;
    if rest.len() == 0 {
        assert(all =~= seq![q]);
        assert(all.drop_last() =~= Seq::<PassModel>::empty());
        assert(all.last() == q);
        assert(run_lift_inverse(g, data, shape, all.drop_last()) == data);
    } else {
        lemma_run_lift_inverse_prepend(g, data, shape, q, rest.drop_last());
        assert(all.drop_last() =~= seq![q] + rest.drop_last());
        assert(all.last() == rest.last());
    }
}

/// What stays true of the first `lvl` levels of a lifting transform along one axis: the
/// forward and inverse plans make as many passes, the first-pass flag says whether none was
/// made, and before the first pass the region is the whole array or too short to split.
proof fn lemma_lift_levels_one_axis(shape: Seq<usize>, axis: usize, lvl: nat)
    requires
        axis < shape.len(),
    ensures
        ({
            let (sub, first, ps) = lift_levels(shape, seq![axis], lvl);
            &&& sub.len() == shape.len()
            &&& lift_inverse_plan(shape, seq![axis], lvl).len() == ps.len()
            &&& first == (ps.len() == 0)
            &&& ps.len() == 0 ==> (sub == shape || sub[axis as int] <= 1)
        }),
    decreases lvl,
{
    if lvl > 0 {
        let m = (lvl - 1) as nat;
        lemma_lift_levels_one_axis(shape, axis, m);
        let axes = seq![axis];
        let (sub, first, ps) = lift_levels(shape, axes, m);
        assert(lift_level(sub, axes, 0, first) == (Seq::<PassModel>::empty(), first));
        assert(lift_level(sub, axes, 0, false) == (Seq::<PassModel>::empty(), false));
        assert(lift_shrink(sub, axes, 0) == sub);
        let (lp, fst) = lift_level(sub, axes, axes.len(), first);
        let lpi = lift_level(sub, axes, axes.len(), false).0;
        assert(lp.len() == lpi.len());
        assert((ps + lp).len() == ps.len() + lp.len());
    }
}

/// Along a single axis, lifting the first `lvl` levels and then undoing them reconstructs
/// the input, once at least one pass was made.
proof fn lemma_lift_round_trip_levels<T>(f: BandMap<T>, g: BandMap<T>, x: Seq<T>, out: Seq<T>, shape: Seq<usize>, axis: usize, lvl: nat)
    requires
        lifting_inverse(f, g),
        x.len() == shape_prod(shape),
        out.len() == x.len(),
        0 < x.len() <= usize::MAX,
        axis < shape.len(),
        lift_forward_plan(shape, seq![axis], lvl).len() > 0,
    ensures
        run_lift_inverse(
            g,
            run_lift_forward(f, x, out, shape, lift_forward_plan(shape, seq![axis], lvl)),
            shape,
            lift_inverse_plan(shape, seq![axis], lvl),
        ) == x,
    decreases lvl,
{
    let axes = seq![axis];
    let m = (lvl - 1) as nat;
    lemma_lift_levels_one_axis(shape, axis, m);
    let (sub, first, ps) = lift_levels(shape, axes, m);
    assert(lift_level(sub, axes, 0, first) == (Seq::<PassModel>::empty(), first));
    assert(lift_level(sub, axes, 0, false) == (Seq::<PassModel>::empty(), false));
    let (lp, fst) = lift_level(sub, axes, axes.len(), first);
    let lpi = lift_level(sub, axes, axes.len(), false).0;
    let iprev = lift_inverse_plan(shape, axes, m);
    assert(lift_forward_plan(shape, axes, lvl) == ps + lp);
    assert(lift_inverse_plan(shape, axes, lvl) == lpi + iprev);
    lemma_lanes_ok_from_len(shape, axis as int);
    if lp.len() == 0 {
        assert(ps + lp =~= ps);
        assert(lpi.len() == 0);
        assert(lpi + iprev =~= iprev);
        lemma_lift_round_trip_levels(f, g, x, out, shape, axis, m);
    } else {
        let p = lp[0];
        assert(lp =~= seq![p]);
        assert(lpi =~= seq![PassModel { from_input: false, ..p }]);
        let q = lpi[0];
        assert((ps + lp).drop_last() =~= ps);
        assert((ps + lp).last() == p);
        let fwd_prev = run_lift_forward(f, x, out, shape, ps);
        lemma_run_lift_forward_len(f, x, out, shape, ps);
        lemma_run_lift_inverse_prepend(g, run_lift_forward(f, x, out, shape, ps + lp), shape, q, iprev);
        if first {
            assert(ps.len() == 0);
            assert(sub == shape);
            assert(fwd_prev == out);
            lemma_lift_from_whole(f, g, x, out, shape, axis as int);
            lemma_unlift_lift_pass(f, g, x, shape, shape, axis as int);
            assert(iprev.len() == 0);
        } else {
            lemma_unlift_lift_pass(f, g, fwd_prev, shape, sub, axis as int);
            lemma_lift_round_trip_levels(f, g, x, out, shape, axis, m);
        }
    }
}

/// Lifting along a single axis is undone by inverse lifting: for kernels that invert each
/// other, when the forward transform makes at least one pass, the inverse transform of a
/// copy of its output gives the input back.
pub proof fn lemma_lift_round_trip<T>(f: BandMap<T>, g: BandMap<T>, x: Seq<T>, out: Seq<T>, work: Seq<T>, shape: Seq<usize>, axis: usize, level: nat)
    requires
        lifting_inverse(f, g),
        x.len() == shape_prod(shape),
        out.len() == x.len(),
        work.len() == x.len(),
        0 < x.len() <= usize::MAX,
        axis < shape.len(),
        lift_forward_plan(shape, seq![axis], level).len() > 0,
    ensures
        ({
            let coefs = run_lift_forward(f, x, out, shape, lift_forward_plan(shape, seq![axis], level));
            run_lift_inverse(
                g,
                copy_region(coefs, shape, work, shape, min_stride_axis(shape)),
                shape,
                lift_inverse_plan(shape, seq![axis], level),
            ) == x
        }),
{
    let coefs = run_lift_forward(f, x, out, shape, lift_forward_plan(shape, seq![axis], level));
    lemma_run_lift_forward_len(f, x, out, shape, lift_forward_plan(shape, seq![axis], level));
    lemma_lanes_ok_from_len(shape, min_stride_axis(shape));
    lemma_copy_whole(coefs, work, shape, min_stride_axis(shape));
    lemma_lift_round_trip_levels(f, g, x, out, shape, axis, level);
}

pub(crate) proof fn lemma_run_lift_forward_len<T>(
    f: BandMap<T>,
    input: Seq<T>,
    data: Seq<T>,
    shape: Seq<usize>,
    passes: Seq<PassModel>,
)
    requires
        data.len() == shape_prod(shape),
        input.len() == shape_prod(shape),
    ensures
        run_lift_forward(f, input, data, shape, passes).len() == data.len(),
    decreases passes.len(),
{
    if passes.len() > 0 {
        lemma_run_lift_forward_len(f, input, data, shape, passes.drop_last());
        let prev = run_lift_forward(f, input, data, shape, passes.drop_last());
        let p = passes.last();
        if sub_lanes_ok(shape, p.sub, p.axis as int) {
            let l = sub_lane_layout(shape, p.sub, p.axis as int);
            let n = shape_prod(p.sub.remove(p.axis as int));
            lemma_sub_lanes_nonempty(shape, p.sub, p.axis as int);
            lemma_lift_lanes_map(f, prev, l, n as nat);
            lemma_lift_lanes_from_map(f, input, prev, l, n as nat);
            lemma_map_len(prev, l, |v: Seq<T>| lift_lane(f, v), n as nat);
            lemma_map_from_len(input, prev, l, |v: Seq<T>| lift_lane(f, v), n as nat);
        }
    }
}

proof fn lemma_map_len<T>(data: Seq<T>, l: LaneLayout, h: spec_fn(Seq<T>) -> Seq<T>, n: nat)
    ensures
        map_lanes(data, l, h, n).len() == data.len(),
    decreases n,
{
    if n > 0 {
        lemma_map_len(data, l, h, (n - 1) as nat);
    }
}

proof fn lemma_map_from_len<T>(
    src: Seq<T>,
    dst: Seq<T>,
    l: LaneLayout,
    h: spec_fn(Seq<T>) -> Seq<T>,
    n: nat,
)
    ensures
        map_lanes_from(src, dst, l, h, n).len() == dst.len(),
    decreases n,
{
    if n > 0 {
        lemma_map_from_len(src, dst, l, h, (n - 1) as nat);
    }
}

} // verus!
