//! Multi-level N-D DWT drivers: output shapes, the passes a decomposition or
//! reconstruction makes, and the drivers that run them with caller-supplied 1-D kernels.
use crate::dwt::lanes::{
    copy_region, copy_region_into, joins_by, splits_by, BandSplit, forward_kernel, forward_lanes,
    forward_lanes_from, forward_lanes_in_place, forward_lanes_into, forward_pass,
    forward_pass_from, in_lanes, inverse_kernel, inverse_lanes, inverse_lanes_in_place,
    inverse_pass, BandJoin, lemma_copy_whole, lemma_map_lanes, lemma_map_lanes_from,
    lemma_sub_lanes_apart, map_lanes, map_lanes_from, pass_fits, stacked,
};
use crate::dwt::{get_outlen, outlen_spec};
use crate::iter::slice::{
    copy_shape, lane_layout, lane_of, lanes_ok, lemma_lanes_ok_from_len, lemma_sub_lanes_cover,
    lemma_sub_lanes_nonempty, sub_lane_layout, sub_lanes_ok, LaneLayout,
};
use crate::utils::shape_prod;
use vstd::prelude::*;

verus! {

/// Sub-band length after `k` successive non-periodic DWT levels of `n` samples.
pub open spec fn outlen_iter(width: int, n: int, k: nat) -> int
    decreases k,
{
    if k == 0 {
        n
    } else {
        outlen_spec(width, outlen_iter(width, n, (k - 1) as nat))
    }
}

/// Total detail length `sum_{l=1}^{k} outlen_iter(width, n, l)` of the first `k` levels.
pub open spec fn detail_total(width: int, n: int, k: nat) -> int
    decreases k,
{
    if k == 0 {
        0
    } else {
        detail_total(width, n, (k - 1) as nat) + outlen_iter(width, n, k)
    }
}

/// Length along a transformed axis of the output of a `level`-level non-periodic DWT:
/// the detail coefficients of every level followed by the approximation coefficients of
/// the last one (zero when no level is taken).
pub open spec fn transformed_len(width: int, n: int, level: nat) -> int {
    if level == 0 {
        0
    } else {
        detail_total(width, n, level) + outlen_iter(width, n, level)
    }
}

proof fn lemma_outlen_iter_nonneg(width: int, n: int, k: nat)
    requires
        width >= 2,
        n >= 0,
    ensures
        outlen_iter(width, n, k) >= 0,
    decreases k,
{
    if k > 0 {
        lemma_outlen_iter_nonneg(width, n, (k - 1) as nat);
    }
}

proof fn lemma_detail_total_mono(width: int, n: int, j: nat, k: nat)
    requires
        width >= 2,
        n >= 0,
        j <= k,
    ensures
        detail_total(width, n, j) <= detail_total(width, n, k),
        j >= 1 ==> detail_total(width, n, k) >= detail_total(width, n, (j - 1) as nat)
            + outlen_iter(width, n, j),
    decreases k,
{
    if j < k {
        lemma_detail_total_mono(width, n, j, (k - 1) as nat);
        lemma_outlen_iter_nonneg(width, n, k);
    }
}

/// Length along one transformed axis of a `level`-level decomposition of `n` samples.
pub fn transformed_axis_len(width: usize, n: usize, level: usize) -> (r: usize)
    requires
        level > 0 ==> width >= 2,
        transformed_len(width as int, n as int, level as nat) <= usize::MAX,
    ensures
        r == transformed_len(width as int, n as int, level as nat),
{
    if level == 0 {
        return 0;
    }
    let mut out: usize = 0;
    let mut cur = n;
    let mut lvl: usize = 0;
    while lvl < level
        invariant
            0 < level,
            width >= 2,
            lvl <= level,
            transformed_len(width as int, n as int, level as nat) <= usize::MAX,
            cur == outlen_iter(width as int, n as int, lvl as nat),
            lvl < level ==> out == detail_total(width as int, n as int, lvl as nat),
            lvl == level ==> out == transformed_len(width as int, n as int, level as nat),
        decreases level - lvl,
    {
        proof {
            let w = width as int;
            let nn = n as int;
            lemma_outlen_iter_nonneg(w, nn, (lvl + 1) as nat);
            lemma_outlen_iter_nonneg(w, nn, lvl as nat);
            lemma_outlen_iter_nonneg(w, nn, level as nat);
            lemma_detail_total_mono(w, nn, (lvl + 1) as nat, level as nat);
            // the rounding step of `get_outlen` stays in range: the next length is at
            // most one below it and is counted again by the detail total or the doubling
            let nxt = outlen_iter(w, nn, (lvl + 1) as nat);
            if nxt == usize::MAX && lvl + 1 < level {
                lemma_detail_total_mono(w, nn, (lvl + 2) as nat, level as nat);
                lemma_detail_total_mono(w, nn, (lvl + 1) as nat, (lvl + 1) as nat);
                assert(outlen_iter(w, nn, (lvl + 2) as nat) > 0);
            }
        }
        let nds = get_outlen(width, cur);
        if lvl + 1 < level {
            out += nds;
        } else {
            out += 2 * nds;
        }
        cur = nds;
        lvl += 1;
    }
    out
}

/// `outlen_spec` never exceeds the larger of its input and `width + 2`.
proof fn lemma_outlen_bounded(width: int, c: int, b: int)
    requires
        width >= 2,
        0 <= c <= b,
        width + 2 <= b,
    ensures
        0 <= outlen_spec(width, c) <= b,
{
}

/// Length along one transformed axis of a `level`-level decomposition of `n` samples, or
/// `None` when it is larger than `usize::MAX`.
pub fn checked_transformed_axis_len(width: usize, n: usize, level: usize) -> (r: Option<usize>)
    requires
        level > 0 ==> width >= 2,
    ensures
        r matches Some(v) ==> v == transformed_len(width as int, n as int, level as nat),
        r is None <==> transformed_len(width as int, n as int, level as nat) > usize::MAX,
{
    if level == 0 {
        return Some(0);
    }
    let b: u128 = if (n as u128) > (width as u128) + 2 {
        n as u128
    } else {
        (width as u128) + 2
    };
    let w: u128 = width as u128;
    let mut out: u128 = 0;
    let mut cur: u128 = n as u128;
    let mut lvl: usize = 0;
    while lvl < level
        invariant
            0 < level,
            width >= 2,
            w == width,
            b >= n,
            b >= w + 2,
            b <= usize::MAX as int + 2,
            lvl <= level,
            cur == outlen_iter(width as int, n as int, lvl as nat),
            cur <= b,
            out == detail_total(width as int, n as int, lvl as nat),
            out <= usize::MAX,
        decreases level - lvl,
    {
        proof {
            lemma_outlen_bounded(width as int, cur as int, b as int);
        }
        let offset = (w - 2) / 2;
        let nds: u128 = if offset % 2 == 1 && cur % 2 == 1 {
            (cur + 1) / 2 + 2 * (w / 4) - 1
        } else {
            (cur + 1) / 2 + 2 * (w / 4)
        };
        proof {
            assert(nds == outlen_spec(width as int, cur as int));
            assert(nds == outlen_iter(width as int, n as int, (lvl + 1) as nat));
        }
        if out + nds > usize::MAX as u128 {
            proof {
                let ww = width as int;
                let nn = n as int;
                lemma_detail_total_mono(ww, nn, (lvl + 1) as nat, level as nat);
                lemma_outlen_iter_nonneg(ww, nn, level as nat);
            }
            return None;
        }
        out = out + nds;
        cur = nds;
        lvl += 1;
    }
    if out + cur > usize::MAX as u128 {
        return None;
    }
    Some((out + cur) as usize)
}

/// Whether `x` occurs in `v`.
pub fn contains_usize(v: &[usize], x: usize) -> (r: bool)
    ensures
        r == v@.contains(x),
{
    let mut k: usize = 0;
    while k < v.len()
        invariant
            k <= v@.len(),
            forall|j: int| 0 <= j < k ==> v@[j] != x,
        decreases v@.len() - k,
    {
        if v[k] == x {
            return true;
        }
        k += 1;
    }
    false
}

/// Output shape of a `level`-level N-D DWT of an array of shape `in_shape` transformed
/// along `axes` (an axis listed more than once is transformed once).
///
/// In periodic mode the output shape is the input shape.  Otherwise every transformed axis
/// holds the detail coefficients of every level followed by the last approximation.
pub fn get_outshape(
    in_shape: &[usize],
    axes: &[usize],
    level: usize,
    width: usize,
    per_mode: bool,
) -> (out: Vec<usize>)
    requires
        forall|j: int| 0 <= j < axes@.len() ==> axes@[j] < in_shape@.len(),
        !per_mode && level > 0 && axes@.len() > 0 ==> width >= 2,
        !per_mode ==> forall|k: int|
            0 <= k < in_shape@.len() && axes@.contains(k as usize) ==> transformed_len(
                width as int,
                in_shape@[k] as int,
                level as nat,
            ) <= usize::MAX,
    ensures
        out@.len() == in_shape@.len(),
        forall|k: int|
            0 <= k < in_shape@.len() ==> out@[k] == if !per_mode && axes@.contains(k as usize) {
                transformed_len(width as int, in_shape@[k] as int, level as nat)
            } else {
                in_shape@[k] as int
            },
{
    let mut out: Vec<usize> = Vec::new();
    let mut k: usize = 0;
    while k < in_shape.len()
        invariant
            k <= in_shape@.len(),
            out@.len() == k,
            forall|j: int| 0 <= j < axes@.len() ==> axes@[j] < in_shape@.len(),
            !per_mode && level > 0 && axes@.len() > 0 ==> width >= 2,
            !per_mode ==> forall|k: int|
                0 <= k < in_shape@.len() && axes@.contains(k as usize) ==> transformed_len(
                    width as int,
                    in_shape@[k] as int,
                    level as nat,
                ) <= usize::MAX,
            forall|j: int|
                0 <= j < k ==> out@[j] == if !per_mode && axes@.contains(j as usize) {
                    transformed_len(width as int, in_shape@[j] as int, level as nat)
                } else {
                    in_shape@[j] as int
                },
        decreases in_shape@.len() - k,
    {
        if !per_mode && contains_usize(axes, k) {
            out.push(transformed_axis_len(width, in_shape[k], level));
        } else {
            out.push(in_shape[k]);
        }
        k += 1;
    }
    out
}

// ---------------------------------------------------------------------------------------
// Passes of a multi-level transform
// ---------------------------------------------------------------------------------------
/// Lengths `(n_s, n_d)` of the approximation and detail bands of one level over `n`
/// samples: halves (the approximation taking the odd one) in periodic mode, the
/// non-periodic sub-band length for both otherwise.
pub open spec fn band_lengths(per_mode: bool, width: int, n: int) -> (int, int) {
    if per_mode {
        (n - n / 2, n / 2)
    } else {
        (outlen_spec(width, n), outlen_spec(width, n))
    }
}

/// Band lengths of one level over `n` samples.
pub fn band_lengths_exec(per_mode: bool, width: usize, n: usize) -> (r: (usize, usize))
    requires
        width >= 2,
    ensures
        r.0 == band_lengths(per_mode, width as int, n as int).0,
        r.1 == band_lengths(per_mode, width as int, n as int).1,
{
    if per_mode {
        let n_d = n / 2;
        (n - n_d, n_d)
    } else {
        assert((n + 1) / 2 + 2 * (width / 4) <= usize::MAX) by (nonlinear_arith)
            requires
                n <= usize::MAX,
                width <= usize::MAX,
        ;
        let n_sd = get_outlen(width, n);
        (n_sd, n_sd)
    }
}

/// One pass of a multi-level transform, as a value.
pub struct PassModel {
    /// Axis whose lanes are transformed.
    pub axis: usize,
    /// Leading region of the array whose lanes are transformed.
    pub sub: Seq<usize>,
    /// Number of signal samples of a lane (read by a forward pass, written by an inverse).
    pub n_samples: usize,
    /// Number of approximation coefficients.
    pub n_s: usize,
    /// Number of detail coefficients.
    pub n_d: usize,
    /// Whether the samples are read from the input array rather than the output.
    pub from_input: bool,
}

/// One pass of a multi-level transform.
pub struct LanePass {
    /// Axis whose lanes are transformed.
    pub axis: usize,
    /// Leading region of the array whose lanes are transformed.
    pub sub_shape: Vec<usize>,
    /// Number of signal samples of a lane (read by a forward pass, written by an inverse).
    pub n_samples: usize,
    /// Number of approximation coefficients.
    pub n_s: usize,
    /// Number of detail coefficients.
    pub n_d: usize,
    /// Whether the samples are read from the input array rather than the output.
    pub from_input: bool,
}

impl LanePass {
    /// The pass as a value.
    pub open spec fn model(&self) -> PassModel {
        PassModel {
            axis: self.axis,
            sub: self.sub_shape@,
            n_samples: self.n_samples,
            n_s: self.n_s,
            n_d: self.n_d,
            from_input: self.from_input,
        }
    }
}

/// The passes of a list, as values.
pub open spec fn models(passes: Seq<LanePass>) -> Seq<PassModel> {
    passes.map_values(|p: LanePass| p.model())
}

/// Pass `p` made in place on the output.
pub open spec fn in_place(p: PassModel) -> PassModel {
    PassModel { from_input: false, ..p }
}

/// Passes `ps`, each made in place on the output.
pub open spec fn in_place_all(ps: Seq<PassModel>) -> Seq<PassModel> {
    ps.map_values(|p: PassModel| in_place(p))
}

/// `a - b`, or zero when `b > a`.
pub open spec fn sat_sub(a: int, b: int) -> int {
    if a >= b {
        a - b
    } else {
        0
    }
}

/// State of a forward plan between levels: the approximation shape, the shape of the
/// output region still to be transformed, whether no pass has been made yet, and the
/// passes so far.
pub struct PlanState {
    pub approx: Seq<usize>,
    pub region: Seq<usize>,
    pub first: bool,
    pub passes: Seq<PassModel>,
}

/// Passes of one forward level over `axes[0..i]`, from state `st`, and the region the
/// next axis would see: each axis takes the lanes of the current region, whose length
/// along that axis becomes the output region's; an axis whose approximation would not
/// exceed one coefficient is left out.
pub open spec fn forward_level(
    st: PlanState,
    axes: Seq<usize>,
    i: nat,
    per_mode: bool,
    width: int,
) -> (PlanState, Seq<usize>)
    decreases i,
{
    if i == 0 {
        (st, st.approx)
    } else {
        let (st1, sub) = forward_level(st, axes, (i - 1) as nat, per_mode, width);
        let ax = axes[i - 1] as int;
        let n = sub[ax] as int;
        let (n_s, n_d) = band_lengths(per_mode, width, n);
        let sub2 = sub.update(ax, st.region[ax]);
        if n_s > 1 {
            (
                PlanState {
                    passes: st1.passes.push(
                        PassModel {
                            axis: ax as usize,
                            sub: sub2,
                            n_samples: n as usize,
                            n_s: n_s as usize,
                            n_d: n_d as usize,
                            from_input: st1.first,
                        },
                    ),
                    first: false,
                    ..st1
                },
                sub2,
            )
        } else {
            (st1, sub2)
        }
    }
}

/// Shapes after one forward level over `axes[0..i]`: each transformed axis keeps its
/// approximation and drops its detail band from the region still to be transformed.
pub open spec fn shrink_level(
    approx: Seq<usize>,
    region: Seq<usize>,
    axes: Seq<usize>,
    i: nat,
    per_mode: bool,
    width: int,
) -> (Seq<usize>, Seq<usize>)
    decreases i,
{
    if i == 0 {
        (approx, region)
    } else {
        let (a, r) = shrink_level(approx, region, axes, (i - 1) as nat, per_mode, width);
        let ax = axes[i - 1] as int;
        let (n_s, n_d) = band_lengths(per_mode, width, a[ax] as int);
        if n_s > 1 {
            (a.update(ax, n_s as usize), r.update(ax, sat_sub(r[ax] as int, n_d) as usize))
        } else {
            (a, r)
        }
    }
}

/// State of a forward plan after `lvl` levels.
pub open spec fn forward_levels(
    in_shape: Seq<usize>,
    out_shape: Seq<usize>,
    axes: Seq<usize>,
    lvl: nat,
    per_mode: bool,
    width: int,
) -> PlanState
    decreases lvl,
{
    if lvl == 0 {
        PlanState { approx: in_shape, region: out_shape, first: true, passes: Seq::empty() }
    } else {
        let st = forward_levels(in_shape, out_shape, axes, (lvl - 1) as nat, per_mode, width);
        let (st1, _sub) = forward_level(st, axes, axes.len(), per_mode, width);
        let (a, r) = shrink_level(st.approx, st.region, axes, axes.len(), per_mode, width);
        PlanState { approx: a, region: r, first: st1.first, passes: st1.passes }
    }
}

/// Passes of a `level`-level forward transform from an array of shape `in_shape` into one
/// of shape `out_shape` along `axes`; equal shapes select periodic band lengths.
pub open spec fn forward_plan(
    in_shape: Seq<usize>,
    out_shape: Seq<usize>,
    axes: Seq<usize>,
    level: nat,
    width: int,
) -> Seq<PassModel> {
    forward_levels(in_shape, out_shape, axes, level, in_shape == out_shape, width).passes
}

/// Whether two shapes are equal.
pub fn same_shape(a: &[usize], b: &[usize]) -> (r: bool)
    ensures
        r == (a@ == b@),
{
    if a.len() != b.len() {
        return false;
    }
    let mut k: usize = 0;
    while k < a.len()
        invariant
            k <= a@.len(),
            a@.len() == b@.len(),
            forall|j: int| 0 <= j < k ==> a@[j] == b@[j],
        decreases a@.len() - k,
    {
        if a[k] != b[k] {
            return false;
        }
        k += 1;
    }
    proof {
        assert(a@ =~= b@);
    }
    true
}

/// The passes of a `level`-level forward transform from an array of shape `in_shape` into
/// one of shape `out_shape` along `axes` (see [`forward_plan`]).
pub fn forward_passes(
    in_shape: &[usize],
    out_shape: &[usize],
    axes: &[usize],
    level: usize,
    width: usize,
) -> (r: Vec<LanePass>)
    requires
        in_shape@.len() == out_shape@.len(),
        forall|j: int| 0 <= j < axes@.len() ==> #[trigger] axes@[j] < in_shape@.len(),
        width >= 2,
    ensures
        models(r@) == forward_plan(in_shape@, out_shape@, axes@, level as nat, width as int),
{
    let per_mode = same_shape(in_shape, out_shape);
    let ghost pm = in_shape@ == out_shape@;
    let ghost w = width as int;
    let ndim = in_shape.len();
    let mut approx = copy_shape(in_shape);
    let mut region = copy_shape(out_shape);
    let mut first = true;
    let mut passes: Vec<LanePass> = Vec::new();
    let mut lvl: usize = 0;
    proof {
        assert(models(passes@) =~= Seq::<PassModel>::empty());
    }
    while lvl < level
        invariant
            lvl <= level,
            per_mode == pm,
            w == width,
            width >= 2,
            ndim == in_shape@.len(),
            forall|j: int| 0 <= j < axes@.len() ==> #[trigger] axes@[j] < ndim,
            approx@.len() == ndim,
            region@.len() == ndim,
            forward_levels(in_shape@, out_shape@, axes@, lvl as nat, pm, w) == (PlanState {
                approx: approx@,
                region: region@,
                first,
                passes: models(passes@),
            }),
        decreases level - lvl,
    {
        let ghost st0 = PlanState { approx: approx@, region: region@, first, passes: models(passes@) };
        let mut sub = copy_shape(approx.as_slice());
        let mut i: usize = 0;
        while i < axes.len()
            invariant
                i <= axes@.len(),
                per_mode == pm,
                w == width,
                width >= 2,
                forall|j: int| 0 <= j < axes@.len() ==> #[trigger] axes@[j] < ndim,
                approx@ == st0.approx,
                region@ == st0.region,
                approx@.len() == ndim,
                region@.len() == ndim,
                sub@.len() == ndim,
                forward_level(st0, axes@, i as nat, pm, w) == (PlanState {
                    approx: approx@,
                    region: region@,
                    first,
                    passes: models(passes@),
                }, sub@),
            decreases axes@.len() - i,
        {
            let ax = axes[i];
            let n = sub[ax];
            let (n_s, n_d) = band_lengths_exec(per_mode, width, n);
            sub.set(ax, region[ax]);
            if n_s > 1 {
                let pass = LanePass {
                    axis: ax,
                    sub_shape: copy_shape(sub.as_slice()),
                    n_samples: n,
                    n_s,
                    n_d,
                    from_input: first,
                };
                let ghost old_passes = passes@;
                passes.push(pass);
                proof {
                    assert(models(passes@) =~= models(old_passes).push(pass.model()));
                }
                first = false;
            }
            i += 1;
        }
        let mut i: usize = 0;
        while i < axes.len()
            invariant
                i <= axes@.len(),
                per_mode == pm,
                w == width,
                width >= 2,
                forall|j: int| 0 <= j < axes@.len() ==> #[trigger] axes@[j] < ndim,
                approx@.len() == ndim,
                region@.len() == ndim,
                shrink_level(st0.approx, st0.region, axes@, i as nat, pm, w) == (approx@, region@),
            decreases axes@.len() - i,
        {
            let ax = axes[i];
            let n = approx[ax];
            let (n_s, n_d) = band_lengths_exec(per_mode, width, n);
            if n_s > 1 {
                let r = region[ax];
                let shrunk = if r >= n_d {
                    r - n_d
                } else {
                    0
                };
                region.set(ax, shrunk);
                approx.set(ax, n_s);
            }
            i += 1;
        }
        lvl += 1;
    }
    passes
}

/// Result of running forward passes over `data` (shape `out_shape`); a pass from the input
/// reads the lanes of `input` (shape `in_shape`).
pub open spec fn run_forward<T>(
    f: BandSplit<T>,
    zero: T,
    input: Seq<T>,
    in_shape: Seq<usize>,
    data: Seq<T>,
    out_shape: Seq<usize>,
    passes: Seq<PassModel>,
) -> Seq<T>
    decreases passes.len(),
{
    if passes.len() == 0 {
        data
    } else {
        let prev = run_forward(f, zero, input, in_shape, data, out_shape, passes.drop_last());
        let p = passes.last();
        if p.from_input {
            forward_pass_from(
                f,
                zero,
                input,
                in_shape,
                prev,
                out_shape,
                p.sub,
                p.axis as int,
                p.n_samples as int,
                p.n_s,
                p.n_d,
            )
        } else {
            forward_pass(
                f,
                zero,
                prev,
                out_shape,
                p.sub,
                p.axis as int,
                p.n_samples as int,
                p.n_s,
                p.n_d,
            )
        }
    }
}

/// Multi-level N-D forward transform of `input` (shape `in_shape`) into `output` (shape
/// `out_shape`) along `axes`, with the 1-D kernel `func`: the passes of [`forward_plan`]
/// run in order, the first one reading the input and the others working in place on the
/// output; `zero` fills the gap between the bands of a lane.  The result is stated for
/// every band map the kernel computes ([`splits_by`]).
pub fn general_nd_forward_multilevel<T: Copy, F: Fn(&[T], usize, usize) -> (Vec<T>, Vec<T>)>(
    func: &F,
    zero: T,
    input: &[T],
    output: &mut [T],
    in_shape: &[usize],
    out_shape: &[usize],
    axes: &[usize],
    level: usize,
    width: usize,
)
    requires
        forward_kernel(*func),
        input@.len() == shape_prod(in_shape@),
        old(output)@.len() == shape_prod(out_shape@),
        in_shape@.len() == out_shape@.len(),
        forall|j: int| 0 <= j < axes@.len() ==> #[trigger] axes@[j] < in_shape@.len(),
        width >= 2,
    ensures
        final(output)@.len() == old(output)@.len(),
        forall|kk: BandSplit<T>| #[trigger] splits_by(*func, kk) ==> final(output)@ == run_forward(
 kk,
            zero,
            input@,
            in_shape@,
            old(output)@,
            out_shape@,
            forward_plan(in_shape@, out_shape@, axes@, level as nat, width as int),
        ),
{
    let passes = forward_passes(in_shape, out_shape, axes, level, width);
    let ghost plan = models(passes@);
    let mut k: usize = 0;
    proof {
        assert(plan.subrange(0, 0) =~= Seq::<PassModel>::empty());
    }
    while k < passes.len()
        invariant
            forward_kernel(*func),
            input@.len() == shape_prod(in_shape@),
            output@.len() == shape_prod(out_shape@),
            plan == models(passes@),
            k <= passes@.len(),
            forall|kk: BandSplit<T>| #[trigger] splits_by(*func, kk) ==> output@ == run_forward(
 kk,
                zero,
                input@,
                in_shape@,
                old(output)@,
                out_shape@,
                plan.subrange(0, k as int),
            ),
        decreases passes@.len() - k,
    {
        let p = &passes[k];
        let ghost prev = output@;
        if p.from_input {
            forward_lanes_into(
                func,
                zero,
                input,
                in_shape,
                output,
                out_shape,
                p.sub_shape.as_slice(),
                p.axis,
                p.n_samples,
                p.n_s,
                p.n_d,
            );
        } else {
            forward_lanes_in_place(
                func,
                zero,
                output,
                out_shape,
                p.sub_shape.as_slice(),
                p.axis,
                p.n_samples,
                p.n_s,
                p.n_d,
            );
        }
        proof {
            assert(plan.subrange(0, k + 1).drop_last() =~= plan.subrange(0, k as int));
            assert forall|kk: BandSplit<T>| #[trigger] splits_by(*func, kk) implies output@
                == run_forward(
                kk,
                zero,
                input@,
                in_shape@,
                old(output)@,
                out_shape@,
                plan.subrange(0, k + 1),
            ) by {
                assert(prev == run_forward(
                    kk,
                    zero,
                    input@,
                    in_shape@,
                    old(output)@,
                    out_shape@,
                    plan.subrange(0, k as int),
                ));
            }
        }
        k += 1;
    }
    proof {
        assert(plan.subrange(0, passes@.len() as int) =~= plan);
    }
}

/// Shapes of one inverse level over `axes[0..i]`: the approximation shape, the detail
/// shape and the region that the next (coarser) level reconstructs.
pub open spec fn inverse_level_shapes(
    ax_shape: Seq<usize>,
    region: Seq<usize>,
    axes: Seq<usize>,
    i: nat,
    per_mode: bool,
    width: int,
) -> (Seq<usize>, Seq<usize>, Seq<usize>)
    decreases i,
{
    if i == 0 {
        (ax_shape, ax_shape, region)
    } else {
        let (a, d, r) = inverse_level_shapes(ax_shape, region, axes, (i - 1) as nat, per_mode, width);
        let ax = axes[i - 1] as int;
        let (n_s, n_d) = band_lengths(per_mode, width, a[ax] as int);
        if n_s > 1 {
            (
                a.update(ax, n_s as usize),
                d.update(ax, n_d as usize),
                r.update(ax, sat_sub(r[ax] as int, n_d) as usize),
            )
        } else {
            (a, d, r)
        }
    }
}

/// Signal shape and coefficient region of inverse level `l`.
pub open spec fn inverse_level_state(
    in_shape: Seq<usize>,
    out_shape: Seq<usize>,
    axes: Seq<usize>,
    l: nat,
    per_mode: bool,
    width: int,
) -> (Seq<usize>, Seq<usize>)
    decreases l,
{
    if l == 0 {
        (out_shape, in_shape)
    } else {
        let (s, r) = inverse_level_state(in_shape, out_shape, axes, (l - 1) as nat, per_mode, width);
        let (a, _d, r2) = inverse_level_shapes(s, r, axes, axes.len(), per_mode, width);
        (a, r2)
    }
}

/// Passes of one inverse level over `axes[0..i]` and the region the next axis sees: each
/// axis whose approximation shape exceeds one takes the lanes of the current region, whose
/// length along that axis then becomes the signal length.
pub open spec fn inverse_level_passes(
    ax_shape: Seq<usize>,
    region: Seq<usize>,
    approx: Seq<usize>,
    detail: Seq<usize>,
    axes: Seq<usize>,
    i: nat,
) -> (Seq<PassModel>, Seq<usize>)
    decreases i,
{
    if i == 0 {
        (Seq::empty(), region)
    } else {
        let (ps, sub) = inverse_level_passes(ax_shape, region, approx, detail, axes, (i - 1) as nat);
        let ax = axes[i - 1] as int;
        if approx[ax] > 1 {
            (
                ps.push(
                    PassModel {
                        axis: ax as usize,
                        sub,
                        n_samples: ax_shape[ax],
                        n_s: approx[ax],
                        n_d: detail[ax],
                        from_input: false,
                    },
                ),
                sub.update(ax, ax_shape[ax]),
            )
        } else {
            (ps, sub)
        }
    }
}

/// Passes of levels `lvl - 1` down to `0` of an inverse transform.
pub open spec fn inverse_plan_levels(
    in_shape: Seq<usize>,
    out_shape: Seq<usize>,
    axes: Seq<usize>,
    lvl: nat,
    per_mode: bool,
    width: int,
) -> Seq<PassModel>
    decreases lvl,
{
    if lvl == 0 {
        Seq::empty()
    } else {
        let l = (lvl - 1) as nat;
        let (s, r) = inverse_level_state(in_shape, out_shape, axes, l, per_mode, width);
        let (a, d, _r2) = inverse_level_shapes(s, r, axes, axes.len(), per_mode, width);
        inverse_level_passes(s, r, a, d, axes, axes.len()).0 + inverse_plan_levels(
            in_shape,
            out_shape,
            axes,
            l,
            per_mode,
            width,
        )
    }
}

/// Passes of a `level`-level inverse transform from coefficients of shape `in_shape` to a
/// signal of shape `out_shape` along `axes`, coarsest level first; equal shapes select
/// periodic band lengths.
pub open spec fn inverse_plan(
    in_shape: Seq<usize>,
    out_shape: Seq<usize>,
    axes: Seq<usize>,
    level: nat,
    width: int,
) -> Seq<PassModel> {
    inverse_plan_levels(in_shape, out_shape, axes, level, in_shape == out_shape, width)
}

/// Shapes of one inverse level (see [`inverse_level_shapes`]).
fn inverse_shapes_exec(
    ax_shape: &[usize],
    region: &[usize],
    axes: &[usize],
    per_mode: bool,
    width: usize,
) -> (r: (Vec<usize>, Vec<usize>, Vec<usize>))
    requires
        ax_shape@.len() == region@.len(),
        forall|j: int| 0 <= j < axes@.len() ==> #[trigger] axes@[j] < ax_shape@.len(),
        width >= 2,
    ensures
        (r.0@, r.1@, r.2@) == inverse_level_shapes(
            ax_shape@,
            region@,
            axes@,
            axes@.len(),
            per_mode,
            width as int,
        ),
        r.0@.len() == ax_shape@.len(),
        r.1@.len() == ax_shape@.len(),
        r.2@.len() == ax_shape@.len(),
{
    let mut a = copy_shape(ax_shape);
    let mut d = copy_shape(ax_shape);
    let mut r = copy_shape(region);
    let mut i: usize = 0;
    while i < axes.len()
        invariant
            i <= axes@.len(),
            width >= 2,
            ax_shape@.len() == region@.len(),
            forall|j: int| 0 <= j < axes@.len() ==> #[trigger] axes@[j] < ax_shape@.len(),
            a@.len() == ax_shape@.len(),
            d@.len() == ax_shape@.len(),
            r@.len() == ax_shape@.len(),
            (a@, d@, r@) == inverse_level_shapes(
                ax_shape@,
                region@,
                axes@,
                i as nat,
                per_mode,
                width as int,
            ),
        decreases axes@.len() - i,
    {
        let ax = axes[i];
        let (n_s, n_d) = band_lengths_exec(per_mode, width, a[ax]);
        if n_s > 1 {
            let x = r[ax];
            let shrunk = if x >= n_d {
                x - n_d
            } else {
                0
            };
            a.set(ax, n_s);
            d.set(ax, n_d);
            r.set(ax, shrunk);
        }
        i += 1;
    }
    (a, d, r)
}

/// Signal shape and coefficient region of inverse level `l` (see
/// [`inverse_level_state`]).
fn inverse_state_exec(
    in_shape: &[usize],
    out_shape: &[usize],
    axes: &[usize],
    l: usize,
    per_mode: bool,
    width: usize,
) -> (r: (Vec<usize>, Vec<usize>))
    requires
        in_shape@.len() == out_shape@.len(),
        forall|j: int| 0 <= j < axes@.len() ==> #[trigger] axes@[j] < in_shape@.len(),
        width >= 2,
    ensures
        (r.0@, r.1@) == inverse_level_state(
            in_shape@,
            out_shape@,
            axes@,
            l as nat,
            per_mode,
            width as int,
        ),
        r.0@.len() == in_shape@.len(),
        r.1@.len() == in_shape@.len(),
{
    let mut s = copy_shape(out_shape);
    let mut r = copy_shape(in_shape);
    let mut k: usize = 0;
    while k < l
        invariant
            k <= l,
            width >= 2,
            in_shape@.len() == out_shape@.len(),
            forall|j: int| 0 <= j < axes@.len() ==> #[trigger] axes@[j] < in_shape@.len(),
            s@.len() == in_shape@.len(),
            r@.len() == in_shape@.len(),
            (s@, r@) == inverse_level_state(
                in_shape@,
                out_shape@,
                axes@,
                k as nat,
                per_mode,
                width as int,
            ),
        decreases l - k,
    {
        let (a, _d, r2) = inverse_shapes_exec(s.as_slice(), r.as_slice(), axes, per_mode, width);
        s = a;
        r = r2;
        k += 1;
    }
    (s, r)
}

/// The passes of a `level`-level inverse transform from coefficients of shape `in_shape`
/// to a signal of shape `out_shape` along `axes` (see [`inverse_plan`]).
pub fn inverse_passes(
    in_shape: &[usize],
    out_shape: &[usize],
    axes: &[usize],
    level: usize,
    width: usize,
) -> (r: Vec<LanePass>)
    requires
        in_shape@.len() == out_shape@.len(),
        forall|j: int| 0 <= j < axes@.len() ==> #[trigger] axes@[j] < in_shape@.len(),
        width >= 2,
    ensures
        models(r@) == inverse_plan(in_shape@, out_shape@, axes@, level as nat, width as int),
{
    let per_mode = same_shape(in_shape, out_shape);
    let ghost pm = in_shape@ == out_shape@;
    let ghost w = width as int;
    let ndim = in_shape.len();
    let mut passes: Vec<LanePass> = Vec::new();
    let mut lvl = level;
    proof {
        assert(models(passes@) + inverse_plan_levels(in_shape@, out_shape@, axes@, lvl as nat, pm, w)
            =~= inverse_plan_levels(in_shape@, out_shape@, axes@, level as nat, pm, w));
    }
    while lvl > 0
        invariant
            lvl <= level,
            per_mode == pm,
            w == width,
            width >= 2,
            ndim == in_shape@.len(),
            in_shape@.len() == out_shape@.len(),
            forall|j: int| 0 <= j < axes@.len() ==> #[trigger] axes@[j] < ndim,
            models(passes@) + inverse_plan_levels(in_shape@, out_shape@, axes@, lvl as nat, pm, w)
                == inverse_plan_levels(in_shape@, out_shape@, axes@, level as nat, pm, w),
        decreases lvl,
    {
        lvl -= 1;
        let (ax_shape, region) = inverse_state_exec(in_shape, out_shape, axes, lvl, per_mode, width);
        let (approx, detail, _next) = inverse_shapes_exec(
            ax_shape.as_slice(),
            region.as_slice(),
            axes,
            per_mode,
            width,
        );
        let ghost before = models(passes@);
        let mut sub = copy_shape(region.as_slice());
        let mut i: usize = 0;
        proof {
            assert(models(passes@) =~= before + Seq::<PassModel>::empty());
        }
        while i < axes.len()
            invariant
                i <= axes@.len(),
                forall|j: int| 0 <= j < axes@.len() ==> #[trigger] axes@[j] < ndim,
                ax_shape@.len() == ndim,
                approx@.len() == ndim,
                detail@.len() == ndim,
                sub@.len() == ndim,
                ({
                    let (ps, sb) = inverse_level_passes(
                        ax_shape@,
                        region@,
                        approx@,
                        detail@,
                        axes@,
                        i as nat,
                    );
                    models(passes@) == before + ps && sub@ == sb
                }),
            decreases axes@.len() - i,
        {
            let ax = axes[i];
            if approx[ax] > 1 {
                let pass = LanePass {
                    axis: ax,
                    sub_shape: copy_shape(sub.as_slice()),
                    n_samples: ax_shape[ax],
                    n_s: approx[ax],
                    n_d: detail[ax],
                    from_input: false,
                };
                let ghost old_passes = passes@;
                passes.push(pass);
                proof {
                    let (ps, sb) = inverse_level_passes(
                        ax_shape@,
                        region@,
                        approx@,
                        detail@,
                        axes@,
                        i as nat,
                    );
                    assert(models(passes@) =~= models(old_passes).push(pass.model()));
                    assert(before + ps.push(pass.model()) =~= (before + ps).push(pass.model()));
                }
                sub.set(ax, ax_shape[ax]);
            }
            i += 1;
        }
        proof {
            let (ps, sb) = inverse_level_passes(
                ax_shape@,
                region@,
                approx@,
                detail@,
                axes@,
                axes@.len(),
            );
            let rest = inverse_plan_levels(in_shape@, out_shape@, axes@, lvl as nat, pm, w);
            assert(inverse_plan_levels(in_shape@, out_shape@, axes@, (lvl + 1) as nat, pm, w)
                == ps + rest);
            assert((before + ps) + rest =~= before + (ps + rest));
        }
    }
    proof {
        assert(models(passes@) + Seq::<PassModel>::empty() =~= models(passes@));
    }
    passes
}

/// Result of running inverse passes over `data` (shape `shape`).
pub open spec fn run_inverse<T>(
    g: BandJoin<T>,
    data: Seq<T>,
    shape: Seq<usize>,
    passes: Seq<PassModel>,
) -> Seq<T>
    decreases passes.len(),
{
    if passes.len() == 0 {
        data
    } else {
        let prev = run_inverse(g, data, shape, passes.drop_last());
        let p = passes.last();
        inverse_pass(g, prev, shape, p.sub, p.axis as int, p.n_s as int, p.n_d as int, p.n_samples)
    }
}

/// The axis with the smallest stride of a row-major array of shape `shape` (the last one).
pub open spec fn min_stride_axis(shape: Seq<usize>) -> int {
    if shape.len() > 0 {
        shape.len() - 1
    } else {
        0
    }
}

/// Run the inverse passes `passes` over `data` (shape `shape`).
fn run_inverse_passes<T: Copy, G: Fn(&[T], &[T], usize) -> Vec<T>>(
    func: &G,
    data: &mut [T],
    shape: &[usize],
    passes: &Vec<LanePass>,
)
    requires
        inverse_kernel(*func),
        old(data)@.len() == shape_prod(shape@),
    ensures
        final(data)@.len() == old(data)@.len(),
        forall|kk: BandJoin<T>| #[trigger] joins_by(*func, kk) ==> final(data)@ == run_inverse(
 kk, old(data)@, shape@, models(passes@)),
{
    let ghost plan = models(passes@);
    let mut k: usize = 0;
    proof {
        assert(plan.subrange(0, 0) =~= Seq::<PassModel>::empty());
    }
    while k < passes.len()
        invariant
            inverse_kernel(*func),
            data@.len() == shape_prod(shape@),
            plan == models(passes@),
            k <= passes@.len(),
            forall|kk: BandJoin<T>| #[trigger] joins_by(*func, kk) ==> data@ == run_inverse(
 kk, old(data)@, shape@, plan.subrange(0, k as int)),
        decreases passes@.len() - k,
    {
        let p = &passes[k];
        let ghost prev = data@;
        inverse_lanes_in_place(
            func,
            data,
            shape,
            p.sub_shape.as_slice(),
            p.axis,
            p.n_s,
            p.n_d,
            p.n_samples,
        );
        proof {
            assert(plan.subrange(0, k + 1).drop_last() =~= plan.subrange(0, k as int));
            assert forall|kk: BandJoin<T>| #[trigger] joins_by(*func, kk) implies data@
                == run_inverse(kk, old(data)@, shape@, plan.subrange(0, k + 1)) by {
                assert(prev == run_inverse(kk, old(data)@, shape@, plan.subrange(0, k as int)));
            }
        }
        k += 1;
    }
    proof {
        assert(plan.subrange(0, passes@.len() as int) =~= plan);
    }
}

/// Multi-level N-D inverse transform of the coefficients in `inwork` (shape `in_shape`)
/// into `output` (shape `out_shape`) along `axes`, with the 1-D kernel `func`.  In
/// periodic mode (equal shapes) the coefficients are first copied to the output and the
/// passes of [`inverse_plan`] run there, leaving `inwork` as it is; otherwise the passes
/// run in place on `inwork` and the signal is then copied out of its leading region.
/// The result is stated for every sample map the kernel computes ([`joins_by`]).
pub fn general_nd_inverse_multilevel<T: Copy, G: Fn(&[T], &[T], usize) -> Vec<T>>(
    func: &G,
    inwork: &mut [T],
    output: &mut [T],
    in_shape: &[usize],
    out_shape: &[usize],
    axes: &[usize],
    level: usize,
    width: usize,
)
    requires
        inverse_kernel(*func),
        old(inwork)@.len() == shape_prod(in_shape@),
        old(output)@.len() == shape_prod(out_shape@),
        in_shape@.len() == out_shape@.len(),
        forall|j: int| 0 <= j < axes@.len() ==> #[trigger] axes@[j] < in_shape@.len(),
        width >= 2,
    ensures
        final(output)@.len() == old(output)@.len(),
        final(inwork)@.len() == old(inwork)@.len(),
        ({
            let plan = inverse_plan(in_shape@, out_shape@, axes@, level as nat, width as int);
            let ax = min_stride_axis(out_shape@);
            if in_shape@ == out_shape@ {
                &&& final(inwork)@ == old(inwork)@
                &&& forall|kk: BandJoin<T>| #[trigger] joins_by(*func, kk) ==> final(output)@ == run_inverse(
 kk,
                    copy_region(old(inwork)@, in_shape@, old(output)@, out_shape@, ax),
                    out_shape@,
                    plan,
                )
            } else {
                &&& forall|kk: BandJoin<T>| #[trigger] joins_by(*func, kk) ==> final(inwork)@ == run_inverse(
 kk, old(inwork)@, in_shape@, plan)
                &&& final(output)@ == copy_region(
                    final(inwork)@,
                    in_shape@,
                    old(output)@,
                    out_shape@,
                    ax,
                )
            }
        }),
{
    let per_mode = same_shape(in_shape, out_shape);
    let passes = inverse_passes(in_shape, out_shape, axes, level, width);
    let min_axis = if out_shape.len() > 0 {
        out_shape.len() - 1
    } else {
        0
    };
    if per_mode {
        copy_region_into(inwork, in_shape, output, out_shape, min_axis);
        run_inverse_passes(func, output, out_shape, &passes);
    } else {
        run_inverse_passes(func, inwork, in_shape, &passes);
        copy_region_into(inwork, in_shape, output, out_shape, min_axis);
    }
}

// ---------------------------------------------------------------------------------------
// Periodic reconstruction along one axis
// ---------------------------------------------------------------------------------------
/// Sample map `g` undoes band map `f` in periodic mode: asked for the halves of any samples (the approximation
/// taking the odd one), `f` gives bands of those lengths and `g` rebuilds the samples.
pub open spec fn periodic_inverse<T>(f: BandSplit<T>, g: BandJoin<T>) -> bool {
    forall|x: Seq<T>, n_s: usize, n_d: usize|
        n_d == x.len() / 2 && n_s + n_d == x.len() ==> {
            let (s, d) = #[trigger] f(x, n_s, n_d);
            &&& s.len() == n_s
            &&& d.len() == n_d
            &&& g(s, d, (n_s + n_d) as usize) == x
        }
}

/// The lane a periodic forward pass makes of lane values `v`: its bands, stacked.
pub open spec fn forward_lane<T>(
    f: BandSplit<T>,
    zero: T,
    v: Seq<T>,
    n_in: int,
    n_s: usize,
    n_d: usize,
    len: int,
) -> Seq<T> {
    let (b_s, b_d) = f(v.subrange(0, n_in), n_s, n_d);
    stacked(b_s, b_d, len, zero)
}

/// The samples a periodic inverse pass makes of lane values `v`.
pub open spec fn inverse_lane<T>(
    g: BandJoin<T>,
    v: Seq<T>,
    n_s: int,
    n_d: int,
    n_out: usize,
    len: int,
) -> Seq<T> {
    g(v.subrange(0, n_s), v.subrange(len - n_d, len), n_out)
}

pub(crate) proof fn lemma_forward_lanes_map<T>(
    f: BandSplit<T>,
    zero: T,
    data: Seq<T>,
    l: LaneLayout,
    n_in: int,
    n_s: usize,
    n_d: usize,
    j: nat,
)
    ensures
        forward_lanes(f, zero, data, l, n_in, n_s, n_d, j) == map_lanes(
            data,
            l,
            |v: Seq<T>| forward_lane(f, zero, v, n_in, n_s, n_d, l.lane_length),
            j,
        ),
    decreases j,
{
    if j > 0 {
        lemma_forward_lanes_map(f, zero, data, l, n_in, n_s, n_d, (j - 1) as nat);
    }
}

proof fn lemma_forward_lanes_from_map<T>(
    f: BandSplit<T>,
    zero: T,
    src: Seq<T>,
    dst: Seq<T>,
    l: LaneLayout,
    n_in: int,
    n_s: usize,
    n_d: usize,
    j: nat,
)
    ensures
        forward_lanes_from(f, zero, src, l, dst, l, n_in, n_s, n_d, j) == map_lanes_from(
            src,
            dst,
            l,
            |v: Seq<T>| forward_lane(f, zero, v, n_in, n_s, n_d, l.lane_length),
            j,
        ),
    decreases j,
{
    if j > 0 {
        lemma_forward_lanes_from_map(f, zero, src, dst, l, n_in, n_s, n_d, (j - 1) as nat);
    }
}

proof fn lemma_inverse_lanes_map<T>(
    g: BandJoin<T>,
    data: Seq<T>,
    l: LaneLayout,
    n_s: int,
    n_d: int,
    n_out: usize,
    j: nat,
)
    ensures
        inverse_lanes(g, data, l, n_s, n_d, n_out, j) == map_lanes(
            data,
            l,
            |v: Seq<T>| inverse_lane(g, v, n_s, n_d, n_out, l.lane_length),
            j,
        ),
    decreases j,
{
    if j > 0 {
        lemma_inverse_lanes_map(g, data, l, n_s, n_d, n_out, (j - 1) as nat);
    }
}

/// A periodic inverse lane step undoes the forward one on a lane of `n_s + n_d` samples.
proof fn lemma_periodic_lane<T>(f: BandSplit<T>, g: BandJoin<T>, zero: T, v: Seq<T>, n_s: usize, n_d: usize)
    requires
        periodic_inverse(f, g),
        v.len() == n_s + n_d,
        n_d == v.len() / 2,
    ensures
        forward_lane(f, zero, v, v.len() as int, n_s, n_d, v.len() as int).len() == v.len(),
        inverse_lane(
            g,
            forward_lane(f, zero, v, v.len() as int, n_s, n_d, v.len() as int),
            n_s as int,
            n_d as int,
            (n_s + n_d) as usize,
            v.len() as int,
        ) == v,
{
    let n = v.len() as int;
    assert(v.subrange(0, n) =~= v);
    let (b_s, b_d) = f(v, n_s, n_d);
    let w = stacked(b_s, b_d, n, zero);
    assert(Seq::new((n - b_s.len() - b_d.len()) as nat, |i: int| zero) =~= Seq::<T>::empty());
    assert(w =~= b_s + b_d);
    assert(w.subrange(0, n_s as int) =~= b_s);
    assert(w.subrange(n - n_d, n) =~= b_d);
}

/// A periodic inverse pass undoes a periodic forward pass over the same region, when the
/// lanes hold exactly the two halves and the kernels invert each other.
pub proof fn lemma_periodic_pass<T>(
    f: BandSplit<T>,
    g: BandJoin<T>,
    zero: T,
    data: Seq<T>,
    shape: Seq<usize>,
    sub: Seq<usize>,
    axis: int,
    n_s: usize,
    n_d: usize,
)
    requires
        periodic_inverse(f, g),
        data.len() == shape_prod(shape),
        0 <= axis < sub.len(),
        n_s + n_d == sub[axis],
        n_d == sub[axis] / 2,
    ensures
        inverse_pass(
            g,
            forward_pass(f, zero, data, shape, sub, axis, sub[axis] as int, n_s, n_d),
            shape,
            sub,
            axis,
            n_s as int,
            n_d as int,
            sub[axis],
        ) == data,
{
    if sub_lanes_ok(shape, sub, axis) {
        let l = sub_lane_layout(shape, sub, axis);
        let n = shape_prod(sub.remove(axis));
        let len = sub[axis] as int;
        lemma_sub_lanes_nonempty(shape, sub, axis);
        lemma_sub_lanes_apart(shape, sub, axis);
        let hf = |v: Seq<T>| forward_lane(f, zero, v, len, n_s, n_d, l.lane_length);
        let hg = |v: Seq<T>| inverse_lane(g, v, n_s as int, n_d as int, sub[axis], l.lane_length);
        assert(l.lane_length == len);
        assert forall|k: int| 0 <= k < n implies #[trigger] hf(lane_of(l, k).read(data)).len()
            == l.lane_length by {
            lemma_periodic_lane(f, g, zero, lane_of(l, k).read(data), n_s, n_d);
        }
        lemma_forward_lanes_map(f, zero, data, l, len, n_s, n_d, n as nat);
        lemma_map_lanes(data, l, hf, n as nat);
        let d1 = map_lanes(data, l, hf, n as nat);
        assert forall|k: int| 0 <= k < n implies #[trigger] lane_of(l, k).read(d1) == hf(
            lane_of(l, k).read(data),
        ) by {
            lemma_periodic_lane(f, g, zero, lane_of(l, k).read(data), n_s, n_d);
            assert(lane_of(l, k).read(d1) =~= hf(lane_of(l, k).read(data)));
        }
        assert forall|k: int| 0 <= k < n implies #[trigger] hg(lane_of(l, k).read(d1)).len()
            == l.lane_length by {
            lemma_periodic_lane(f, g, zero, lane_of(l, k).read(data), n_s, n_d);
        }
        lemma_inverse_lanes_map(g, d1, l, n_s as int, n_d as int, sub[axis], n as nat);
        lemma_map_lanes(d1, l, hg, n as nat);
        let d2 = map_lanes(d1, l, hg, n as nat);
        assert forall|p: int| 0 <= p < data.len() implies d2[p] == data[p] by {
            if in_lanes(l, n, p) {
                let (k, i) = choose|k: int, i: int|
                    0 <= k < n && 0 <= i < l.lane_length && #[trigger] lane_of(l, k).index_of(i)
                        == p;
                lemma_periodic_lane(f, g, zero, lane_of(l, k).read(data), n_s, n_d);
                assert(d2[lane_of(l, k).index_of(i)] == hg(lane_of(l, k).read(d1))[i]);
            }
        }
        assert(d2 =~= data);
    }
}

/// A forward pass from the input over the whole array, pairing each input lane with the
/// same output lane, is the same pass made in place on the input.
pub(crate) proof fn lemma_forward_from_whole<T>(
    f: BandSplit<T>,
    g: BandJoin<T>,
    zero: T,
    src: Seq<T>,
    dst: Seq<T>,
    shape: Seq<usize>,
    axis: int,
    n_s: usize,
    n_d: usize,
)
    requires
        periodic_inverse(f, g),
        lanes_ok(shape, axis),
        src.len() == shape_prod(shape),
        dst.len() == shape_prod(shape),
        n_s + n_d == shape[axis],
        n_d == shape[axis] / 2,
    ensures
        forward_pass_from(f, zero, src, shape, dst, shape, shape, axis, shape[axis] as int, n_s, n_d)
            == forward_pass(f, zero, src, shape, shape, axis, shape[axis] as int, n_s, n_d),
{
    assert(sub_lanes_ok(shape, shape, axis));
    let l = sub_lane_layout(shape, shape, axis);
    assert(l == lane_layout(shape, axis));
    let n = shape_prod(shape.remove(axis));
    let len = shape[axis] as int;
    lemma_sub_lanes_nonempty(shape, shape, axis);
    lemma_sub_lanes_apart(shape, shape, axis);
    let hf = |v: Seq<T>| forward_lane(f, zero, v, len, n_s, n_d, l.lane_length);
    assert forall|k: int| 0 <= k < n implies #[trigger] hf(lane_of(l, k).read(src)).len()
        == l.lane_length by {
        lemma_periodic_lane(f, g, zero, lane_of(l, k).read(src), n_s, n_d);
    }
    lemma_forward_lanes_map(f, zero, src, l, len, n_s, n_d, n as nat);
    lemma_forward_lanes_from_map(f, zero, src, dst, l, len, n_s, n_d, n as nat);
    lemma_map_lanes(src, l, hf, n as nat);
    lemma_map_lanes_from(src, dst, l, hf, n as nat);
    let a = map_lanes_from(src, dst, l, hf, n as nat);
    let b = map_lanes(src, l, hf, n as nat);
    assert forall|p: int| 0 <= p < src.len() implies a[p] == b[p] by {
        lemma_sub_lanes_cover(shape, axis, p);
        let (k, i) = choose|k: int, i: int|
            0 <= k < n && 0 <= i < shape[axis] && #[trigger] lane_of(l, k).index_of(i) == p;
        assert(a[lane_of(l, k).index_of(i)] == hf(lane_of(l, k).read(src))[i]);
        assert(b[lane_of(l, k).index_of(i)] == hf(lane_of(l, k).read(src))[i]);
    }
    assert(a =~= b);
}

/// What stays true of the first `lvl` periodic levels along one axis: the approximation
/// and the region agree, the inverse plan sees the same shapes, the first-pass flag says
/// whether no pass was made, and before the first pass the shape is untouched and, past
/// level zero, too short to split.
proof fn lemma_periodic_levels(shape: Seq<usize>, axis: usize, width: int, lvl: nat)
    requires
        axis < shape.len(),
    ensures
        ({
            let st = forward_levels(shape, shape, seq![axis], lvl, true, width);
            &&& st.approx == st.region
            &&& st.approx.len() == shape.len()
            &&& st.first == (st.passes.len() == 0)
            &&& st.passes.len() == 0 ==> st.approx == shape && (lvl == 0 || band_lengths(
                true,
                width,
                shape[axis as int] as int,
            ).0 <= 1)
            &&& inverse_level_state(shape, shape, seq![axis], lvl, true, width) == (
                st.approx,
                st.region,
            )
        }),
    decreases lvl,
{
    if lvl > 0 {
        let m = (lvl - 1) as nat;
        lemma_periodic_levels(shape, axis, width, m);
        let axes = seq![axis];
        let st = forward_levels(shape, shape, axes, m, true, width);
        let a = axis as int;
        let n = st.approx[a] as int;
        let (b_s, b_d) = band_lengths(true, width, n);
        assert(forward_level(st, axes, 0, true, width) == (st, st.approx));
        assert(shrink_level(st.approx, st.region, axes, 0, true, width) == (st.approx, st.region));
        assert(inverse_level_shapes(st.approx, st.region, axes, 0, true, width) == (
            st.approx,
            st.approx,
            st.region,
        ));
        let (a1, r1) = shrink_level(st.approx, st.region, axes, 1, true, width);
        let (ia, id, ir) = inverse_level_shapes(st.approx, st.region, axes, 1, true, width);
        assert(a1 == ia && r1 == ir);
    }
}

pub(crate) proof fn lemma_run_inverse_prepend<T>(
    g: BandJoin<T>,
    data: Seq<T>,
    shape: Seq<usize>,
    q: PassModel,
    rest: Seq<PassModel>,
)
    ensures
        run_inverse(g, data, shape, seq![q] + rest) == run_inverse(
            g,
            inverse_pass(g, data, shape, q.sub, q.axis as int, q.n_s as int, q.n_d as int, q.n_samples),
            shape,
            rest,
        ),
    decreases rest.len(),
{
    let all = seq![q] + rest;
    if rest.len() == 0 {
        assert(all =~= seq![q]);
        assert(all.drop_last() =~= Seq::<PassModel>::empty());
        assert(all.last() == q);
        assert(run_inverse(g, data, shape, all.drop_last()) == data);
    } else {
        lemma_run_inverse_prepend(g, data, shape, q, rest.drop_last());
        assert(all.drop_last() =~= seq![q] + rest.drop_last());
        assert(all.last() == rest.last());
    }
}

pub(crate) proof fn lemma_run_forward_len<T>(
    f: BandSplit<T>,
    zero: T,
    input: Seq<T>,
    data: Seq<T>,
    shape: Seq<usize>,
    passes: Seq<PassModel>,
)
    ensures
        run_forward(f, zero, input, shape, data, shape, passes).len() == data.len(),
    decreases passes.len(),
{
    if passes.len() > 0 {
        lemma_run_forward_len(f, zero, input, data, shape, passes.drop_last());
        let prev = run_forward(f, zero, input, shape, data, shape, passes.drop_last());
        let p = passes.last();
        lemma_forward_lanes_len(
            f,
            zero,
            prev,
            sub_lane_layout(shape, p.sub, p.axis as int),
            p.n_samples as int,
            p.n_s,
            p.n_d,
            shape_prod(p.sub.remove(p.axis as int)) as nat,
        );
        let n_src = shape_prod(shape.remove(p.axis as int));
        let n_dst = shape_prod(p.sub.remove(p.axis as int));
        let n_pairs: nat = if n_src <= n_dst {
            n_src as nat
        } else {
            n_dst as nat
        };
        lemma_forward_lanes_from_len(
            f,
            zero,
            input,
            lane_layout(shape, p.axis as int),
            prev,
            sub_lane_layout(shape, p.sub, p.axis as int),
            p.n_samples as int,
            p.n_s,
            p.n_d,
            n_pairs,
        );
    }
}

proof fn lemma_forward_lanes_len<T>(
    f: BandSplit<T>,
    zero: T,
    data: Seq<T>,
    l: LaneLayout,
    n_in: int,
    n_s: usize,
    n_d: usize,
    j: nat,
)
    ensures
        forward_lanes(f, zero, data, l, n_in, n_s, n_d, j).len() == data.len(),
    decreases j,
{
    if j > 0 {
        lemma_forward_lanes_len(f, zero, data, l, n_in, n_s, n_d, (j - 1) as nat);
    }
}

proof fn lemma_forward_lanes_from_len<T>(
    f: BandSplit<T>,
    zero: T,
    src: Seq<T>,
    ls: LaneLayout,
    dst: Seq<T>,
    ld: LaneLayout,
    n_in: int,
    n_s: usize,
    n_d: usize,
    j: nat,
)
    ensures
        forward_lanes_from(f, zero, src, ls, dst, ld, n_in, n_s, n_d, j).len() == dst.len(),
    decreases j,
{
    if j > 0 {
        lemma_forward_lanes_from_len(f, zero, src, ls, dst, ld, n_in, n_s, n_d, (j - 1) as nat);
    }
}

/// Along a single axis in periodic mode, `lvl` forward levels followed by the inverse
/// levels reconstruct the input, once at least one pass was made.
proof fn lemma_periodic_round_trip_levels<T>(
    f: BandSplit<T>,
    g: BandJoin<T>,
    zero: T,
    x: Seq<T>,
    out: Seq<T>,
    shape: Seq<usize>,
    axis: usize,
    width: int,
    lvl: nat,
)
    requires
        periodic_inverse(f, g),
        x.len() == shape_prod(shape),
        out.len() == x.len(),
        0 < x.len() <= usize::MAX,
        axis < shape.len(),
        forward_plan(shape, shape, seq![axis], lvl, width).len() > 0,
    ensures
        run_inverse(
            g,
            run_forward(f, zero, x, shape, out, shape, forward_plan(shape, shape, seq![axis], lvl, width)),
            shape,
            inverse_plan(shape, shape, seq![axis], lvl, width),
        ) == x,
    decreases lvl,
{
    let axes = seq![axis];
    let a = axis as int;
    let m = (lvl - 1) as nat;
    lemma_periodic_levels(shape, axis, width, m);
    let st = forward_levels(shape, shape, axes, m, true, width);
    let n = st.approx[a] as int;
    let (b_s, b_d) = band_lengths(true, width, n);
    assert(forward_level(st, axes, 0, true, width) == (st, st.approx));
    assert(inverse_level_shapes(st.approx, st.region, axes, 0, true, width) == (
        st.approx,
        st.approx,
        st.region,
    ));
    let (ia, id, ir) = inverse_level_shapes(st.approx, st.region, axes, 1, true, width);
    assert(inverse_level_passes(st.approx, st.region, ia, id, axes, 0) == (
        Seq::<PassModel>::empty(),
        st.region,
    ));
    let lpi = inverse_level_passes(st.approx, st.region, ia, id, axes, 1).0;
    let iprev = inverse_plan_levels(shape, shape, axes, m, true, width);
    assert(inverse_plan(shape, shape, axes, lvl, width) == lpi + iprev);
    let fplan = forward_plan(shape, shape, axes, lvl, width);
    let fprev = st.passes;
    lemma_lanes_ok_from_len(shape, a);
    if b_s > 1 {
        let p = PassModel {
            axis,
            sub: st.approx,
            n_samples: n as usize,
            n_s: b_s as usize,
            n_d: b_d as usize,
            from_input: st.first,
        };
        assert(st.approx.update(a, st.region[a]) =~= st.approx);
        assert(fplan == fprev.push(p));
        assert(fplan.drop_last() =~= fprev);
        assert(fplan.last() == p);
        let q = lpi[0];
        assert(lpi =~= seq![q]);
        assert(q.sub == st.approx && q.n_samples == n && q.n_s == b_s && q.n_d == b_d);
        let coefs = run_forward(f, zero, x, shape, out, shape, fplan);
        lemma_run_inverse_prepend(g, coefs, shape, q, iprev);
        if st.first {
            assert(st.approx == shape);
            assert(m == 0);
            assert(iprev.len() == 0);
            assert(run_forward(f, zero, x, shape, out, shape, fprev) == out);
            lemma_forward_from_whole(f, g, zero, x, out, shape, a, b_s as usize, b_d as usize);
            lemma_periodic_pass(f, g, zero, x, shape, shape, a, b_s as usize, b_d as usize);
        } else {
            let prev = run_forward(f, zero, x, shape, out, shape, fprev);
            lemma_run_forward_len(f, zero, x, out, shape, fprev);
            lemma_periodic_pass(f, g, zero, prev, shape, st.approx, a, b_s as usize, b_d as usize);
            lemma_periodic_round_trip_levels(f, g, zero, x, out, shape, axis, width, m);
        }
    } else {
        assert(fplan == fprev);
        let coefs = run_forward(f, zero, x, shape, out, shape, fplan);
        if lpi.len() == 0 {
            assert(lpi + iprev =~= iprev);
        } else {
            let q = lpi[0];
            assert(lpi =~= seq![q]);
            assert(q.n_s == n && q.n_d == n && q.sub == st.region);
            assert(!pass_fits(shape, q.sub, a, q.n_s + q.n_d, q.n_samples as int));
            lemma_run_inverse_prepend(g, coefs, shape, q, iprev);
        }
        lemma_periodic_round_trip_levels(f, g, zero, x, out, shape, axis, width, m);
    }
}

/// Along a single axis, the periodic inverse transform reconstructs the signal the
/// periodic forward transform decomposed, for kernels that invert each other: when the
/// forward transform makes at least one pass, the inverse transform of a copy of its output
/// gives the input back.
pub proof fn lemma_periodic_round_trip<T>(
    f: BandSplit<T>,
    g: BandJoin<T>,
    zero: T,
    x: Seq<T>,
    out: Seq<T>,
    work: Seq<T>,
    shape: Seq<usize>,
    axis: usize,
    level: nat,
    width: int,
)
    requires
        periodic_inverse(f, g),
        x.len() == shape_prod(shape),
        out.len() == x.len(),
        work.len() == x.len(),
        0 < x.len() <= usize::MAX,
        axis < shape.len(),
        forward_plan(shape, shape, seq![axis], level, width).len() > 0,
    ensures
        ({
            let coefs = run_forward(
                f,
                zero,
                x,
                shape,
                out,
                shape,
                forward_plan(shape, shape, seq![axis], level, width),
            );
            run_inverse(
                g,
                copy_region(coefs, shape, work, shape, min_stride_axis(shape)),
                shape,
                inverse_plan(shape, shape, seq![axis], level, width),
            ) == x
        }),
{
    let coefs = run_forward(
        f,
        zero,
        x,
        shape,
        out,
        shape,
        forward_plan(shape, shape, seq![axis], level, width),
    );
    lemma_run_forward_len(f, zero, x, out, shape, forward_plan(shape, shape, seq![axis], level, width));
    lemma_lanes_ok_from_len(shape, min_stride_axis(shape));
    lemma_copy_whole(coefs, work, shape, min_stride_axis(shape));
    lemma_periodic_round_trip_levels(f, g, zero, x, out, shape, axis, width, level);
}

} // verus!
