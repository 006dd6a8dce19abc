use ndwt::dwt::driver::LanePass;
use ndwt::iter::slice::MutLaneSliceIter;
use ndwt::lwt::driver::{
    dedup_axes, general_nd_forward_multilevel, general_nd_inverse_multilevel,
    lift_forward_passes, lift_inverse_passes,
};

/// Linear integer lifting: sums and differences of even/odd pairs (an unpaired even sample
/// is kept as it is).
fn pair_lift(e: &[i64], o: &[i64]) -> (Vec<i64>, Vec<i64>) {
    let s = (0..e.len()).map(|i| if i < o.len() { e[i] + o[i] } else { e[i] }).collect();
    let d = (0..o.len()).map(|i| e[i] - o[i]).collect();
    (s, d)
}

/// Inverse of `pair_lift`, returning the even and odd samples.
fn pair_unlift(s: &[i64], d: &[i64]) -> (Vec<i64>, Vec<i64>) {
    let e = (0..s.len()).map(|i| if i < d.len() { (s[i] + d[i]) / 2 } else { s[i] }).collect();
    let o = (0..d.len()).map(|i| (s[i] - d[i]) / 2).collect();
    (e, o)
}

fn pass_fields(p: &LanePass) -> (usize, Vec<usize>, usize, usize, usize, bool) {
    (p.axis, p.sub_shape.clone(), p.n_samples, p.n_s, p.n_d, p.from_input)
}

#[test]
fn lifting_plans_halve_the_region() {
    let fwd: Vec<_> = lift_forward_passes(&[8], &[0], 3).iter().map(pass_fields).collect();
    assert_eq!(fwd, vec![(0, vec![8], 8, 4, 4, true), (0, vec![4], 4, 2, 2, false)]);
    let inv: Vec<_> = lift_inverse_passes(&[8], &[0], 3).iter().map(pass_fields).collect();
    assert_eq!(inv, vec![(0, vec![4], 4, 2, 2, false), (0, vec![8], 8, 4, 4, false)]);
}

#[test]
fn lifting_plan_rounds_odd_regions_up() {
    let fwd: Vec<_> = lift_forward_passes(&[5, 3], &[0, 1], 2).iter().map(pass_fields).collect();
    assert_eq!(
        fwd,
        vec![
            (0, vec![5, 3], 5, 3, 2, true),
            (1, vec![5, 3], 3, 2, 1, false),
            (0, vec![3, 2], 3, 2, 1, false),
        ]
    );
}

#[test]
fn axes_are_deduplicated_in_order() {
    assert_eq!(dedup_axes(&[1, 0, 1, 2, 0]), vec![1, 0, 2]);
    assert_eq!(dedup_axes(&[]), Vec::<usize>::new());
}

#[test]
fn lifting_forward_1d() {
    let x: Vec<i64> = (1..=8).collect();
    let mut out = vec![0i64; 8];
    general_nd_forward_multilevel(&pair_lift, &x, &mut out, &[8], &[0], 3);
    assert_eq!(out, vec![10, 26, -4, -4, -1, -1, -1, -1]);
}

#[test]
fn lifting_odd_length_round_trip() {
    let x = vec![1i64, 2, 3, 4, 5];
    let mut out = vec![0i64; 5];
    general_nd_forward_multilevel(&pair_lift, &x, &mut out, &[5], &[0], 3);
    assert_eq!(out, vec![10, 5, -4, -1, -1]);
    let mut back = vec![0i64; 5];
    general_nd_inverse_multilevel(&pair_unlift, &out, &mut back, &[5], &[0], 3);
    assert_eq!(back, x);
}

#[test]
fn lifting_round_trip_2d_with_repeated_axis() {
    let x: Vec<i64> = (0..30).map(|i| (i * 5 % 13) as i64 - 6).collect();
    let mut out = vec![0i64; 30];
    general_nd_forward_multilevel(&pair_lift, &x, &mut out, &[6, 5], &[1, 0, 1], 2);
    assert_ne!(out, x);
    let mut back = vec![0i64; 30];
    general_nd_inverse_multilevel(&pair_unlift, &out, &mut back, &[6, 5], &[1, 0, 1], 2);
    assert_eq!(back, x);
}

#[test]
fn lifting_without_levels_copies_on_inverse_only() {
    let x: Vec<i64> = (0..4).collect();
    let mut out = vec![9i64; 4];
    general_nd_forward_multilevel(&pair_lift, &x, &mut out, &[4], &[0], 0);
    assert_eq!(out, vec![9; 4]);
    general_nd_inverse_multilevel(&pair_unlift, &x, &mut out, &[4], &[0], 0);
    assert_eq!(out, x);
}

/// Lifting kernel that keeps both bands as they are.
fn keep(e: &[f64], o: &[f64]) -> (Vec<f64>, Vec<f64>) {
    (e.to_vec(), o.to_vec())
}

#[test]
fn test_roundtrip() {
    for n in [16usize, 17] {
        for dim in 1..=4usize {
            for level in 1..=3usize {
                let shape = vec![n; dim];
                let axes: Vec<usize> = (0..dim).collect();
                let n_total: usize = shape.iter().product();
                let v1: Vec<f64> = (0..n_total).map(|i| i as f64).collect();
                let mut v2 = vec![0.0; n_total];
                let mut v3 = vec![0.0; n_total];

                general_nd_forward_multilevel(&keep, &v1, &mut v2, &shape, &axes, level);

                if level == 1 {
                    let mut v2_ref = v1.clone();
                    for ax in axes.iter().cloned() {
                        let ns = (shape[ax] + 1) / 2;
                        let nd = shape[ax] / 2;
                        let mut work_e = vec![0.0; ns];
                        let mut work_o = vec![0.0; nd];
                        let mut lanes = MutLaneSliceIter::from_slice_mut(&mut v2_ref, &shape, ax);
                        while let Some(lane) = lanes.next() {
                            lane.deinterleave(&v2_ref, &mut work_e, &mut work_o);
                            lane.stack(&mut v2_ref, &work_e, &work_o, 0.0);
                        }
                    }
                    assert_eq!(v2, v2_ref);
                }
                general_nd_inverse_multilevel(&keep, &v2, &mut v3, &shape, &axes, level);
                assert_eq!(v1, v3);
            }
        }
    }
}
