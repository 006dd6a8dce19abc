use ndwt::dwt::driver::{
    forward_passes, general_nd_forward_multilevel, general_nd_inverse_multilevel, get_outshape,
    inverse_passes, LanePass,
};

/// Integer Haar analysis: sums and differences of sample pairs (a missing partner is 0).
fn haar_forward(x: &[i64], n_s: usize, n_d: usize) -> (Vec<i64>, Vec<i64>) {
    let at = |i: usize| if i < x.len() { x[i] } else { 0 };
    let s = (0..n_s).map(|i| at(2 * i) + at(2 * i + 1)).collect();
    let d = (0..n_d).map(|i| at(2 * i) - at(2 * i + 1)).collect();
    (s, d)
}

/// Inverse of `haar_forward`.
fn haar_inverse(s: &[i64], d: &[i64], n: usize) -> Vec<i64> {
    (0..n)
        .map(|i| {
            let k = i / 2;
            if k < d.len() {
                if i % 2 == 0 {
                    (s[k] + d[k]) / 2
                } else {
                    (s[k] - d[k]) / 2
                }
            } else if i % 2 == 0 && k < s.len() {
                s[k]
            } else {
                0
            }
        })
        .collect()
}

fn pass_fields(p: &LanePass) -> (usize, Vec<usize>, usize, usize, usize, bool) {
    (p.axis, p.sub_shape.clone(), p.n_samples, p.n_s, p.n_d, p.from_input)
}

#[test]
fn periodic_forward_plan_halves_until_one() {
    let plan = forward_passes(&[8], &[8], &[0], 3, 2);
    let got: Vec<_> = plan.iter().map(pass_fields).collect();
    assert_eq!(got, vec![(0, vec![8], 8, 4, 4, true), (0, vec![4], 4, 2, 2, false)]);
}

#[test]
fn nonperiodic_forward_plan_uses_subband_lengths() {
    let out = get_outshape(&[5], &[0], 2, 4, false);
    assert_eq!(out, vec![12]);
    let plan = forward_passes(&[5], &out, &[0], 2, 4);
    let got: Vec<_> = plan.iter().map(pass_fields).collect();
    assert_eq!(got, vec![(0, vec![12], 5, 4, 4, true), (0, vec![8], 4, 4, 4, false)]);
}

#[test]
fn inverse_plan_runs_coarsest_level_first() {
    let plan = inverse_passes(&[7], &[5], &[0], 2, 2);
    let got: Vec<_> = plan.iter().map(pass_fields).collect();
    assert_eq!(got, vec![(0, vec![4], 3, 2, 2, false), (0, vec![7], 5, 3, 3, false)]);
}

#[test]
fn two_axis_plan_visits_axes_in_order() {
    let plan = forward_passes(&[8, 4], &[8, 4], &[0, 1], 2, 2);
    let got: Vec<_> = plan.iter().map(pass_fields).collect();
    assert_eq!(
        got,
        vec![
            (0, vec![8, 4], 8, 4, 4, true),
            (1, vec![8, 4], 4, 2, 2, false),
            (0, vec![4, 2], 4, 2, 2, false),
        ]
    );
}

#[test]
fn periodic_forward_1d_two_levels() {
    let x: Vec<i64> = (1..=8).collect();
    let mut out = vec![0i64; 8];
    general_nd_forward_multilevel(&haar_forward, 0, &x, &mut out, &[8], &[8], &[0], 2, 2);
    assert_eq!(out, vec![10, 26, -4, -4, -1, -1, -1, -1]);
}

#[test]
fn periodic_inverse_1d_two_levels() {
    let mut coefs = vec![10i64, 26, -4, -4, -1, -1, -1, -1];
    let mut out = vec![0i64; 8];
    general_nd_inverse_multilevel(&haar_inverse, &mut coefs, &mut out, &[8], &[8], &[0], 2, 2);
    assert_eq!(out, (1..=8).collect::<Vec<i64>>());
    assert_eq!(coefs, vec![10, 26, -4, -4, -1, -1, -1, -1]);
}

#[test]
fn periodic_round_trip_2d() {
    let x: Vec<i64> = (0..32).map(|i| (i * 7 % 11) as i64 - 5).collect();
    let mut coefs = vec![0i64; 32];
    general_nd_forward_multilevel(&haar_forward, 0, &x, &mut coefs, &[8, 4], &[8, 4], &[0, 1], 2, 2);
    assert_ne!(coefs, x);
    let mut back = vec![0i64; 32];
    general_nd_inverse_multilevel(&haar_inverse, &mut coefs, &mut back, &[8, 4], &[8, 4], &[0, 1], 2, 2);
    assert_eq!(back, x);
}

#[test]
fn nonperiodic_round_trip_1d() {
    let x = vec![1i64, 2, 3, 4, 5];
    let out_shape = get_outshape(&[5], &[0], 1, 2, false);
    assert_eq!(out_shape, vec![6]);
    let mut coefs = vec![0i64; 6];
    general_nd_forward_multilevel(&haar_forward, 0, &x, &mut coefs, &[5], &out_shape, &[0], 1, 2);
    assert_eq!(coefs, vec![3, 7, 5, -1, -1, 5]);
    let mut back = vec![0i64; 5];
    general_nd_inverse_multilevel(&haar_inverse, &mut coefs, &mut back, &out_shape, &[5], &[0], 1, 2);
    assert_eq!(back, x);
    assert_eq!(coefs, vec![1, 2, 3, 4, 5, 5]);
}

#[test]
fn nonperiodic_two_levels_keep_detail_at_lane_end() {
    let x = vec![1i64, 2, 3, 4, 5];
    let out_shape = get_outshape(&[5], &[0], 2, 2, false);
    assert_eq!(out_shape, vec![7]);
    let mut coefs = vec![9i64; 7];
    general_nd_forward_multilevel(&haar_forward, 0, &x, &mut coefs, &[5], &out_shape, &[0], 2, 2);
    assert_eq!(coefs, vec![10, 5, -4, 5, -1, -1, 5]);
    let mut back = vec![0i64; 5];
    general_nd_inverse_multilevel(&haar_inverse, &mut coefs, &mut back, &out_shape, &[5], &[0], 2, 2);
    assert_eq!(back, x);
}

#[test]
fn forward_fills_gap_between_bands() {
    let x = vec![1i64, 2, 3, 4, 5];
    let mut coefs = vec![9i64; 8];
    general_nd_forward_multilevel(&haar_forward, 0, &x, &mut coefs, &[5], &[8], &[0], 1, 2);
    assert_eq!(coefs, vec![3, 7, 5, 0, 0, -1, -1, 5]);
}

#[test]
fn untouched_axes_and_empty_axis_list() {
    let x: Vec<i64> = (0..6).collect();
    let mut out = vec![7i64; 6];
    general_nd_forward_multilevel(&haar_forward, 0, &x, &mut out, &[2, 3], &[2, 3], &[], 3, 2);
    assert_eq!(out, vec![7; 6]);
    let mut out2 = vec![0i64; 6];
    general_nd_forward_multilevel(&haar_forward, 0, &x, &mut out2, &[2, 3], &[2, 3], &[1], 1, 2);
    // rows [0,1,2] and [3,4,5]: s = [x0+x1, x2], d = [x0-x1]
    assert_eq!(out2, vec![1, 2, -1, 7, 5, -1]);
}

#[test]
fn nonperiodic_round_trip_along_first_axis() {
    let x: Vec<i64> = (1..=10).collect();
    let out_shape = get_outshape(&[5, 2], &[0], 2, 2, false);
    assert_eq!(out_shape, vec![7, 2]);
    let mut coefs = vec![0i64; 14];
    general_nd_forward_multilevel(&haar_forward, 0, &x, &mut coefs, &[5, 2], &out_shape, &[0], 2, 2);
    assert_eq!(coefs, vec![16, 20, 9, 10, -8, -8, 9, 10, -2, -2, -2, -2, 9, 10]);
    let mut back = vec![0i64; 10];
    general_nd_inverse_multilevel(&haar_inverse, &mut coefs, &mut back, &out_shape, &[5, 2], &[0], 2, 2);
    assert_eq!(back, x);
}
