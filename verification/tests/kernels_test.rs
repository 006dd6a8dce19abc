use ndwt::boundarys::{BoundaryCondition, ZeroBoundary};
use ndwt::dwt::get_outlen;
use ndwt::dwt::kernels::{
    dwt_adjoint_forward, dwt_forward, dwt_inverse, dwt_per_forward, dwt_per_inverse,
};

#[test]
fn test_simple() {
    const N: usize = 4;
    let g = [1i64; N];
    let h: [i64; N] = core::array::from_fn(|i| -1 * (i as i64 % 2));

    let bc = ZeroBoundary;

    let nx = 33;
    let x = (0..nx).map(|i| (i + 1) as i64).collect::<Vec<_>>();
    let nsd = get_outlen(N, nx);

    let mut s = vec![0; nsd];
    let mut d = vec![0; nsd];

    dwt_forward(&g, &h, &x, &mut s, &mut d, &bc);

    let mut x = vec![0; nx];
    dwt_inverse(&g, &h, &s, &d, &mut x);
}

#[test]
fn forward_box_filter_values() {
    let g = [1i64; 4];
    let h = [0i64, -1, 0, -1];
    let x: Vec<i64> = (1..=33).collect();
    let mut s = vec![0; get_outlen(4, 33)];
    let mut d = vec![0; get_outlen(4, 33)];
    dwt_forward(&g, &h, &x, &mut s, &mut d, &ZeroBoundary);
    assert_eq!(
        s,
        vec![1, 6, 14, 22, 30, 38, 46, 54, 62, 70, 78, 86, 94, 102, 110, 118, 126, 65]
    );
    assert_eq!(
        d,
        vec![0, -2, -6, -10, -14, -18, -22, -26, -30, -34, -38, -42, -46, -50, -54, -58, -62, -32]
    );
    let mut y = vec![0; 33];
    dwt_inverse(&g, &h, &s, &d, &mut y);
    assert_eq!(y[..6], [9, 20, 28, 36, 52, 52]);
    assert_eq!(y[31..], [191, 285]);
}

#[test]
fn forward_two_taps() {
    let mut s = vec![0; 2];
    let mut d = vec![0; 2];
    dwt_forward(&[1, 2], &[3, -1], &[5, 7, -2], &mut s, &mut d, &BoundaryCondition::Zero);
    assert_eq!(s, vec![17, -4]);
    assert_eq!(d, vec![16, 2]);
}

#[test]
fn forward_four_taps_zero_and_constant() {
    let g = [1, 2, 3, 4];
    let h = [1, -1, 2, -2];
    let x = [1, 2, 3, 4, 5];
    let mut s = vec![0; 4];
    let mut d = vec![0; 4];
    dwt_forward(&g, &h, &x, &mut s, &mut d, &BoundaryCondition::Zero);
    assert_eq!(s, vec![1, 10, 30, 31]);
    assert_eq!(d, vec![1, 3, 3, 2]);
    dwt_forward(&g, &h, &x, &mut s, &mut d, &BoundaryCondition::Constant);
    assert_eq!(s, vec![10, 14, 30, 46]);
    assert_eq!(d, vec![0, 1, 3, 2]);
}

#[test]
fn forward_six_taps_constant() {
    let mut s = vec![0; 6];
    let mut d = vec![0; 6];
    dwt_forward(
        &[1, 0, 2, 0, -1, 3],
        &[2, 1, 0, -1, 1, 1],
        &[3, 1, 4, 1, 5, 9, 2],
        &mut s,
        &mut d,
        &BoundaryCondition::Constant,
    );
    assert_eq!(s, vec![13, 9, 19, 31, 12, 10]);
    assert_eq!(d, vec![8, 9, 23, 6, 18, 8]);
}

#[test]
fn inverse_four_and_six_taps() {
    let mut x = vec![0; 5];
    dwt_inverse(&[1, 2, 3, 4], &[1, -1, 2, -2], &[1, 2, 3, 4], &[0, 1, -1, 2], &mut x);
    assert_eq!(x, vec![7, 10, 13, 13, 20]);
    let mut x = vec![0; 7];
    dwt_inverse(
        &[1, 0, 2, 0, -1, 3],
        &[2, 1, 0, -1, 1, 1],
        &[1, 2, 3, 4, 5, 6],
        &[1, 0, 1, 0, 1, 0],
        &mut x,
    );
    assert_eq!(x, vec![9, 5, 8, 5, 13, 11, 12]);
}

#[test]
fn inverse_empty_signal() {
    let mut x: Vec<i64> = vec![];
    dwt_inverse(&[1, 1], &[1, -1], &[], &[], &mut x);
    assert!(x.is_empty());
}

#[test]
fn periodic_forward_odd_length() {
    let mut s = vec![0; 3];
    let mut d = vec![0; 2];
    dwt_per_forward(&[1, 2, 3, 4], &[1, -1, 2, -2], &[1, 2, 3, 4, 5], &mut s, &mut d);
    assert_eq!(s, vec![26, 26, 5]);
    assert_eq!(d, vec![-5, -1]);
}

#[test]
fn periodic_forward_six_taps() {
    let mut s = vec![0; 3];
    let mut d = vec![0; 3];
    dwt_per_forward(
        &[1, 0, 2, 0, -1, 3],
        &[2, 1, 0, -1, 1, 1],
        &[3, 1, 4, 1, 5, 9],
        &mut s,
        &mut d,
    );
    assert_eq!(s, vec![9, 19, 30]);
    assert_eq!(d, vec![17, 23, 5]);
}

#[test]
fn periodic_single_sample_is_carried() {
    let mut s = vec![0; 1];
    let mut d: Vec<i64> = vec![];
    dwt_per_forward(&[1, 1], &[1, -1], &[42], &mut s, &mut d);
    assert_eq!(s, vec![42]);
    let mut x = vec![0; 1];
    dwt_per_inverse(&[1, 1], &[1, -1], &s, &d, &mut x);
    assert_eq!(x, vec![42]);
}

#[test]
fn periodic_inverse_values() {
    let mut x = vec![0; 5];
    dwt_per_inverse(&[1, 2, 3, 4], &[1, -1, 2, -2], &[1, 2, 3], &[4, 5], &mut x);
    assert_eq!(x, vec![-4, 18, -5, 21, 3]);
    let mut x = vec![0; 6];
    dwt_per_inverse(
        &[1, 0, 2, 0, -1, 3],
        &[2, 1, 0, -1, 1, 1],
        &[1, 2, 3],
        &[1, 0, -1],
        &mut x,
    );
    assert_eq!(x, vec![0, 7, 5, 3, 7, 8]);
}

#[test]
fn periodic_haar_round_trip() {
    // Haar analysis `[1, 1] / [-1, 1]` followed by synthesis with `[1, 1] / [1, -1]`
    // doubles every sample.
    let x = [4, -2, 7, 7, 0, 3, 1, 8];
    let mut s = vec![0; 4];
    let mut d = vec![0; 4];
    dwt_per_forward(&[1, 1], &[-1, 1], &x, &mut s, &mut d);
    let mut y = vec![0; 8];
    dwt_per_inverse(&[1, 1], &[1, -1], &s, &d, &mut y);
    assert_eq!(y, x.iter().map(|v| 2 * v).collect::<Vec<_>>());
}

#[test]
fn adjoint_zero_and_constant() {
    let g = [1, 2, 3, 4];
    let h = [1, -1, 2, -2];
    let mut x = vec![7; 5];
    dwt_adjoint_forward(&g, &h, &[1, 2, 3, 4], &[0, 1, -1, 2], &mut x, &BoundaryCondition::Zero);
    assert_eq!(x, vec![9, 17, 10, 19, 18]);
    dwt_adjoint_forward(
        &g,
        &h,
        &[1, 2, 3, 4],
        &[0, 1, -1, 2],
        &mut x,
        &BoundaryCondition::Constant,
    );
    assert_eq!(x, vec![24, 17, 10, 19, 30]);
}

#[test]
fn adjoint_is_transpose_of_forward() {
    // <F x, (s, d)> == <x, F^T (s, d)> for a constant boundary.
    let g = [1, 0, 2, 0, -1, 3];
    let h = [2, 1, 0, -1, 1, 1];
    let x = [3, 1, 4, 1, 5, 9, 2];
    let (s_in, d_in) = ([1, -2, 0, 3, 1, 2], [0, 1, 1, -1, 2, 0]);
    let bc = BoundaryCondition::Constant;
    let mut s = vec![0; 6];
    let mut d = vec![0; 6];
    dwt_forward(&g, &h, &x, &mut s, &mut d, &bc);
    let mut xt = vec![0; 7];
    dwt_adjoint_forward(&g, &h, &s_in, &d_in, &mut xt, &bc);
    let lhs: i64 = (0..6).map(|k| s[k] * s_in[k] + d[k] * d_in[k]).sum();
    let rhs: i64 = (0..7).map(|j| x[j] * xt[j]).sum();
    assert_eq!(lhs, rhs);
}
