use ndwt::boundarys::{BoundaryCondition, ZeroBoundary};
use ndwt::lwt::steps::{
    max_offset, max_offset_r, n_back, n_back_r, n_front, n_front_r, offset_r, scale_slice,
    update_step, ScaleStep, UpdateD, UpdateS,
};

#[test]
fn test_offsets() {
    assert_eq!(max_offset::<5>(-2), 6);
    assert_eq!(n_front::<5>(-2), 2);
}

#[test]
fn test_neg_offset_update_step() {
    let coefs = [1, 1, 1];
    let offset = -1;

    // x and y same length;
    let data = [1, 2, 3, 4, 5];
    let mut output = [0; 5];

    update_step(offset, &coefs, &data, &mut output, &ZeroBoundary {});

    assert_eq!(output, [3, 6, 9, 12, 9]);

    // x 1 smaller than y;
    let data = [1, 2, 3, 4];
    let mut output = [0; 5];

    update_step(offset, &coefs, &data, &mut output, &ZeroBoundary {});

    assert_eq!(output, [3, 6, 9, 7, 4]);

    // x 1 larger than y;
    let data = [1, 2, 3, 4, 5];
    let mut output = [0; 4];

    update_step(offset, &coefs, &data, &mut output, &ZeroBoundary {});

    assert_eq!(output, [3, 6, 9, 12]);
}

#[test]
fn test_pos_offset_update_step() {
    let coefs = [1, 1, 1];
    let offset = 1;

    // x and y same length;
    let data = [1, 2, 3, 4, 5];
    let mut output = [0; 5];

    update_step(offset, &coefs, &data, &mut output, &ZeroBoundary {});

    assert_eq!(output, [9, 12, 9, 5, 0]);

    // x 1 smaller than y;
    let data = [1, 2, 3, 4];
    let mut output = [0; 5];

    update_step(offset, &coefs, &data, &mut output, &ZeroBoundary {});

    assert_eq!(output, [9, 7, 4, 0, 0]);

    // x 1 larger than y;
    let data = [1, 2, 3, 4, 5];
    let mut output = [0; 4];

    update_step(offset, &coefs, &data, &mut output, &ZeroBoundary {});

    assert_eq!(output, [9, 12, 9, 5]);
}

#[test]
fn offset_helpers_exact_values() {
    assert_eq!(max_offset::<3>(0), 2);
    assert_eq!(offset_r::<3>(1), -1);
    assert_eq!(max_offset_r::<4>(-2), -2);
    assert_eq!(n_front::<3>(4), 0);
    assert_eq!(n_back::<3>(5), 0);
    assert_eq!(n_back::<3>(-1), 3);
    assert_eq!(n_front_r::<3>(0), 2);
    assert_eq!(n_front_r::<3>(4), 0);
    assert_eq!(n_back_r::<3>(-1), 0);
    assert_eq!(n_back_r::<3>(0), 0);
    assert_eq!(n_back_r::<3>(1), usize::MAX);
}

#[test]
fn update_step_uses_the_multiply_add_of_the_coefficients() {
    // y[i] += 2 * x[i - 1] + 3 * x[i] with zero padding.
    let coefs = [2, 3];
    let data = [1, 10, 100];
    let mut output = [5, 5, 5];
    update_step(-1, &coefs, &data, &mut output, &ZeroBoundary {});
    assert_eq!(output, [8, 37, 325]);
}

#[test]
fn update_step_with_periodic_extension() {
    let coefs = [1, -1];
    let data = [1, 2, 3, 4];
    let mut output = [0; 4];
    update_step(0, &coefs, &data, &mut output, &BoundaryCondition::Periodic);
    assert_eq!(output, [-1, -1, -1, 3]);
}

#[test]
fn update_steps_undo_each_other() {
    let s0 = [4, -2, 7, 1, 0, 9];
    let d0 = [3, 3, -8, 5, 2];
    for bc in [BoundaryCondition::Symmetric, BoundaryCondition::Periodic, BoundaryCondition::Zero] {
        let step = UpdateD { offset: -1, coefs: [2, -1, 3] };
        let mut s = s0;
        let mut d = d0;
        step.forward(&mut s, &mut d, &bc);
        assert_ne!(d, d0);
        assert_eq!(s, s0);
        step.inverse(&mut s, &mut d, &bc);
        assert_eq!((s, d), (s0, d0));

        let step = UpdateS { offset: 0, coefs: [1, 1] };
        let mut s = s0;
        let mut d = d0;
        step.forward(&mut s, &mut d, &bc);
        assert_ne!(s, s0);
        assert_eq!(d, d0);
        step.inverse(&mut s, &mut d, &bc);
        assert_eq!((s, d), (s0, d0));
    }
}

#[test]
fn scale_slice_and_scale_step() {
    let mut x = [1, -2, 3];
    scale_slice(4, &mut x);
    assert_eq!(x, [4, -8, 12]);

    let step = ScaleStep { scale: 3 };
    let mut s = [1, 2];
    let mut d = [5, 6];
    step.forward(&mut s, &mut d);
    assert_eq!(s, [3, 6]);
    assert_eq!(d, [0, 0]);

    let step = ScaleStep { scale: -1 };
    let mut s = [1, 2];
    let mut d = [5, 6];
    step.forward(&mut s, &mut d);
    step.inverse(&mut s, &mut d);
    assert_eq!((s, d), ([1, 2], [5, 6]));
}
