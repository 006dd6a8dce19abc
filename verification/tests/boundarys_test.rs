use ndwt::boundarys::{BoundaryCondition, BoundaryExtension, PeriodicBoundary, ZeroBoundary};

/// Value at virtual index `io` rebuilt from the weighted parts of the boundary condition.
fn get_value<B: BoundaryExtension>(bc: B, io: isize, data: &[i64]) -> i64 {
    let vs = bc.get_parts(data.len(), io);
    vs.iter()
        .map(|(scale, i)| match scale {
            Some(v) => data[*i] * *v,
            None => data[*i],
        })
        .fold(0, |acc, v| acc + v)
}
#[test]
fn test_antireflect_boundary() {
    let data: [i64; 7] = [4, 4, 9, 16, 25, 16, 9];
    let bc = BoundaryCondition::Antireflect;
    assert_eq!(bc.get_bc(&data, -40), Some(-47));
    assert_eq!(bc.get_bc(&data, -10), Some(-1));
    assert_eq!(bc.get_bc(&data, -3), Some(-8));
    assert_eq!(bc.get_bc(&data, -2), Some(-1));
    assert_eq!(bc.get_bc(&data, -1), Some(4));
    assert_eq!(bc.get_bc(&data, 0), Some(4));
    assert_eq!(bc.get_bc(&data, 1), Some(4));
    assert_eq!(bc.get_bc(&data, 2), Some(9));
    assert_eq!(bc.get_bc(&data, 7), Some(2));
    assert_eq!(bc.get_bc(&data, 8), Some(-7));
    assert_eq!(bc.get_bc(&data, 9), Some(2));
    assert_eq!(bc.get_bc(&data, 15), Some(26));
    assert_eq!(bc.get_bc(&data, 45), Some(32));
}

#[test]
fn test_antireflect_boundary_parts() {
    let data: [i64; 7] = [4, 4, 9, 16, 25, 16, 9];
    let bc = BoundaryCondition::Antireflect;
    assert_eq!(get_value(bc, -40, &data), -47);
    assert_eq!(get_value(bc, -10, &data), -1);
    assert_eq!(get_value(bc, -3, &data), -8);
    assert_eq!(get_value(bc, -2, &data), -1);
    assert_eq!(get_value(bc, -1, &data), 4);
    assert_eq!(get_value(bc, 0, &data), 4);
    assert_eq!(get_value(bc, 1, &data), 4);
    assert_eq!(get_value(bc, 2, &data), 9);
    assert_eq!(get_value(bc, 7, &data), 2);
    assert_eq!(get_value(bc, 8, &data), -7);
    assert_eq!(get_value(bc, 9, &data), 2);
    assert_eq!(get_value(bc, 15, &data), 26);
    assert_eq!(get_value(bc, 45, &data), 32);
}

#[test]
fn test_antisymmetric_boundary() {
    let data: [i64; 5] = [1, 2, 3, 4, 5];
    let bc = BoundaryCondition::Antisymmetric;
    assert_eq!(bc.get_bc(&data, -7), Some(4));
    assert_eq!(bc.get_bc(&data, -6), Some(5));
    assert_eq!(bc.get_bc(&data, -2), Some(-2));
    assert_eq!(bc.get_bc(&data, -1), Some(-1));
    assert_eq!(bc.get_bc(&data, 0), Some(1));
    assert_eq!(bc.get_bc(&data, 4), Some(5));
    assert_eq!(bc.get_bc(&data, 5), Some(-5));
    assert_eq!(bc.get_bc(&data, 6), Some(-4));
    assert_eq!(bc.get_bc(&data, 10), Some(1));
    assert_eq!(bc.get_bc(&data, 11), Some(2));
}

#[test]
fn test_antisymmetric_boundary_parts() {
    let data: [i64; 5] = [1, 2, 3, 4, 5];
    let bc = BoundaryCondition::Antisymmetric;
    assert_eq!(get_value(bc, -7, &data), 4);
    assert_eq!(get_value(bc, -6, &data), 5);
    assert_eq!(get_value(bc, -2, &data), -2);
    assert_eq!(get_value(bc, -1, &data), -1);
    assert_eq!(get_value(bc, 0, &data), 1);
    assert_eq!(get_value(bc, 4, &data), 5);
    assert_eq!(get_value(bc, 5, &data), -5);
    assert_eq!(get_value(bc, 6, &data), -4);
    assert_eq!(get_value(bc, 10, &data), 1);
    assert_eq!(get_value(bc, 11, &data), 2);
}

#[test]
fn test_symmetric_boundary() {
    let data: [i64; 5] = [1, 2, 3, 4, 5];
    let bc = BoundaryCondition::Symmetric;
    assert_eq!(bc.get_bc(&data, -7), Some(4));
    assert_eq!(bc.get_bc(&data, -6), Some(5));
    assert_eq!(bc.get_bc(&data, -2), Some(2));
    assert_eq!(bc.get_bc(&data, -1), Some(1));
    assert_eq!(bc.get_bc(&data, 0), Some(1));
    assert_eq!(bc.get_bc(&data, 4), Some(5));
    assert_eq!(bc.get_bc(&data, 5), Some(5));
    assert_eq!(bc.get_bc(&data, 6), Some(4));
    assert_eq!(bc.get_bc(&data, 10), Some(1));
    assert_eq!(bc.get_bc(&data, 11), Some(2));
}

#[test]
fn test_symmetric_boundary_parts() {
    let data: [i64; 5] = [1, 2, 3, 4, 5];
    let bc = BoundaryCondition::Symmetric;
    assert_eq!(get_value(bc, -7, &data), 4);
    assert_eq!(get_value(bc, -6, &data), 5);
    assert_eq!(get_value(bc, -2, &data), 2);
    assert_eq!(get_value(bc, -1, &data), 1);
    assert_eq!(get_value(bc, 0, &data), 1);
    assert_eq!(get_value(bc, 4, &data), 5);
    assert_eq!(get_value(bc, 5, &data), 5);
    assert_eq!(get_value(bc, 6, &data), 4);
    assert_eq!(get_value(bc, 10, &data), 1);
    assert_eq!(get_value(bc, 11, &data), 2);
}

#[test]
fn test_reflect_boundary() {
    let data: [i64; 5] = [1, 2, 3, 4, 5];
    let bc = BoundaryCondition::Reflect;
    assert_eq!(bc.get_bc(&data, -6), Some(3));
    assert_eq!(bc.get_bc(&data, -2), Some(3));
    assert_eq!(bc.get_bc(&data, -1), Some(2));
    assert_eq!(bc.get_bc(&data, 0), Some(1));
    assert_eq!(bc.get_bc(&data, 4), Some(5));
    assert_eq!(bc.get_bc(&data, 5), Some(4));
    assert_eq!(bc.get_bc(&data, 6), Some(3));
    assert_eq!(bc.get_bc(&data, 10), Some(3));
}

#[test]
fn test_reflect_boundary_parts() {
    let data: [i64; 5] = [1, 2, 3, 4, 5];
    let bc = BoundaryCondition::Reflect;
    assert_eq!(get_value(bc, -6, &data), 3);
    assert_eq!(get_value(bc, -2, &data), 3);
    assert_eq!(get_value(bc, -1, &data), 2);
    assert_eq!(get_value(bc, 0, &data), 1);
    assert_eq!(get_value(bc, 4, &data), 5);
    assert_eq!(get_value(bc, 5, &data), 4);
    assert_eq!(get_value(bc, 6, &data), 3);
    assert_eq!(get_value(bc, 10, &data), 3);
}

#[test]
fn test_periodic_boundary() {
    let data: [i64; 5] = [1, 2, 3, 4, 5];
    let bc = BoundaryCondition::Periodic;
    assert_eq!(bc.get_bc(&data, -1), Some(5));
    assert_eq!(bc.get_bc(&data, -2), Some(4));
    assert_eq!(bc.get_bc(&data, -6), Some(5));
    assert_eq!(bc.get_bc(&data, 0), Some(1));
    assert_eq!(bc.get_bc(&data, 4), Some(5));
    assert_eq!(bc.get_bc(&data, 5), Some(1));
    assert_eq!(bc.get_bc(&data, 6), Some(2));
    assert_eq!(bc.get_bc(&data, 10), Some(1));
}

#[test]
fn test_periodic_boundary_parts() {
    let data: [i64; 5] = [1, 2, 3, 4, 5];
    let bc = BoundaryCondition::Periodic;
    assert_eq!(get_value(bc, -1, &data), 5);
    assert_eq!(get_value(bc, -2, &data), 4);
    assert_eq!(get_value(bc, -6, &data), 5);
    assert_eq!(get_value(bc, 0, &data), 1);
    assert_eq!(get_value(bc, 4, &data), 5);
    assert_eq!(get_value(bc, 5, &data), 1);
    assert_eq!(get_value(bc, 6, &data), 2);
    assert_eq!(get_value(bc, 10, &data), 1);
}

#[test]
fn test_constant_boundary() {
    let data: [i64; 5] = [1, 2, 3, 4, 5];
    let bc = BoundaryCondition::Constant;
    assert_eq!(bc.get_bc(&data, -1), Some(1));
    assert_eq!(bc.get_bc(&data, -2), Some(1));
    assert_eq!(bc.get_bc(&data, -6), Some(1));
    assert_eq!(bc.get_bc(&data, 0), Some(1));
    assert_eq!(bc.get_bc(&data, 4), Some(5));
    assert_eq!(bc.get_bc(&data, 5), Some(5));
    assert_eq!(bc.get_bc(&data, 6), Some(5));
    assert_eq!(bc.get_bc(&data, 10), Some(5));
}

#[test]
fn test_constant_boundary_parts() {
    let data: [i64; 5] = [1, 2, 3, 4, 5];
    let bc = BoundaryCondition::Constant;
    assert_eq!(get_value(bc, -1, &data), 1);
    assert_eq!(get_value(bc, -2, &data), 1);
    assert_eq!(get_value(bc, -6, &data), 1);
    assert_eq!(get_value(bc, 0, &data), 1);
    assert_eq!(get_value(bc, 4, &data), 5);
    assert_eq!(get_value(bc, 5, &data), 5);
    assert_eq!(get_value(bc, 6, &data), 5);
    assert_eq!(get_value(bc, 10, &data), 5);
}

#[test]
fn test_smooth_boundary() {
    let data: [i64; 5] = [1, 2, 3, 4, 5];
    let bc = BoundaryCondition::Smooth;
    assert_eq!(bc.get_bc(&data, -2), Some(-1));
    assert_eq!(bc.get_bc(&data, -1), Some(0));
    assert_eq!(bc.get_bc(&data, 0), Some(1));
    assert_eq!(bc.get_bc(&data, 4), Some(5));
    assert_eq!(bc.get_bc(&data, 5), Some(6));
    assert_eq!(bc.get_bc(&data, 6), Some(7));
}

#[test]
fn test_smooth_boundary_parts() {
    let data: [i64; 5] = [1, 2, 3, 4, 5];
    let bc = BoundaryCondition::Smooth;
    assert_eq!(get_value(bc, -2, &data), -1);
    assert_eq!(get_value(bc, -1, &data), 0);
    assert_eq!(get_value(bc, 0, &data), 1);
    assert_eq!(get_value(bc, 4, &data), 5);
    assert_eq!(get_value(bc, 5, &data), 6);
    assert_eq!(get_value(bc, 6, &data), 7);
}

#[test]
fn test_zero_boundary() {
    let data: [i64; 5] = [1, 2, 3, 4, 5];
    let bc = ZeroBoundary {};

    assert_eq!(bc.get_bc(&data, -1), None);
    assert_eq!(bc.get_bc(&data, -10), None);
    assert_eq!(bc.get_bc(&data, 0), Some(1));
    assert_eq!(bc.get_bc(&data, 4), Some(5));
    assert_eq!(bc.get_bc(&data, 5), None);
    assert_eq!(bc.get_bc(&data, 10), None);
}

#[test]
fn test_zero_boundary_parts() {
    let data: [i64; 5] = [1, 2, 3, 4, 5];
    let bc = BoundaryCondition::Zero;
    assert_eq!(get_value(bc, -10, &data), 0);
    assert_eq!(get_value(bc, -1, &data), 0);
    assert_eq!(get_value(bc, 0, &data), 1);
    assert_eq!(get_value(bc, 4, &data), 5);
    assert_eq!(get_value(bc, 5, &data), 0);
    assert_eq!(get_value(bc, 10, &data), 0);
}

#[test]
fn periodic_struct_wraps_both_ways() {
    let data: [i64; 5] = [1, 2, 3, 4, 5];
    let bc = PeriodicBoundary;
    assert_eq!(bc.get_bc(&data, -1), Some(5));
    assert_eq!(bc.get_bc(&data, 7), Some(3));
    assert_eq!(bc.get_bc(&data, -11), Some(5));
    assert_eq!(get_value(bc, -6, &data), 5);
    assert_eq!(get_value(bc, 12, &data), 3);
}

#[test]
fn periodic_extension_repeats_with_period_len() {
    let data: [i64; 4] = [7, -3, 2, 9];
    for bc in [BoundaryCondition::Periodic] {
        for i in -20isize..20 {
            assert_eq!(bc.get_bc(&data, i), bc.get_bc(&data, i + 4));
        }
    }
}

#[test]
fn symmetric_extension_mirrors_about_the_edges() {
    let data: [i64; 5] = [1, 2, 3, 4, 5];
    let bc = BoundaryCondition::Symmetric;
    for i in 0isize..12 {
        assert_eq!(bc.get_bc(&data, -1 - i), bc.get_bc(&data, i));
    }
    for i in -12isize..12 {
        assert_eq!(bc.get_bc(&data, i), bc.get_bc(&data, i + 10));
    }
}

#[test]
fn reflect_extension_mirrors_about_the_edge_samples() {
    let data: [i64; 5] = [1, 2, 3, 4, 5];
    let bc = BoundaryCondition::Reflect;
    for i in 0isize..12 {
        assert_eq!(bc.get_bc(&data, -i), bc.get_bc(&data, i));
    }
}

#[test]
fn boundaries_agree_with_data_inside_the_signal() {
    let data: [i64; 6] = [3, -1, 4, 1, -5, 9];
    let all = [
        BoundaryCondition::Zero,
        BoundaryCondition::Periodic,
        BoundaryCondition::Constant,
        BoundaryCondition::Symmetric,
        BoundaryCondition::Antisymmetric,
        BoundaryCondition::Reflect,
        BoundaryCondition::Antireflect,
        BoundaryCondition::Smooth,
    ];
    for bc in all {
        for i in 0..6 {
            assert_eq!(bc.get_bc(&data, i as isize), Some(data[i]));
            assert_eq!(get_value(bc, i as isize, &data), data[i]);
        }
    }
}

#[test]
fn parts_rebuild_the_extension_for_every_condition() {
    let data: [i64; 6] = [3, -1, 4, 1, -5, 9];
    let all = [
        BoundaryCondition::Periodic,
        BoundaryCondition::Constant,
        BoundaryCondition::Symmetric,
        BoundaryCondition::Antisymmetric,
        BoundaryCondition::Reflect,
        BoundaryCondition::Antireflect,
        BoundaryCondition::Smooth,
    ];
    for bc in all {
        for i in -30isize..30 {
            assert_eq!(bc.get_bc(&data, i), Some(get_value(bc, i, &data)));
        }
    }
    for i in -30isize..30 {
        let v = BoundaryCondition::Zero.get_bc(&data, i).unwrap_or(0);
        assert_eq!(v, get_value(BoundaryCondition::Zero, i, &data));
    }
}

#[test]
fn empty_signal_has_no_extension() {
    let data: [i64; 0] = [];
    assert_eq!(BoundaryCondition::Periodic.get_bc(&data, 3), None);
    assert_eq!(BoundaryCondition::Constant.get_parts(0, -2), vec![]);
}

#[test]
fn antisymmetric_and_constant_values() {
    let data: [i64; 5] = [1, 2, 3, 4, 5];
    assert_eq!(BoundaryCondition::Antisymmetric.get_bc(&data, -1), Some(-1));
    assert_eq!(BoundaryCondition::Antisymmetric.get_bc(&data, 5), Some(-5));
    assert_eq!(BoundaryCondition::Constant.get_bc(&data, -100), Some(1));
    assert_eq!(BoundaryCondition::Constant.get_bc(&data, 100), Some(5));
    assert_eq!(BoundaryCondition::Smooth.get_bc(&data, -3), Some(-2));
    assert_eq!(BoundaryCondition::Smooth.get_bc(&data, 8), Some(9));
}

#[test]
fn parts_defined_marks_overflowing_weights() {
    assert!(!BoundaryCondition::Antireflect.parts_defined(2, isize::MIN + 1));
    assert!(BoundaryCondition::Antireflect.parts_defined(2, isize::MAX));
    assert!(BoundaryCondition::Antireflect.parts_defined(10, -3));
    assert!(!BoundaryCondition::Reflect.parts_defined(5, isize::MIN));
    assert!(BoundaryCondition::Smooth.parts_defined(1, isize::MIN));
    assert!(!PeriodicBoundary.parts_defined(0, 1));
    assert!(ZeroBoundary.parts_defined(3, -7));
}
