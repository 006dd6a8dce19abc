use ndwt::dwt::driver::{checked_transformed_axis_len, get_outshape, transformed_axis_len};
use ndwt::dwt::{get_offset, get_outlen};
use ndwt::{max_level, Wavelets};

#[test]
fn max_level_counts_halvings() {
    assert_eq!(max_level(2, 10), 4);
    assert_eq!(max_level(4, 10), 1);
    assert_eq!(max_level(4, 2), 0);
    assert_eq!(max_level(0, 100), 0);
    assert_eq!(max_level(6, 5), 0);
}

#[test]
fn wavelet_widths_and_levels() {
    assert_eq!(Wavelets::Daubechies1.width(), 2);
    assert_eq!(Wavelets::Daubechies2.width(), 4);
    assert_eq!(Wavelets::Daubechies2.max_level(10), 1);
    assert_eq!(Wavelets::Daubechies1.max_level(10), 4);
}

#[test]
fn subband_lengths() {
    assert_eq!(get_outlen(4, 10), 7);
    assert_eq!(get_outlen(4, 11), 7);
    assert_eq!(get_outlen(2, 7), 4);
    assert_eq!(get_offset(6), 2);
}

#[test]
fn output_shapes() {
    assert_eq!(get_outshape(&[10, 7], &[0], 2, 4, false), vec![17, 7]);
    assert_eq!(get_outshape(&[10, 7], &[0, 0], 2, 4, false), vec![17, 7]);
    assert_eq!(get_outshape(&[10, 7], &[0, 1], 2, 4, true), vec![10, 7]);
    assert_eq!(get_outshape(&[10, 7], &[1], 0, 4, false), vec![10, 0]);
}

#[test]
fn checked_transformed_len_matches_and_detects_overflow() {
    for width in [2usize, 4, 6, 8] {
        for n in [0usize, 1, 7, 16, 33] {
            for level in 0..4 {
                assert_eq!(
                    checked_transformed_axis_len(width, n, level),
                    Some(transformed_axis_len(width, n, level))
                );
            }
        }
    }
    assert_eq!(checked_transformed_axis_len(4, 33, 1), Some(36));
    assert_eq!(checked_transformed_axis_len(8, usize::MAX, 1), None);
}
