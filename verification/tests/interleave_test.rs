use itertools::Itertools;
use ndwt::iter::chunk_strided_slice::ChunkStridedSliceRef;
use ndwt::iter::slice::LanesIterator;
use ndwt::utils::{deinterleave, deinterleave_2d, deinterleave_nd, interleave, stride_from_shape};

fn ref_deinterleave_nd(x: &[i64], shape: &[usize]) -> Vec<i64> {
    let mut out = x.to_vec();

    for ax in 0..shape.len() {
        let n = shape[ax];
        let ne = (n + 1) / 2;
        let no = n / 2;

        let mut work_e = vec![0; ne];
        let mut work_o = vec![0; no];

        let mut lanes = out.as_mut_slice().iter_lanes_mut(shape, ax);
        while let Some(lane) = lanes.next() {
            lane.deinterleave(&out, &mut work_e, &mut work_o);
            lane.stack(&mut out, &work_e, &work_o, 0);
        }
    }
    out
}

fn ref_deinterleave_chunk_nd(x: &[i64], shape: &[usize]) -> Vec<i64> {
    let mut out = x.to_vec();

    const N: usize = 4;

    for ax in 0..shape.len() {
        let n = shape[ax];
        let ne = (n + 1) / 2;
        let no = n / 2;

        let (mut chunks, mut rem) = out.as_mut_slice().iter_lane_chunks_mut::<4>(shape, ax);

        let mut work_e: [Vec<i64>; N] = core::array::from_fn(|_| vec![0; ne]);
        let mut work_o: [Vec<i64>; N] = core::array::from_fn(|_| vec![0; no]);

        while let Some(chunk) = chunks.next() {
            chunk.deinterleave(&out, &mut work_e, &mut work_o);
            chunk.stack(&mut out, &work_e, &work_o, 0);
        }

        let mut work_e = vec![0; ne];
        let mut work_o = vec![0; no];

        while let Some(lane) = rem.next() {
            lane.deinterleave(&out, &mut work_e, &mut work_o);
            lane.stack(&mut out, &work_e, &work_o, 0);
        }
    }
    out
}

#[test]
fn test_deinterleave_2d() {
    let ns = [10, 11];

    for dim in [1, 2, 3, 4, 5] {
        for n in ns {
            let shape = vec![n; dim];
            let n_total = shape.iter().product();
            let x = (0..n_total as i64).collect::<Vec<_>>();

            let mut out = vec![0; n_total];
            deinterleave_nd(&x, &mut out, &shape);

            let desired = ref_deinterleave_nd(&x, &shape);

            assert_eq!(out, desired);
        }
    }
}

#[test]
fn test_deinterleave_chunked_2d() {
    let ns = [10, 11];

    for dim in [1, 2, 3, 4, 5] {
        for n in ns {
            let shape = vec![n; dim];
            let n_total = shape.iter().product();
            let x = (0..n_total as i64).collect::<Vec<_>>();

            let mut out = vec![0; n_total];
            deinterleave_nd(&x, &mut out, &shape);

            let desired = ref_deinterleave_chunk_nd(&x, &shape);

            assert_eq!(out, desired);
        }
    }
}

#[test]
fn deinterleave_then_interleave_round_trips() {
    for n in [0usize, 1, 2, 3, 20, 21, 22, 32, 423, 553] {
        let x: Vec<i64> = (0..n as i64).map(|v| v * 7 - 3).collect();
        let mut evens = vec![0; (n + 1) / 2];
        let mut odds = vec![0; n / 2];
        deinterleave(&x, &mut evens, &mut odds);
        for i in 0..evens.len() {
            assert_eq!(evens[i], x[2 * i]);
        }
        for i in 0..odds.len() {
            assert_eq!(odds[i], x[2 * i + 1]);
        }
        let mut y = vec![0; n];
        interleave(&evens, &odds, &mut y);
        assert_eq!(y, x);
    }
}

#[test]
fn deinterleave_2d_moves_even_rows_and_columns_first() {
    let x: Vec<i64> = (0..12).collect();
    let mut out = vec![0; 12];
    deinterleave_2d(&x, &mut out, &[3, 4]);
    assert_eq!(out, vec![0, 2, 1, 3, 8, 10, 9, 11, 4, 6, 5, 7]);
}

#[test]
fn deinterleave_nd_on_one_axis_is_deinterleave() {
    let x: Vec<i64> = (0..7).collect();
    let mut out = vec![0; 7];
    deinterleave_nd(&x, &mut out, &[7]);
    assert_eq!(out, vec![0, 2, 4, 6, 1, 3, 5]);
}

#[test]
fn row_major_strides() {
    assert_eq!(stride_from_shape(&[2, 3, 4]), vec![12, 4, 1]);
    assert_eq!(stride_from_shape(&[5]), vec![1]);
    assert_eq!(stride_from_shape(&[]), Vec::<usize>::new());
}

#[test]
fn chunk_views_read_and_write_rows() {
    // Two lanes (columns 1 and 2) of a 4 x 3 row-major array.
    let mut data: Vec<i64> = (0..12).collect();
    let view = ChunkStridedSliceRef::<2> { start: 0, offsets: [1, 2], length: 4, stride: 3 };
    assert!(view.is_chunk_contiguous());
    assert!(!view.is_contiguous());
    assert_eq!(view.len(), 4);
    assert!(!view.is_empty());
    assert_eq!(view.as_ptr(), 0);
    assert_eq!(view.get(&data, (2, 1)), Some(&8));
    assert_eq!(view.get(&data, (4, 0)), None);

    let mut evens = [[0i64; 2]; 2];
    let mut odds = [[0i64; 2]; 2];
    view.deinterleave_arrays(&data, &mut evens, &mut odds);
    assert_eq!(evens, [[1, 2], [7, 8]]);
    assert_eq!(odds, [[4, 5], [10, 11]]);

    let mut first = [[0i64; 2]; 1];
    let mut second = [[0i64; 2]; 2];
    view.split_arrays(&data, &mut first, &mut second);
    assert_eq!(first, [[1, 2]]);
    assert_eq!(second, [[7, 8], [10, 11]]);

    view.interleave_arrays(&mut data, &[[-1, -2], [-3, -4]], &[[-5, -6], [-7, -8]]);
    assert_eq!(data, vec![0, -1, -2, 3, -5, -6, 6, -3, -4, 9, -7, -8]);

    view.stack_arrays(&mut data, &[[100, 101]], &[[200, 201]], 0);
    assert_eq!(data, vec![0, 100, 101, 3, 0, 0, 6, 0, 0, 9, 200, 201]);

    let src: [Vec<i64>; 2] = [vec![1, 2], vec![3, 4]];
    view.fill_from(&mut data, &src, 0);
    assert_eq!(data, vec![0, 1, 3, 3, 2, 4, 6, 0, 0, 9, 0, 0]);

    let mut sink: [Vec<i64>; 2] = [vec![0; 3], vec![0; 3]];
    view.pour_into(&data, &mut sink);
    assert_eq!(sink, [vec![1, 2, 0], vec![3, 4, 0]]);

    let contiguous = ChunkStridedSliceRef::<3> { start: 0, offsets: [0, 1, 2], length: 4, stride: 3 };
    assert!(contiguous.is_contiguous());
}

#[test]
fn test_interleave_inplace() {
    for n in [20usize, 21, 22, 32, 423, 553] {
        let evens = (0..n).step_by(2).collect_vec();
        let odds = (1..n).step_by(2).collect_vec();

        let mut x = evens.iter().chain(odds.iter()).cloned().collect::<Vec<_>>();

        ndwt::utils::interleave_inplace(&mut x);
        assert_eq!(x, (0..n).collect_vec());
    }
}

#[test]
fn interleave_inplace_small_and_power_of_three_lengths() {
    for n in [0usize, 1, 2, 3, 4, 5, 8, 9, 10, 26, 27, 28, 80, 81, 82, 243, 728, 729, 730] {
        let ne = (n + 1) / 2;
        let mut x: Vec<usize> = (0..ne).map(|i| 2 * i).chain((0..n / 2).map(|i| 2 * i + 1)).collect();
        ndwt::utils::interleave_inplace(&mut x);
        assert_eq!(x, (0..n).collect::<Vec<_>>());
    }
}

#[test]
fn test_interleave() {
    for n in [20usize, 21, 22, 32, 423, 553] {
        let ns = (n + 1) / 2;
        let nd = n / 2;

        let s = (0..ns).collect_vec();
        let d = (ns..ns + nd).collect_vec();

        let mut out = vec![0; n];

        interleave(&s, &d, &mut out);

        let expected = (0..ns).interleave(ns..ns + nd).collect_vec();
        assert_eq!(out, expected);
    }
}

#[test]
fn test_deinterleave() {
    for n in [20usize, 21, 22, 32, 423, 553] {
        let ns = (n + 1) / 2;
        let nd = n / 2;

        let mut s = vec![0; ns];
        let mut d = vec![0; nd];

        let inp = (0..ns).interleave(ns..ns + nd).collect_vec();

        deinterleave(&inp, &mut s, &mut d);

        assert_eq!(s, (0..ns).collect_vec());
        assert_eq!(d, (ns..ns + nd).collect_vec());
    }
}
