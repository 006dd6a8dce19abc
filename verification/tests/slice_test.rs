use ndwt::iter::chunk_strided_slice::ChunkStridedSliceRef;
use ndwt::iter::slice::{
    unravel, unravel_array, ChunkStridedSlice, LaneSliceChunkIter, LaneSliceIter, LanesIterator,
    MutChunkStridedSlice, MutStridedSlice, ParallelLanesIterator, StridedSlice,
};
use ndwt::iter::strided_slice::StridedSliceRef;

fn collect<T: Copy>(lane: &StridedSlice<T>) -> Vec<T> {
    let mut it = lane.iter();
    let mut v = Vec::new();
    while let Some(x) = it.next() {
        v.push(*x);
    }
    v
}

fn collect_lanes<T: Copy>(mut it: LaneSliceIter<T>) -> Vec<Vec<T>> {
    let mut out = Vec::new();
    while let Some(lane) = it.next() {
        out.push(collect(&lane));
    }
    out
}

fn rows_of<T: Copy, const N: usize>(chunk: &ChunkStridedSlice<T, N>) -> Vec<Vec<T>> {
    let mut rows = Vec::new();
    let mut it = chunk.iter();
    while let Some(mut row) = it.next() {
        assert_eq!(row.len(), N);
        let mut vals = Vec::new();
        while let Some(v) = row.next() {
            vals.push(*v);
        }
        rows.push(vals);
    }
    rows
}

fn strides_of(shape: &[usize]) -> Vec<usize> {
    (0..shape.len()).map(|i| shape.iter().skip(i + 1).product()).collect()
}

fn lane_offset(shape: &[usize], axis: usize, i_lane: usize) -> usize {
    let strides = strides_of(shape);
    let shape_sub: Vec<usize> = (0..shape.len()).filter(|i| *i != axis).map(|i| shape[i]).collect();
    let inds_sub = unravel(i_lane, &shape_sub);
    strides
        .iter()
        .enumerate()
        .filter(|(i, _)| *i != axis)
        .zip(inds_sub)
        .map(|((_, off), i_ax)| i_ax * off)
        .sum()
}

#[test]
fn test_strided() {
    let arr = [1, 2, 3, 4, 5, 6];
    let strided = StridedSlice {
        data: &arr,
        view: StridedSliceRef { start: 0, stride: 2, length: arr.len() / 2 },
    };

    assert_eq!(collect(&strided), vec![1, 3, 5]);

    let strided = StridedSlice {
        data: &arr[1..],
        view: StridedSliceRef { start: 0, stride: 2, length: arr.len() / 2 },
    };

    assert_eq!(collect(&strided), vec![2, 4, 6]);
}

#[test]
fn test_strided_lane_iter_2d() {
    let arr = [1, 2, 3, 4, 5, 6];
    let shape = [3, 2];
    let mut it = arr.iter_lanes(&shape, 0);
    let mut i_lane = 0;
    while let Some(lane) = it.next() {
        assert_eq!(lane.len(), shape[0]);
        let collected = collect(&lane);
        if i_lane == 0 {
            assert_eq!(collected, [1, 3, 5]);
        } else if i_lane == 1 {
            assert_eq!(collected, [2, 4, 6]);
        } else {
            panic!("should only be two lanes along axis 0")
        }
        i_lane += 1;
    }

    let mut it = arr.iter_lanes(&shape, 1);
    let mut i_lane = 0;
    while let Some(lane) = it.next() {
        assert_eq!(lane.len(), shape[1]);
        let collected = collect(&lane);
        if i_lane == 0 {
            assert_eq!(collected, [1, 2]);
        } else if i_lane == 1 {
            assert_eq!(collected, [3, 4]);
        } else if i_lane == 2 {
            assert_eq!(collected, [5, 6]);
        } else {
            panic!("should only be three lanes along axis 0")
        }
        i_lane += 1;
    }
}

#[test]
fn test_strided_lane_iter_3d() {
    let shape = [3, 4, 5];
    let n_t = shape.iter().product();
    let arr = (0..n_t).collect::<Vec<usize>>();

    for (i_lane, collected) in collect_lanes(arr.iter_lanes(&shape, 0)).into_iter().enumerate() {
        assert_eq!(collected.len(), shape[0]);
        let base = vec![0 + i_lane, 20 + i_lane, 40 + i_lane];
        assert_eq!(collected, base);
    }

    for (i_lane, collected) in collect_lanes(arr.iter_lanes(&shape, 1)).into_iter().enumerate() {
        assert_eq!(collected.len(), shape[1]);
        let i_back = i_lane % shape[2];
        let i_front = i_lane / shape[2];
        let ind = i_front * shape[1] * shape[2] + i_back;
        let base = vec![0 + ind, 5 + ind, 10 + ind, 15 + ind];
        assert_eq!(collected, base);
    }

    for (i_lane, collected) in collect_lanes(arr.iter_lanes(&shape, 2)).into_iter().enumerate() {
        assert_eq!(collected.len(), shape[2]);
        let offset = i_lane * shape[2];
        let base = (0..shape[2]).map(|i| i + offset).collect::<Vec<_>>();
        assert_eq!(collected, base);
    }
}

#[test]
fn test_strided_lane_iter_4d() {
    let shape = [3, 4, 5, 6];
    let n_t = shape.iter().product();
    let arr = (0..n_t).collect::<Vec<usize>>();
    let strides = strides_of(&shape);

    for axis in 0..shape.len() {
        let shape_sub: [usize; 3] = (0..4)
            .filter(|i| *i != axis)
            .map(|i| shape[i])
            .collect::<Vec<_>>()
            .try_into()
            .unwrap();
        for (i_lane, collected) in collect_lanes(arr.iter_lanes(&shape, axis)).into_iter().enumerate()
        {
            assert_eq!(collected.len(), shape[axis]);

            let inds_sub = unravel_array(i_lane, &shape_sub);
            let offset: usize = strides
                .iter()
                .enumerate()
                .filter(|(i, _)| *i != axis)
                .zip(inds_sub)
                .map(|((_, off), i_ax)| i_ax * off)
                .sum();

            let base = (0..shape[axis]).map(|i| strides[axis] * i + offset).collect::<Vec<_>>();
            assert_eq!(collected, base);
        }
    }
}

fn check_strided_mut(shape: &[usize]) {
    let n_t: usize = shape.iter().product();
    let mut arr = vec![0i64; n_t];

    for axis in 0..shape.len() {
        let mut index = 0i64;
        let mut it = arr.iter_lanes_mut(shape, axis);
        while let Some(lane) = it.next() {
            assert_eq!(lane.len(), shape[axis]);
            let vals: Vec<i64> = (0..lane.len() as i64).map(|k| index + k).collect();
            index += lane.len() as i64;
            lane.fill_from(&mut arr, &vals, 0);
        }

        let collected = collect_lanes(arr.iter_lanes(shape, axis)).concat();

        assert_eq!(collected, (0..n_t as i64).collect::<Vec<_>>());
    }
}

#[test]
fn test_strided_mut_2d() {
    check_strided_mut(&[3, 2]);
}

#[test]
fn test_strided_mut_3d() {
    check_strided_mut(&[3, 4, 5]);
}

#[test]
fn test_strided_mut_4d() {
    check_strided_mut(&[3, 4, 5, 6]);
}

#[test]
fn test_strided_mut() {
    let mut arr = [0; 6];
    let stride = 2;
    let n = arr.len() / stride;
    let mut strided = MutStridedSlice {
        data: &mut arr,
        view: StridedSliceRef { start: 0, stride, length: n },
    };
    let mut it = strided.iter_mut();
    while let Some(v) = it.next() {
        *v = 1;
    }
    assert_eq!(arr, [1, 0, 1, 0, 1, 0]);

    let mut strided = MutStridedSlice {
        data: &mut arr[1..],
        view: StridedSliceRef { start: 0, stride, length: n },
    };
    let mut it = strided.iter_mut();
    while let Some(v) = it.next() {
        *v = 2;
    }
    assert_eq!(arr, [1, 2, 1, 2, 1, 2]);
}

#[test]
fn test_lane_chunks_2d() {
    const N: usize = 4;
    let shape = [6, 11];
    let n_total = shape.iter().product();
    let arr = (0..n_total).collect::<Vec<usize>>();

    let (mut iter_chunks, iter_rem) = arr.iter_lane_chunks::<N>(&shape, 0);
    let n_chunks = iter_chunks.len();
    let n_rem = iter_rem.len();
    assert_eq!(n_chunks, shape[1] / N);
    assert_eq!(n_rem, shape[1] % N);

    let mut i_chunk = 0;
    while let Some(chunk) = iter_chunks.next() {
        assert_eq!(chunk.len(), shape[0]);
        for (i_row, vals) in rows_of(&chunk).into_iter().enumerate() {
            let goal: Vec<usize> = (0..N).map(|i_col| i_chunk * N + i_col + i_row * shape[1]).collect();
            assert_eq!(vals, goal);
        }
        i_chunk += 1;
    }
    for (i_lane, val) in collect_lanes(iter_rem).into_iter().enumerate() {
        let col_ind = n_chunks * N + i_lane;
        assert_eq!(val.len(), shape[0]);
        let goal = (0..shape[0]).map(|i_row| i_row * shape[1] + col_ind).collect::<Vec<_>>();
        assert_eq!(val, goal);
    }

    let (mut iter_chunks, iter_rem) = arr.iter_lane_chunks::<N>(&shape, 1);
    let n_chunks = iter_chunks.len();
    let n_rem = iter_rem.len();
    assert_eq!(n_chunks, shape[0] / N);
    assert_eq!(n_rem, shape[0] % N);

    let mut i_chunk = 0;
    while let Some(chunk) = iter_chunks.next() {
        assert_eq!(chunk.len(), shape[1]);
        for (i_col, vals) in rows_of(&chunk).into_iter().enumerate() {
            assert_eq!(vals.len(), 4);
            let goal: Vec<usize> = (0..N).map(|i_row| i_col + (i_chunk * N + i_row) * shape[1]).collect();
            assert_eq!(vals, goal);
        }
        i_chunk += 1;
    }
    for (i_lane, val) in collect_lanes(iter_rem).into_iter().enumerate() {
        let i_row = n_chunks * N + i_lane;
        assert_eq!(val.len(), shape[1]);
        let goal = (0..shape[1]).map(|i_col| i_row * shape[1] + i_col).collect::<Vec<_>>();
        assert_eq!(val, goal);
    }
}

fn check_chunks(iter_chunks: LaneSliceChunkIter<usize, 4>, iter_rem: LaneSliceIter<usize>, shape: &[usize], ax: usize, n_lanes: usize) {
    const N: usize = 4;
    let strides = strides_of(shape);
    let mut iter_chunks = iter_chunks;
    let n_chunks = iter_chunks.len();
    let n_rem = iter_rem.len();
    assert_eq!(n_chunks, n_lanes / N);
    assert_eq!(n_rem, n_lanes % N);

    let mut i_chunk = 0;
    while let Some(chunk) = iter_chunks.next() {
        assert_eq!(chunk.len(), shape[ax]);
        for (i_along, vals) in rows_of(&chunk).into_iter().enumerate() {
            let goal = (0..N)
                .map(|i_l| strides[ax] * i_along + lane_offset(shape, ax, i_chunk * N + i_l))
                .collect::<Vec<_>>();
            assert_eq!(vals, goal);
        }
        i_chunk += 1;
    }
    for (i_rem, vals) in collect_lanes(iter_rem).into_iter().enumerate() {
        let i_lane = i_rem + n_chunks * N;
        assert_eq!(vals.len(), shape[ax]);
        let offset = lane_offset(shape, ax, i_lane);
        let goal = (0..shape[ax]).map(|i_along| strides[ax] * i_along + offset).collect::<Vec<_>>();
        assert_eq!(vals, goal);
    }
}

#[test]
fn slice_test_lane_chunks_nd() {
    const N: usize = 4;
    let shape = [5, 6, 7, 8, 9];
    let n_total: usize = shape.iter().product();
    let arr = (0..n_total).collect::<Vec<usize>>();

    for ax in 0..shape.len() {
        let n_along = shape[ax];
        let n_above: usize = shape.iter().take(ax).product();
        let n_below: usize = shape.iter().skip(ax + 1).product();
        let n_lanes = n_total / n_along;
        assert_eq!(n_above * n_below, n_lanes);

        // sequential chunks
        let (iter_chunks, iter_rem) = arr.iter_lane_chunks::<N>(&shape, ax);
        check_chunks(iter_chunks, iter_rem, &shape, ax, n_lanes);

        // the same chunks through the splittable ranges
        let (par_chunks, par_rem) = arr.par_iter_lane_chunks::<N>(&shape, ax);
        assert_eq!(par_chunks.len(), n_lanes / N);
        assert_eq!(par_rem.len(), n_lanes % N);
        check_chunks(par_chunks.into_iter(), par_rem.into_iter(), &shape, ax, n_lanes);
    }
}

fn write_chunks_nd(out: &mut Vec<usize>, shape: &[usize], ax: usize, n_lanes: usize) {
    const N: usize = 4;
    let strides = strides_of(shape);
    let (mut iter_chunks, mut iter_rem) = out.as_mut_slice().iter_lane_chunks_mut::<N>(shape, ax);
    let n_chunks = iter_chunks.len();
    let n_rem = iter_rem.len();
    assert_eq!(n_chunks, n_lanes / N);
    assert_eq!(n_rem, n_lanes % N);

    let mut i_chunk = 0;
    while let Some(chunk) = iter_chunks.next() {
        assert_eq!(chunk.len(), shape[ax]);
        for i_along in 0..chunk.len() {
            for i_l in 0..N {
                let i_lane = i_chunk * N + i_l;
                let target = chunk.start + chunk.offsets[i_l] + i_along * chunk.stride;
                out[target] = strides[ax] * i_along + lane_offset(shape, ax, i_lane);
            }
        }
        i_chunk += 1;
    }

    let mut i_rem = 0;
    while let Some(lane) = iter_rem.next() {
        let i_lane = i_rem + n_chunks * N;
        assert_eq!(lane.len(), shape[ax]);
        let offset = lane_offset(shape, ax, i_lane);
        for i_along in 0..lane.len() {
            out[lane.start + i_along * lane.stride] = strides[ax] * i_along + offset;
        }
        i_rem += 1;
    }
}

#[test]
fn slice_test_lane_chunks_mut_nd() {
    let shape = [5, 6, 7, 8, 9];
    let n_total: usize = shape.iter().product();
    let arr = (0..n_total).collect::<Vec<usize>>();

    for ax in 0..shape.len() {
        let n_along = shape[ax];
        let n_above: usize = shape.iter().take(ax).product();
        let n_below: usize = shape.iter().skip(ax + 1).product();
        let n_lanes = n_total / n_along;
        assert_eq!(n_above * n_below, n_lanes);

        let mut out = vec![0; n_total];
        write_chunks_nd(&mut out, &shape, ax, n_lanes);
        assert_eq!(out, arr);

        // the same lanes through the splittable ranges
        let mut out = vec![0; n_total];
        let (par_chunks, par_rem) = out.as_mut_slice().par_iter_lane_chunks_mut::<4>(&shape, ax);
        assert_eq!(par_chunks.len(), n_lanes / 4);
        assert_eq!(par_rem.len(), n_lanes % 4);
        let (first, second) = par_chunks.split_at(par_chunks_half(n_lanes / 4));
        let strides = strides_of(&shape);
        let mut i_chunk = 0;
        for range in [first, second] {
            let mut it = range.into_iter();
            while let Some(chunk) = it.next() {
                for i_along in 0..chunk.length {
                    for i_l in 0..4 {
                        let target = chunk.offsets[i_l] + i_along * chunk.stride;
                        out[target] = strides[ax] * i_along + lane_offset(&shape, ax, i_chunk * 4 + i_l);
                    }
                }
                i_chunk += 1;
            }
        }
        let mut it = par_rem.into_iter();
        let mut i_lane = (n_lanes / 4) * 4;
        while let Some(lane) = it.next() {
            for i_along in 0..lane.length {
                out[lane.start + i_along * lane.stride] = strides[ax] * i_along + lane_offset(&shape, ax, i_lane);
            }
            i_lane += 1;
        }
        assert_eq!(out, arr);
    }
}

fn par_chunks_half(n: usize) -> usize {
    n / 2
}

#[test]
fn test_lane_iter_4d() {
    let shape = [3, 4, 5, 6];
    let n_t = shape.iter().product();
    let arr = (0..n_t).collect::<Vec<usize>>();
    let strides = strides_of(&shape);

    for axis in 0..shape.len() {
        let lanes = arr.par_iter_lanes(&shape, axis);
        let n = lanes.len();
        let (first, second) = lanes.split_at(n / 3);
        let mut i_lane = 0;
        for part in [first, second] {
            for collected in collect_lanes(part.into_iter()) {
                assert_eq!(collected.len(), shape[axis]);
                let offset = lane_offset(&shape, axis, i_lane);
                let base = (0..shape[axis]).map(|i| strides[axis] * i + offset).collect::<Vec<_>>();
                assert_eq!(collected, base);
                i_lane += 1;
            }
        }
        assert_eq!(i_lane, n);
    }
}

#[test]
fn test_lane_iter_mut_4d() {
    let shape = [3, 4, 5, 6];
    let n_t: usize = shape.iter().product();
    let mut arr = vec![0i64; n_t];

    for axis in 0..shape.len() {
        let lanes = arr.as_mut_slice().par_iter_lanes_mut(&shape, axis);
        let n = lanes.len();
        let (first, second) = lanes.split_at(n / 2);
        let mut lane_ind = 0usize;
        for part in [first, second] {
            let mut it = part.into_iter();
            while let Some(lane) = it.next() {
                assert_eq!(lane.len(), shape[axis]);
                let index = (lane_ind * shape[axis]) as i64;
                let vals: Vec<i64> = (0..shape[axis] as i64).map(|ii| index + ii).collect();
                lane.fill_from(&mut arr, &vals, 0);
                lane_ind += 1;
            }
        }

        let collected = collect_lanes(arr.iter_lanes(&shape, axis)).concat();
        assert_eq!(collected, (0..n_t as i64).collect::<Vec<_>>());
    }
}

#[test]
fn lane_iteration_from_both_ends_meets_in_the_middle() {
    let shape = [2, 3, 4];
    let arr = (0..24).collect::<Vec<usize>>();
    let mut it = arr.iter_lanes(&shape, 1);
    assert_eq!(it.len(), 8);
    let first = it.next().unwrap();
    let last = it.next_back().unwrap();
    assert_eq!(collect(&first), vec![0, 4, 8]);
    assert_eq!(collect(&last), vec![15, 19, 23]);
    assert_eq!(it.len(), 6);
    let mut rest = Vec::new();
    while let Some(l) = it.next_back() {
        rest.push(collect(&l)[0]);
    }
    assert_eq!(rest, vec![14, 13, 12, 3, 2, 1]);
    assert!(it.next().is_none());
}

#[test]
fn chunk_iteration_from_the_back_takes_the_last_lane_first() {
    let shape = [3, 8];
    let arr = (0..24).collect::<Vec<usize>>();
    let (mut chunks, rem) = arr.iter_lane_chunks::<2>(&shape, 0);
    assert_eq!(rem.len(), 0);
    let back = chunks.next_back().unwrap();
    assert_eq!(rows_of(&back)[0], vec![7, 6]);
    let front = chunks.next().unwrap();
    assert_eq!(rows_of(&front)[0], vec![0, 1]);
    assert_eq!(chunks.len(), 2);
}

#[test]
fn strided_get_and_element_iteration() {
    let arr = [10, 11, 12, 13, 14, 15, 16];
    let s = StridedSlice { data: &arr, view: StridedSliceRef { start: 1, length: 2, stride: 3 } };
    assert_eq!(s.get(0), Some(&11));
    assert_eq!(s.get(1), Some(&14));
    assert_eq!(s.get(2), None);
    let mut it = s.iter();
    assert_eq!(it.next_back(), Some(&14));
    assert_eq!(it.len(), 1);
    assert_eq!(it.next(), Some(&11));
    assert_eq!(it.next(), None);
}

#[test]
fn unravel_is_row_major() {
    assert_eq!(unravel(0, &[2, 3, 4]), vec![0, 0, 0]);
    assert_eq!(unravel(23, &[2, 3, 4]), vec![1, 2, 3]);
    assert_eq!(unravel(13, &[2, 3, 4]), vec![1, 0, 1]);
    assert_eq!(unravel_array(7, &[3, 2]), [0, 1]);
}

#[test]
fn mutable_chunk_rows_write_through() {
    // lanes 0 and 1 of a 3 x 2 row-major array, read row by row
    let mut buf: Vec<i64> = (0..6).collect();
    let view = ChunkStridedSliceRef::<2> { start: 0, offsets: [0, 1], length: 3, stride: 2 };
    let mut chunk = MutChunkStridedSlice { data: &mut buf, view };
    {
        let mut rows = chunk.iter_mut();
        assert_eq!(rows.len(), 3);
        let mut row_index = 0;
        while let Some(mut row) = rows.next() {
            assert_eq!(row.len(), 2);
            while let Some(x) = row.next() {
                *x = *x * 10 + row_index;
            }
            row_index += 1;
        }
        assert!(rows.next().is_none());
    }
    {
        let mut rows = chunk.iter_mut();
        let mut last = rows.next_back().unwrap();
        *last.next().unwrap() += 1;
    }
    let mut read = chunk.iter();
    let first = read.next().unwrap();
    assert_eq!(first.len(), 2);
    assert_eq!(buf, vec![0, 10, 21, 31, 43, 52]);
}

#[test]
fn simd_scatter_writes_through_each_reference() {
    let group = ndwt::utils::simd::Simd { arr: [7u8, 9u8, 11u8] };
    let (mut a, mut b, mut c) = (0u8, 0u8, 0u8);
    group.scatter([&mut a, &mut b, &mut c]);
    assert_eq!((a, b, c), (7, 9, 11));
}
