use ndwt::iter::chunk_strided_slice::{ChunkStridedSlice, ChunkStridedSliceMut};
use ndwt::iter::slice::{MutStridedSlice, StridedSlice as LaneView};
use ndwt::iter::strided_slice::StridedSliceBase;

fn sum_view(view: &LaneView<usize>) -> usize {
    let mut it = view.iter();
    let mut total = 0;
    while let Some(x) = it.next() {
        total += *x;
    }
    total
}

fn collect_view(view: &LaneView<usize>) -> Vec<usize> {
    let mut it = view.iter();
    let mut out = Vec::new();
    while let Some(x) = it.next() {
        out.push(*x);
    }
    out
}

#[test]
fn test_strided_deref() {
    let n = 80;
    let step = 2;
    let data = (0..n).collect::<Vec<usize>>();

    let slice = StridedSliceBase::from_slice(&data, step);
    let view = LaneView { data: slice.buf, view: slice.parts };

    let expected = data.iter().step_by(step).sum::<usize>();
    assert_eq!(sum_view(&view), expected);

    let mut data = (0..n).collect::<Vec<usize>>();
    let slice = StridedSliceBase::from_mut_slice(&mut data, step);
    let parts = slice.parts;
    let mut view = MutStridedSlice { data: slice.buf, view: parts };
    let mut it = view.iter_mut();
    while let Some(v) = it.next() {
        *v *= 10;
    }
    let actual = sum_view(&LaneView { data: &data, view: parts });

    let expected = data.iter().step_by(step).sum::<usize>();
    assert_eq!(actual, expected);
}

#[test]
fn test_strided_mut_deref() {
    let n = 80;
    let step = 2;
    let mut data = (0..n).collect::<Vec<usize>>();

    let slice = StridedSliceBase::from_mut_slice(&mut data, step);
    let parts = slice.parts;
    let mut view = MutStridedSlice { data: slice.buf, view: parts };
    let mut it = view.iter_mut();
    while let Some(v) = it.next() {
        *v *= 2;
    }

    let collected = collect_view(&LaneView { data: &data, view: parts });
    let expected = data.clone().into_iter().step_by(step).collect::<Vec<_>>();
    assert_eq!(collected, expected);
}

#[test]
fn test_strided_as_slice() {
    let n = 80;
    let step = 1;
    let data = (0..n).collect::<Vec<usize>>();

    let slice = StridedSliceBase::from_slice(&data, step);

    let expected = data.iter().sum::<usize>();
    let plain: &[usize] = slice.parts.as_slice(slice.buf).unwrap(); // step size in this test is 1
    assert_eq!(plain.iter().sum::<usize>(), expected);
}

#[test]
fn test_strided_as_mut_slice_checked() {
    let n = 80;
    let step = 1;
    let mut data = (0..n).collect::<Vec<usize>>();

    let slice = StridedSliceBase::from_mut_slice(&mut data, step);
    let parts = slice.parts;
    let plain: &mut [usize] = parts.as_mut_slice(slice.buf).unwrap();
    plain.iter_mut().for_each(|v| *v *= 2);

    let expected = (0..n).map(|v| v * 2).collect::<Vec<_>>();
    assert_eq!(data, expected);
}

#[test]
fn test_strided_as_slice_rejects_gaps() {
    let data = (0..10).collect::<Vec<usize>>();
    let slice = StridedSliceBase::from_slice(&data, 2);
    assert!(slice.parts.as_slice(slice.buf).is_none());
}

#[test]
fn test_strided_chunk_as_chunks() {
    const N: usize = 4;
    let n = 50;
    let shape = [n, N];
    let n_total: usize = shape.iter().product();

    let data = (0..n_total).collect::<Vec<usize>>();

    let slice = ChunkStridedSlice::<_, N>::from_slice(&data, &shape, 0, 0);

    assert_eq!(slice.parts.len(), n);

    let plain: &[usize] = slice.parts.as_slice(slice.buf).unwrap();
    // The chunk points to a slice of the same size
    let chunks: Vec<&[usize]> = plain.chunks_exact(N).collect();
    let expected: Vec<&[usize]> = data.chunks_exact(N).collect();
    assert_eq!(chunks, expected);
}

#[test]
fn test_strided_chunk_as_chunks_mut() {
    const N: usize = 4;
    let n = 50;
    let shape = [n, N];
    let n_total: usize = shape.iter().product();

    let data = (0..n_total).map(|i| i * 2).collect::<Vec<usize>>();

    let mut data_mut = (0..n_total).collect::<Vec<usize>>();

    let slice = ChunkStridedSliceMut::<_, N>::from_mut_slice(&mut data_mut, &shape, 0, 0);

    assert_eq!(slice.parts.len(), n);

    let parts = slice.parts;
    let plain: &mut [usize] = parts.as_mut_slice(slice.buf).unwrap();
    plain.chunks_exact_mut(N).flat_map(|v| v.iter_mut()).for_each(|v| *v *= 2);

    assert_eq!(data_mut, data);
}
