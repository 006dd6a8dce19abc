//! Chunked strided views of flat buffers.
//!
//! [`ChunkStridedSliceRef`] describes `N` lanes of a flat buffer that advance together:
//! element `(i, j)` (position `i` of lane `j`) is buffer element
//! `start + offsets[j] + i * stride`.  Reading the `N` lanes position by position yields
//! rows of `N` values, which is how SIMD code gathers from non-contiguous memory.
use crate::iter::slice::{
    as_ints, dot_exec, lane_layout, lane_of, lanes_ok, lemma_lanes_ok_from_len,
    lemma_lanes_partition, row_strides, unravel,
};
use crate::utils::{evens_of, interleaved, odds_of, shape_prod, stride_from_shape};
use vstd::prelude::*;

verus! {

/// Non-owning view of `N` strided lanes of a flat buffer sharing a length and a stride.
#[derive(Clone, Copy, Debug)]
pub struct ChunkStridedSliceRef<const N: usize> {
    /// Buffer index that the lane offsets are measured from.
    pub start: usize,
    /// Offset of the first element of each lane from `start`.
    pub offsets: [usize; N],
    /// Number of positions (rows) in each lane.
    pub length: usize,
    /// Distance in the buffer between consecutive positions of a lane.
    pub stride: usize,
}

impl<const N: usize> ChunkStridedSliceRef<N> {
    /// Buffer index of position `i` of lane `j`.
    pub open spec fn index_of(self, i: int, j: int) -> int {
        self.start + self.offsets@[j] + i * self.stride
    }

    /// Every element of the view lies inside a buffer of length `n`.
    pub open spec fn in_bounds(self, n: int) -> bool {
        forall|i: int, j: int|
            0 <= i < self.length && 0 <= j < N ==> #[trigger] self.index_of(i, j) < n
    }

    /// Different elements of the view are different buffer entries.
    pub open spec fn distinct(self) -> bool {
        forall|i1: int, j1: int, i2: int, j2: int|
            0 <= i1 < self.length && 0 <= j1 < N && 0 <= i2 < self.length && 0 <= j2 < N && (i1
                != i2 || j1 != j2) ==> #[trigger] self.index_of(i1, j1) != #[trigger] self.index_of(
                i2,
                j2,
            )
    }

    /// The `N` elements at position `i`, read from `data`.
    pub open spec fn row<T>(self, data: Seq<T>, i: int) -> Seq<T> {
        Seq::new(N as nat, |j: int| data[self.index_of(i, j)])
    }

    /// Whether buffer index `p` is an element of one of the first `rows` positions.
    pub open spec fn covered(self, p: int, rows: int) -> bool {
        exists|i: int, j: int| 0 <= i < rows && 0 <= j < N && p == #[trigger] self.index_of(i, j)
    }

    /// Whether buffer index `p` is an element of the first `rows` positions or one of the
    /// first `cols` lanes at position `rows`.
    pub open spec fn covered_upto(self, p: int, rows: int, cols: int) -> bool {
        ||| self.covered(p, rows)
        ||| exists|j: int| 0 <= j < cols && p == #[trigger] self.index_of(rows, j)
    }

    /// Buffer `new` is `old` with the elements at every position `i` replaced by `vals[i]`.
    pub open spec fn written<T>(self, old: Seq<T>, new: Seq<T>, vals: Seq<[T; N]>) -> bool {
        &&& new.len() == old.len()
        &&& forall|i: int, j: int|
            0 <= i < self.length && 0 <= j < N ==> new[#[trigger] self.index_of(i, j)]
                == vals[i]@[j]
        &&& forall|p: int|
            0 <= p < old.len() && !self.covered(p, self.length as int) ==> new[p] == old[p]
    }

    /// Whether the `N` elements at each position are stored at consecutive addresses.
    pub open spec fn chunk_contiguous(self) -> bool {
        forall|j: int| 0 <= j < N - 1 ==> self.offsets@[j] + 1 == #[trigger] self.offsets@[j + 1]
    }

    proof fn lemma_index_nonneg(self, i: int, j: int)
        requires
            0 <= i,
            0 <= j < N,
        ensures
            self.start + self.offsets@[j] <= self.index_of(i, j),
            0 <= i * self.stride,
    {
        assert(0 <= i * self.stride) by (nonlinear_arith)
            requires
                0 <= i,
        ;
    }

    /// Buffer index of position `i` of lane `j`.
    pub(crate) fn position(&self, Ghost(n): Ghost<int>, i: usize, j: usize) -> (r: usize)
        requires
            self.in_bounds(n),
            n <= usize::MAX,
            i < self.length,
            j < N,
        ensures
            r == self.index_of(i as int, j as int),
            r < n,
    {
        proof {
            self.lemma_index_nonneg(i as int, j as int);
            assert(self.index_of(i as int, j as int) < n);
        }
        self.start + self.offsets[j] + i * self.stride
    }

    /// Buffer index that the lane offsets are measured from.
    pub fn as_ptr(&self) -> (r: usize)
        ensures
            r == self.start,
    {
        self.start
    }

    /// Buffer index that the lane offsets are measured from (for writing).
    pub fn as_mut_ptr(&mut self) -> (r: usize)
        ensures
            r == old(self).start,
            *final(self) == *old(self),
    {
        self.start
    }

    /// Number of positions (rows) in the view.  Each position holds `N` elements.
    pub fn len(&self) -> (r: usize)
        ensures
            r == self.length,
    {
        self.length
    }

    /// Whether or not this chunk of strided slices has any elements.
    pub fn is_empty(&self) -> (r: bool)
        ensures
            r == (self.length == 0),
    {
        self.length == 0
    }

    /// Return a reference to element `(i0, i1)` in `data`, or `None` if either index is out
    /// of bounds.
    pub fn get<'b, T>(&self, data: &'b [T], index: (usize, usize)) -> (r: Option<&'b T>)
        requires
            self.in_bounds(data@.len() as int),
        ensures
            (index.0 >= self.length || index.1 >= N) ==> r is None,
            (index.0 < self.length && index.1 < N) ==> r == Some(
                &data@[self.index_of(index.0 as int, index.1 as int)],
            ),
    {
        let (i0, i1) = index;
        if i0 >= self.length || i1 >= N {
            None
        } else {
            proof {
                assert(data@.len() == data.len());
            }
            let p = self.position(Ghost(data@.len() as int), i0, i1);
            Some(&data[p])
        }
    }

    /// Return `true` if the `N` elements at each position are stored at consecutive
    /// addresses.
    pub fn is_chunk_contiguous(&self) -> (r: bool)
        ensures
            r == self.chunk_contiguous(),
    {
        let mut j: usize = 1;
        while j < N
            invariant
                1 <= j,
                j <= N || N == 0,
                forall|k: int| 0 <= k < j - 1 ==> self.offsets@[k] + 1 == #[trigger] self.offsets@[k + 1],
            decreases N - j,
        {
            if self.offsets[j] == 0 || self.offsets[j] - 1 != self.offsets[j - 1] {
                proof {
                    assert(self.offsets@[j - 1] + 1 != self.offsets@[(j - 1) + 1]);
                }
                return false;
            }
            j += 1;
        }
        true
    }

    /// Return `true` if the stride between positions is `N` and the chunk is contiguous,
    /// meaning the whole view is a flat run of `N`-element rows.
    pub fn is_contiguous(&self) -> (r: bool)
        ensures
            r == (self.stride == N && self.chunk_contiguous()),
    {
        self.stride == N && self.is_chunk_contiguous()
    }

    /// The view as a plain slice of `data`, row after row, when it is contiguous, `None`
    /// otherwise.
    pub fn as_slice<'b, T>(&self, data: &'b [T]) -> (r: Option<&'b [T]>)
        requires
            self.in_bounds(data@.len() as int),
        ensures
            r is Some <==> (self.stride == N && self.chunk_contiguous()),
            r matches Some(s) ==> {
                &&& s@.len() == self.length * N
                &&& forall|i: int, j: int|
                    0 <= i < self.length && 0 <= j < N ==> s@[i * N + j] == data@[self.index_of(
                        i,
                        j,
                    )]
            },
    {
        if !self.is_contiguous() {
            return None;
        }
        if self.length == 0 || N == 0 {
            let e = vstd::slice::slice_subrange(data, 0, 0);
            proof {
                assert(self.length * N == 0) by (nonlinear_arith)
                    requires
                        self.length == 0 || N == 0,
                ;
            }
            return Some(e);
        }
        proof {
            assert(data@.len() == data.len());
            self.lemma_contiguous_index(self.length as int - 1, N as int - 1);
            assert(self.index_of(self.length - 1, N - 1) < data@.len());
        }
        let b = self.start + self.offsets[0];
        proof {
            assert((self.length - 1) * N + (N - 1) + 1 == self.length * N) by (nonlinear_arith);
        }
        let s = vstd::slice::slice_subrange(data, b, b + self.length * N);
        proof {
            assert forall|i: int, j: int| 0 <= i < self.length && 0 <= j < N implies s@[i * N + j]
                == data@[self.index_of(i, j)] by {
                self.lemma_contiguous_index(i, j);
                self.lemma_row_in_block(i, j);
            }
        }
        Some(s)
    }

    /// The view as a plain mutable slice of `data`, row after row, when it is contiguous,
    /// `None` otherwise; what is written through the slice lands in the view.
    pub fn as_mut_slice<'b, T>(&self, data: &'b mut [T]) -> (r: Option<&'b mut [T]>)
        requires
            self.in_bounds(old(data)@.len() as int),
        ensures
            r is Some <==> (self.stride == N && self.chunk_contiguous()),
            r is None ==> final(data)@ == old(data)@,
            r is Some ==> ({
                let b = if self.length == 0 || N == 0 {
                    0int
                } else {
                    self.start + self.offsets@[0]
                };
                &&& r.unwrap()@.len() == self.length * N
                &&& forall|i: int, j: int|
                    0 <= i < self.length && 0 <= j < N ==> {
                        &&& r.unwrap()@[i * N + j] == old(data)@[self.index_of(i, j)]
                        &&& self.index_of(i, j) == b + i * N + j
                    }
                &&& final(data)@ == old(data)@.subrange(0, b) + final(r.unwrap())@ + old(
                    data,
                )@.subrange(b + self.length * N, old(data)@.len() as int)
            }),
    {
        if !self.is_contiguous() {
            return None;
        }
        proof {
            assert(data@.len() == data.len());
        }
        if self.length == 0 || N == 0 {
            let (e, _) = data.split_at_mut(0);
            proof {
                assert(self.length * N == 0) by (nonlinear_arith)
                    requires
                        self.length == 0 || N == 0,
                ;
            }
            return Some(e);
        }
        proof {
            self.lemma_contiguous_index(self.length as int - 1, N as int - 1);
            assert(self.index_of(self.length - 1, N - 1) < data@.len());
            assert((self.length - 1) * N + (N - 1) + 1 == self.length * N) by (nonlinear_arith);
        }
        let b = self.start + self.offsets[0];
        let (_, rest) = data.split_at_mut(b);
        let (mid, _) = rest.split_at_mut(self.length * N);
        proof {
            assert forall|i: int, j: int| 0 <= i < self.length && 0 <= j < N implies mid@[i * N + j]
                == old(data)@[self.index_of(i, j)] && self.index_of(i, j) == b + i * N + j by {
                self.lemma_contiguous_index(i, j);
                self.lemma_row_in_block(i, j);
            }
        }
        Some(mid)
    }

    /// In a contiguous view, position `i` of lane `j` is element `i * N + j` of the block
    /// that starts at the first element.
    proof fn lemma_contiguous_index(self, i: int, j: int)
        requires
            self.stride == N,
            self.chunk_contiguous(),
            0 <= i,
            0 <= j < N,
        ensures
            self.index_of(i, j) == self.start + self.offsets@[0] + i * N + j,
        decreases j,
    {
        if j > 0 {
            self.lemma_contiguous_index(i, j - 1);
            assert(self.offsets@[j - 1] + 1 == self.offsets@[(j - 1) + 1]);
        }
    }

    /// Element `i * N + j` of a block of `length` rows of `N` lies inside the block.
    proof fn lemma_row_in_block(self, i: int, j: int)
        requires
            0 <= i < self.length,
            0 <= j < N,
        ensures
            0 <= i * N + j < self.length * N,
    {
        assert(0 <= i * N + j < self.length * N) by (nonlinear_arith)
            requires
                0 <= i < self.length,
                0 <= j < N,
        ;
    }

    /// The `N` elements at position `i`, read from `data`; `init` only fixes the array's
    /// starting contents.
    fn read_row<T: Copy>(&self, data: &[T], i: usize, init: [T; N]) -> (r: [T; N])
        requires
            self.in_bounds(data@.len() as int),
            i < self.length,
        ensures
            r@ == self.row(data@, i as int),
    {
        let mut r = init;
        let mut j: usize = 0;
        while j < N
            invariant
                j <= N,
                i < self.length,
                self.in_bounds(data@.len() as int),
                r@.len() == N,
                forall|k: int| 0 <= k < j ==> r@[k] == data@[self.index_of(i as int, k)],
            decreases N - j,
        {
            proof {
                assert(data@.len() == data.len());
            }
            let p = self.position(Ghost(data@.len() as int), i, j);
            r[j] = data[p];
            j += 1;
        }
        proof {
            assert(r@ =~= self.row(data@, i as int));
        }
        r
    }

    /// Deinterleave the `N` lanes into rows of even and odd positions: `evens[i]` receives
    /// the elements at position `2i` and `odds[i]` those at position `2i + 1`.
    pub fn deinterleave_arrays<T: Copy>(&self, data: &[T], evens: &mut [[T; N]], odds: &mut [[T; N]])
        requires
            self.in_bounds(data@.len() as int),
            old(evens)@.len() == (self.length + 1) / 2,
            old(odds)@.len() == self.length / 2,
        ensures
            final(evens)@.len() == old(evens)@.len(),
            final(odds)@.len() == old(odds)@.len(),
            N > 0 ==> forall|i: int|
                0 <= i < final(evens)@.len() ==> (#[trigger] final(evens)@[i])@ == self.row(
                    data@,
                    2 * i,
                ),
            N > 0 ==> forall|i: int|
                0 <= i < final(odds)@.len() ==> (#[trigger] final(odds)@[i])@ == self.row(
                    data@,
                    2 * i + 1,
                ),
    {
        if N == 0 {
            return;
        }
        let ne = evens.len();
        let no = odds.len();
        let mut i: usize = 0;
        while i < ne
            invariant
                i <= ne,
                ne == evens@.len(),
                ne == (self.length + 1) / 2,
                self.in_bounds(data@.len() as int),
                forall|k: int| 0 <= k < i ==> (#[trigger] evens@[k])@ == self.row(data@, 2 * k),
            decreases ne - i,
        {
            let r = self.read_row(data, 2 * i, evens[i]);
            evens[i] = r;
            i += 1;
        }
        let mut i: usize = 0;
        while i < no
            invariant
                i <= no,
                no == odds@.len(),
                no == self.length / 2,
                self.in_bounds(data@.len() as int),
                forall|k: int| 0 <= k < i ==> (#[trigger] odds@[k])@ == self.row(data@, 2 * k + 1),
            decreases no - i,
        {
            let r = self.read_row(data, 2 * i + 1, odds[i]);
            odds[i] = r;
            i += 1;
        }
    }

    /// Copy the leading `first.len()` positions of the lanes into `first` and the trailing
    /// `second.len()` positions into `second`, skipping the gap between them.
    pub fn split_arrays<T: Copy>(&self, data: &[T], first: &mut [[T; N]], second: &mut [[T; N]])
        requires
            self.in_bounds(data@.len() as int),
            old(first)@.len() + old(second)@.len() <= self.length,
        ensures
            final(first)@.len() == old(first)@.len(),
            final(second)@.len() == old(second)@.len(),
            N > 0 ==> forall|i: int|
                0 <= i < final(first)@.len() ==> (#[trigger] final(first)@[i])@ == self.row(
                    data@,
                    i,
                ),
            N > 0 ==> forall|i: int|
                0 <= i < final(second)@.len() ==> (#[trigger] final(second)@[i])@ == self.row(
                    data@,
                    self.length - final(second)@.len() + i,
                ),
    {
        if N == 0 {
            return;
        }
        let nf = first.len();
        let ns = second.len();
        let skip = self.length - ns;
        let mut i: usize = 0;
        while i < nf
            invariant
                i <= nf,
                nf == first@.len(),
                nf + ns <= self.length,
                self.in_bounds(data@.len() as int),
                forall|k: int| 0 <= k < i ==> (#[trigger] first@[k])@ == self.row(data@, k),
            decreases nf - i,
        {
            let r = self.read_row(data, i, first[i]);
            first[i] = r;
            i += 1;
        }
        let mut i: usize = 0;
        while i < ns
            invariant
                i <= ns,
                ns == second@.len(),
                skip == self.length - ns,
                self.in_bounds(data@.len() as int),
                forall|k: int| 0 <= k < i ==> (#[trigger] second@[k])@ == self.row(data@, skip + k),
            decreases ns - i,
        {
            let r = self.read_row(data, skip + i, second[i]);
            second[i] = r;
            i += 1;
        }
    }

    /// Writing the element of lane `j` at position `i` extends a write of everything
    /// before it in row-major order.
    proof fn lemma_write_step<T>(
        self,
        old: Seq<T>,
        cur: Seq<T>,
        vals: Seq<[T; N]>,
        i: int,
        j: int,
    )
        requires
            self.distinct(),
            self.in_bounds(old.len() as int),
            0 <= i < self.length,
            0 <= j < N,
            cur.len() == old.len(),
            forall|i2: int, j2: int|
                0 <= i2 < self.length && 0 <= j2 < N && (i2 < i || (i2 == i && j2 < j)) ==> cur[
                #[trigger] self.index_of(i2, j2)] == vals[i2]@[j2],
            forall|p: int|
                0 <= p < old.len() && !self.covered_upto(p, i, j) ==> cur[p] == old[p],
        ensures
            ({
                let new = cur.update(self.index_of(i, j), vals[i]@[j]);
                &&& new.len() == old.len()
                &&& forall|i2: int, j2: int|
                    0 <= i2 < self.length && 0 <= j2 < N && (i2 < i || (i2 == i && j2 <= j))
                        ==> new[#[trigger] self.index_of(i2, j2)] == vals[i2]@[j2]
                &&& forall|p: int|
                    0 <= p < old.len() && !self.covered_upto(p, i, j + 1) ==> new[p] == old[p]
            }),
    {
        let q = self.index_of(i, j);
        let new = cur.update(q, vals[i]@[j]);
        assert(q < old.len());
        self.lemma_index_nonneg(i, j);
        assert forall|i2: int, j2: int|
            0 <= i2 < self.length && 0 <= j2 < N && (i2 < i || (i2 == i && j2 <= j)) implies new[
            #[trigger] self.index_of(i2, j2)] == vals[i2]@[j2] by {
            if i2 != i || j2 != j {
                assert(self.index_of(i2, j2) != self.index_of(i, j));
                self.lemma_index_nonneg(i2, j2);
            }
        }
        assert forall|p: int| 0 <= p < old.len() && !self.covered_upto(p, i, j + 1) implies new[p]
            == old[p] by {
            if p == q {
                assert(self.covered_upto(p, i, j + 1));
            }
            if self.covered_upto(p, i, j) {
                if self.covered(p, i) {
                } else {
                    let jj = choose|jj: int| 0 <= jj < j && p == #[trigger] self.index_of(i, jj);
                    assert(0 <= jj < j + 1 && p == self.index_of(i, jj));
                }
            }
        }
    }

    /// Write `rows[i]` into the `N` elements at every position `i`.
    fn write_rows<T: Copy>(&self, data: &mut [T], rows: &Vec<[T; N]>)
        requires
            self.distinct(),
            self.in_bounds(old(data)@.len() as int),
            rows@.len() == self.length,
        ensures
            self.written(old(data)@, final(data)@, rows@),
    {
        let ghost n = data@.len() as int;
        let mut i: usize = 0;
        while i < self.length
            invariant
                i <= self.length,
                n == old(data)@.len(),
                data@.len() == n,
                rows@.len() == self.length,
                self.distinct(),
                self.in_bounds(n),
                forall|i2: int, j2: int|
                    0 <= i2 < i && 0 <= j2 < N ==> data@[#[trigger] self.index_of(i2, j2)]
                        == rows@[i2]@[j2],
                forall|p: int|
                    0 <= p < n && !self.covered(p, i as int) ==> data@[p] == old(data)@[p],
            decreases self.length - i,
        {
            let row = rows[i];
            let mut j: usize = 0;
            proof {
                assert forall|p: int| 0 <= p < n && !self.covered_upto(p, i as int, 0) implies data@[p]
                    == old(data)@[p] by {}
            }
            while j < N
                invariant
                    i < self.length,
                    j <= N,
                    n == old(data)@.len(),
                    data@.len() == n,
                    rows@.len() == self.length,
                    row == rows@[i as int],
                    self.distinct(),
                    self.in_bounds(n),
                    forall|i2: int, j2: int|
                        0 <= i2 < self.length && 0 <= j2 < N && (i2 < i || (i2 == i && j2 < j))
                            ==> data@[#[trigger] self.index_of(i2, j2)] == rows@[i2]@[j2],
                    forall|p: int|
                        0 <= p < n && !self.covered_upto(p, i as int, j as int) ==> data@[p]
                            == old(data)@[p],
                decreases N - j,
            {
                proof {
                    assert(data@.len() == data.len());
                    self.lemma_write_step(old(data)@, data@, rows@, i as int, j as int);
                }
                let p = self.position(Ghost(n), i, j);
                data[p] = row[j];
                j += 1;
            }
            proof {
                assert forall|p: int| 0 <= p < n && !self.covered(p, i + 1) implies data@[p] == old(
                    data,
                )@[p] by {
                    if self.covered_upto(p, i as int, N as int) {
                        if !self.covered(p, i as int) {
                            let jj = choose|jj: int|
                                0 <= jj < N && p == #[trigger] self.index_of(i as int, jj);
                            assert(self.covered(p, i + 1));
                        }
                    }
                }
                assert forall|i2: int, j2: int| 0 <= i2 < i + 1 && 0 <= j2 < N implies data@[
                    #[trigger] self.index_of(i2, j2)] == rows@[i2]@[j2] by {}
            }
            i += 1;
        }
    }

    /// Interleaving rows into the lanes and deinterleaving them again gives the rows back:
    /// once the interleaving of `evens` and `odds` is written (as by
    /// [`Self::interleave_arrays`]), position `2i` holds `evens[i]` and position `2i + 1`
    /// holds `odds[i]`, which is what [`Self::deinterleave_arrays`] reads.
    pub proof fn lemma_interleave_deinterleave_arrays<T>(
        self,
        old: Seq<T>,
        new: Seq<T>,
        evens: Seq<[T; N]>,
        odds: Seq<[T; N]>,
    )
        requires
            evens.len() == (self.length + 1) / 2,
            odds.len() == self.length / 2,
            self.written(old, new, interleaved(evens, odds)),
        ensures
            forall|i: int| 0 <= i < evens.len() ==> #[trigger] self.row(new, 2 * i) == evens[i]@,
            forall|i: int| 0 <= i < odds.len() ==> #[trigger] self.row(new, 2 * i + 1) == odds[i]@,
    {
        let v = interleaved(evens, odds);
        assert forall|i: int| 0 <= i < evens.len() implies #[trigger] self.row(new, 2 * i)
            == evens[i]@ by {
            assert(v[2 * i] == evens[i]);
            assert forall|j: int| 0 <= j < N implies self.row(new, 2 * i)[j] == evens[i]@[j] by {
                assert(new[self.index_of(2 * i, j)] == v[2 * i]@[j]);
            }
            assert(self.row(new, 2 * i) =~= evens[i]@);
        }
        assert forall|i: int| 0 <= i < odds.len() implies #[trigger] self.row(new, 2 * i + 1)
            == odds[i]@ by {
            assert(v[2 * i + 1] == odds[i]);
            assert forall|j: int| 0 <= j < N implies self.row(new, 2 * i + 1)[j] == odds[i]@[j] by {
                assert(new[self.index_of(2 * i + 1, j)] == v[2 * i + 1]@[j]);
            }
            assert(self.row(new, 2 * i + 1) =~= odds[i]@);
        }
    }

    /// Write the interleaving of `evens` and `odds` into the lanes: position `2i` receives
    /// `evens[i]` and position `2i + 1` receives `odds[i]`; the rest of `data` is unchanged.
    pub fn interleave_arrays<T: Copy>(&self, data: &mut [T], evens: &[[T; N]], odds: &[[T; N]])
        requires
            self.distinct(),
            self.in_bounds(old(data)@.len() as int),
            evens@.len() == (self.length + 1) / 2,
            odds@.len() == self.length / 2,
        ensures
            N > 0 ==> self.written(old(data)@, final(data)@, interleaved(evens@, odds@)),
            N == 0 ==> final(data)@ == old(data)@,
    {
        if N == 0 {
            return;
        }
        let n = self.length;
        let mut x: Vec<[T; N]> = Vec::new();
        let mut k: usize = 0;
        while k < n
            invariant
                k <= n,
                n == self.length,
                odds@.len() == n / 2,
                evens@.len() == (n + 1) / 2,
                x@ == interleaved(evens@, odds@).subrange(0, k as int),
            decreases n - k,
        {
            if k % 2 == 0 {
                x.push(evens[k / 2]);
            } else {
                x.push(odds[k / 2]);
            }
            proof {
                assert(x@ =~= interleaved(evens@, odds@).subrange(0, k as int + 1));
            }
            k += 1;
        }
        proof {
            assert(x@ =~= interleaved(evens@, odds@));
        }
        self.write_rows(data, &x);
    }

    /// Write `first` at the leading positions of the lanes and `second` at the trailing
    /// ones, filling the positions in
    /// between with `zero`.
    pub fn stack_arrays<T: Copy>(&self, data: &mut [T], first: &[[T; N]], second: &[[T; N]], zero: T)
        requires
            self.distinct(),
            self.in_bounds(old(data)@.len() as int),
            first@.len() + second@.len() <= self.length,
        ensures
            N > 0 ==> self.written(
                old(data)@,
                final(data)@,
                first@ + Seq::new(
                    (self.length - first@.len() - second@.len()) as nat,
                    |k: int| [zero; N],
                ) + second@,
            ),
            N == 0 ==> final(data)@ == old(data)@,
    {
        if N == 0 {
            return;
        }
        let nf = first.len();
        let ns = second.len();
        let n_mid = self.length - (nf + ns);
        let zeros: [T; N] = [zero; N];
        let ghost target = first@ + Seq::new(n_mid as nat, |k: int| zeros) + second@;
        let mut x: Vec<[T; N]> = Vec::new();
        let mut k: usize = 0;
        while k < self.length
            invariant
                k <= self.length,
                nf == first@.len(),
                ns == second@.len(),
                n_mid == self.length - (nf + ns),
                target == first@ + Seq::new(n_mid as nat, |k: int| zeros) + second@,
                x@ == target.subrange(0, k as int),
            decreases self.length - k,
        {
            if k < nf {
                x.push(first[k]);
            } else if k < nf + n_mid {
                x.push(zeros);
            } else {
                x.push(second[k - nf - n_mid]);
            }
            proof {
                assert(x@ =~= target.subrange(0, k as int + 1));
            }
            k += 1;
        }
        proof {
            assert(x@ =~= target);
            assert(zeros == [zero; N]);
        }
        self.write_rows(data, &x);
    }

    /// Lane `j` of the view, read from `data`.
    pub open spec fn lane<T>(self, data: Seq<T>, j: int) -> Seq<T> {
        Seq::new(self.length as nat, |i: int| data[self.index_of(i, j)])
    }

    /// Buffer `new` is `old` with position `i` of every lane `j` replaced by `lanes[j][i]`.
    pub open spec fn written_lanes<T>(self, old: Seq<T>, new: Seq<T>, lanes: Seq<Seq<T>>) -> bool {
        &&& new.len() == old.len()
        &&& forall|i: int, j: int|
            0 <= i < self.length && 0 <= j < N ==> new[#[trigger] self.index_of(i, j)]
                == lanes[j][i]
        &&& forall|p: int|
            0 <= p < old.len() && !self.covered(p, self.length as int) ==> new[p] == old[p]
    }

    /// Deinterleave each lane into even and odd positions: `evens[j][i]` receives position
    /// `2i` of lane `j` and `odds[j][i]` position `2i + 1`.
    pub fn deinterleave<T: Copy>(&self, data: &[T], evens: &mut [Vec<T>; N], odds: &mut [Vec<T>; N])
        requires
            self.in_bounds(data@.len() as int),
            forall|j: int| 0 <= j < N ==> (#[trigger] old(evens)@[j])@.len() == (self.length + 1) / 2,
            forall|j: int| 0 <= j < N ==> (#[trigger] old(odds)@[j])@.len() == self.length / 2,
        ensures
            forall|j: int| 0 <= j < N ==> (#[trigger] final(evens)@[j])@ == evens_of(self.lane(data@, j)),
            forall|j: int| 0 <= j < N ==> (#[trigger] final(odds)@[j])@ == odds_of(self.lane(data@, j)),
    {
        let ne = (self.length - self.length / 2);
        let no = self.length / 2;
        let mut j: usize = 0;
        while j < N
            invariant
                j <= N,
                ne == (self.length + 1) / 2,
                no == self.length / 2,
                self.in_bounds(data@.len() as int),
                forall|k: int| 0 <= k < N ==> (#[trigger] evens@[k])@.len() == ne,
                forall|k: int| 0 <= k < N ==> (#[trigger] odds@[k])@.len() == no,
                forall|k: int| 0 <= k < j ==> (#[trigger] evens@[k])@ == evens_of(self.lane(data@, k)),
                forall|k: int| 0 <= k < j ==> (#[trigger] odds@[k])@ == odds_of(self.lane(data@, k)),
            decreases N - j,
        {
            let mut i: usize = 0;
            while i < ne
                invariant
                    i <= ne,
                    j < N,
                    ne == (self.length + 1) / 2,
                    self.in_bounds(data@.len() as int),
                    forall|k: int| 0 <= k < N ==> (#[trigger] evens@[k])@.len() == ne,
                    forall|k: int| 0 <= k < j ==> (#[trigger] evens@[k])@ == evens_of(self.lane(data@, k)),
                    forall|m: int| 0 <= m < i ==> evens@[j as int]@[m] == data@[self.index_of(2 * m, j as int)],
                decreases ne - i,
            {
                proof {
                    assert(data@.len() == data.len());
                }
                let p = self.position(Ghost(data@.len() as int), 2 * i, j);
                evens[j].set(i, data[p]);
                i += 1;
            }
            let mut i: usize = 0;
            while i < no
                invariant
                    i <= no,
                    j < N,
                    no == self.length / 2,
                    self.in_bounds(data@.len() as int),
                    forall|k: int| 0 <= k < N ==> (#[trigger] odds@[k])@.len() == no,
                    forall|k: int| 0 <= k < j ==> (#[trigger] odds@[k])@ == odds_of(self.lane(data@, k)),
                    forall|m: int| 0 <= m < i ==> odds@[j as int]@[m] == data@[self.index_of(2 * m + 1, j as int)],
                decreases no - i,
            {
                proof {
                    assert(data@.len() == data.len());
                }
                let p = self.position(Ghost(data@.len() as int), 2 * i + 1, j);
                odds[j].set(i, data[p]);
                i += 1;
            }
            proof {
                assert(evens@[j as int]@ =~= evens_of(self.lane(data@, j as int)));
                assert(odds@[j as int]@ =~= odds_of(self.lane(data@, j as int)));
            }
            j += 1;
        }
    }

    /// Copy the leading `first[j].len()` positions of each lane `j` into `first[j]` and the
    /// trailing `second[j].len()` positions into `second[j]`.
    pub fn split<T: Copy>(&self, data: &[T], first: &mut [Vec<T>; N], second: &mut [Vec<T>; N])
        requires
            self.in_bounds(data@.len() as int),
            N > 0 ==> old(first)@[0]@.len() + old(second)@[0]@.len() <= self.length,
            forall|j: int| 0 <= j < N ==> (#[trigger] old(first)@[j])@.len() == old(first)@[0]@.len(),
            forall|j: int| 0 <= j < N ==> (#[trigger] old(second)@[j])@.len() == old(second)@[0]@.len(),
        ensures
            forall|j: int| 0 <= j < N ==> (#[trigger] final(first)@[j])@ == self.lane(data@, j).subrange(
                0,
                old(first)@[0]@.len() as int,
            ),
            forall|j: int| 0 <= j < N ==> (#[trigger] final(second)@[j])@ == self.lane(data@, j).subrange(
                self.length - old(second)@[0]@.len(),
                self.length as int,
            ),
    {
        if N == 0 {
            return;
        }
        let nf = first[0].len();
        let ns = second[0].len();
        let skip = self.length - ns;
        let mut j: usize = 0;
        while j < N
            invariant
                j <= N,
                N > 0,
                nf + ns <= self.length,
                skip == self.length - ns,
                nf == old(first)@[0]@.len(),
                ns == old(second)@[0]@.len(),
                self.in_bounds(data@.len() as int),
                forall|k: int| 0 <= k < N ==> (#[trigger] first@[k])@.len() == nf,
                forall|k: int| 0 <= k < N ==> (#[trigger] second@[k])@.len() == ns,
                forall|k: int| 0 <= k < j ==> (#[trigger] first@[k])@ == self.lane(data@, k).subrange(0, nf as int),
                forall|k: int| 0 <= k < j ==> (#[trigger] second@[k])@ == self.lane(data@, k).subrange(skip as int, self.length as int),
            decreases N - j,
        {
            let mut i: usize = 0;
            while i < nf
                invariant
                    i <= nf,
                    j < N,
                    nf + ns <= self.length,
                    self.in_bounds(data@.len() as int),
                    forall|k: int| 0 <= k < N ==> (#[trigger] first@[k])@.len() == nf,
                    forall|k: int| 0 <= k < j ==> (#[trigger] first@[k])@ == self.lane(data@, k).subrange(0, nf as int),
                    forall|m: int| 0 <= m < i ==> first@[j as int]@[m] == data@[self.index_of(m, j as int)],
                decreases nf - i,
            {
                proof {
                    assert(data@.len() == data.len());
                }
                let p = self.position(Ghost(data@.len() as int), i, j);
                first[j].set(i, data[p]);
                i += 1;
            }
            let mut i: usize = 0;
            while i < ns
                invariant
                    i <= ns,
                    j < N,
                    skip == self.length - ns,
                    self.in_bounds(data@.len() as int),
                    forall|k: int| 0 <= k < N ==> (#[trigger] second@[k])@.len() == ns,
                    forall|k: int| 0 <= k < j ==> (#[trigger] second@[k])@ == self.lane(data@, k).subrange(skip as int, self.length as int),
                    forall|m: int| 0 <= m < i ==> second@[j as int]@[m] == data@[self.index_of(skip + m, j as int)],
                decreases ns - i,
            {
                proof {
                    assert(data@.len() == data.len());
                }
                let p = self.position(Ghost(data@.len() as int), skip + i, j);
                second[j].set(i, data[p]);
                i += 1;
            }
            proof {
                assert(first@[j as int]@ =~= self.lane(data@, j as int).subrange(0, nf as int));
                assert(second@[j as int]@ =~= self.lane(data@, j as int).subrange(skip as int, self.length as int));
            }
            j += 1;
        }
    }

    /// Fill each `sink[j]` with the leading `sink[j].len()` positions of lane `j`.
    pub fn pour_into<T: Copy>(&self, data: &[T], sink: &mut [Vec<T>; N])
        requires
            self.in_bounds(data@.len() as int),
            N > 0 ==> old(sink)@[0]@.len() <= self.length,
            forall|j: int| 0 <= j < N ==> (#[trigger] old(sink)@[j])@.len() == old(sink)@[0]@.len(),
        ensures
            forall|j: int| 0 <= j < N ==> (#[trigger] final(sink)@[j])@ == self.lane(data@, j).subrange(
                0,
                old(sink)@[0]@.len() as int,
            ),
    {
        if N == 0 {
            return;
        }
        let no = sink[0].len();
        let mut j: usize = 0;
        while j < N
            invariant
                j <= N,
                N > 0,
                no <= self.length,
                no == old(sink)@[0]@.len(),
                self.in_bounds(data@.len() as int),
                forall|k: int| 0 <= k < N ==> (#[trigger] sink@[k])@.len() == no,
                forall|k: int| 0 <= k < j ==> (#[trigger] sink@[k])@ == self.lane(data@, k).subrange(0, no as int),
            decreases N - j,
        {
            let mut i: usize = 0;
            while i < no
                invariant
                    i <= no,
                    j < N,
                    no <= self.length,
                    self.in_bounds(data@.len() as int),
                    forall|k: int| 0 <= k < N ==> (#[trigger] sink@[k])@.len() == no,
                    forall|k: int| 0 <= k < j ==> (#[trigger] sink@[k])@ == self.lane(data@, k).subrange(0, no as int),
                    forall|m: int| 0 <= m < i ==> sink@[j as int]@[m] == data@[self.index_of(m, j as int)],
                decreases no - i,
            {
                proof {
                    assert(data@.len() == data.len());
                }
                let p = self.position(Ghost(data@.len() as int), i, j);
                sink[j].set(i, data[p]);
                i += 1;
            }
            proof {
                assert(sink@[j as int]@ =~= self.lane(data@, j as int).subrange(0, no as int));
            }
            j += 1;
        }
    }

    /// Write the interleaving of `evens[j]` and `odds[j]` into every lane `j`: position
    /// `2i` receives `evens[j][i]` and position `2i + 1` receives `odds[j][i]`.
    pub fn interleave<T: Copy>(&self, data: &mut [T], evens: &[Vec<T>; N], odds: &[Vec<T>; N])
        requires
            self.distinct(),
            self.in_bounds(old(data)@.len() as int),
            forall|j: int| 0 <= j < N ==> (#[trigger] evens@[j])@.len() == (self.length + 1) / 2,
            forall|j: int| 0 <= j < N ==> (#[trigger] odds@[j])@.len() == self.length / 2,
        ensures
            self.written_lanes(
                old(data)@,
                final(data)@,
                Seq::new(N as nat, |j: int| interleaved(evens@[j]@, odds@[j]@)),
            ),
    {
        let ghost lanes = Seq::new(N as nat, |j: int| interleaved(evens@[j]@, odds@[j]@));
        if N == 0 || self.length == 0 {
            proof {
                assert forall|p: int| 0 <= p < data@.len() && !self.covered(p, self.length as int)
                    implies data@[p] == old(data)@[p] by {}
            }
            return;
        }
        let init = evens[0][0];
        let mut rows: Vec<[T; N]> = Vec::new();
        let mut i: usize = 0;
        while i < self.length
            invariant
                i <= self.length,
                N > 0,
                lanes == Seq::new(N as nat, |j: int| interleaved(evens@[j]@, odds@[j]@)),
                forall|j: int| 0 <= j < N ==> (#[trigger] evens@[j])@.len() == (self.length + 1) / 2,
                forall|j: int| 0 <= j < N ==> (#[trigger] odds@[j])@.len() == self.length / 2,
                rows@.len() == i,
                forall|i2: int, j: int| 0 <= i2 < i && 0 <= j < N ==> #[trigger] rows@[i2]@[j] == lanes[j][i2],
            decreases self.length - i,
        {
            let mut r: [T; N] = [init; N];
            let mut j: usize = 0;
            while j < N
                invariant
                    i < self.length,
                    j <= N,
                    r@.len() == N,
                    lanes == Seq::new(N as nat, |j: int| interleaved(evens@[j]@, odds@[j]@)),
                    forall|j: int| 0 <= j < N ==> (#[trigger] evens@[j])@.len() == (self.length + 1) / 2,
                    forall|j: int| 0 <= j < N ==> (#[trigger] odds@[j])@.len() == self.length / 2,
                    forall|k: int| 0 <= k < j ==> r@[k] == lanes[k][i as int],
                decreases N - j,
            {
                if i % 2 == 0 {
                    r[j] = evens[j][i / 2];
                } else {
                    r[j] = odds[j][i / 2];
                }
                j += 1;
            }
            rows.push(r);
            i += 1;
        }
        self.write_rows(data, &rows);
    }

    /// Write `first[j]` at the leading positions of every lane `j` and `second[j]` at its
    /// trailing positions, filling the positions in
    /// between with `zero`.
    pub fn stack<T: Copy>(&self, data: &mut [T], first: &[Vec<T>; N], second: &[Vec<T>; N], zero: T)
        requires
            self.distinct(),
            self.in_bounds(old(data)@.len() as int),
            N > 0 ==> first@[0]@.len() + second@[0]@.len() <= self.length,
            forall|j: int| 0 <= j < N ==> (#[trigger] first@[j])@.len() == first@[0]@.len(),
            forall|j: int| 0 <= j < N ==> (#[trigger] second@[j])@.len() == second@[0]@.len(),
        ensures
            self.written_lanes(
                old(data)@,
                final(data)@,
                Seq::new(
                    N as nat,
                    |j: int|
                        first@[j]@ + Seq::new(
                            (self.length - first@[j]@.len() - second@[j]@.len()) as nat,
                            |k: int| zero,
                        ) + second@[j]@,
                ),
            ),
    {
        let ghost lanes = Seq::new(
            N as nat,
            |j: int|
                first@[j]@ + Seq::new(
                    (self.length - first@[j]@.len() - second@[j]@.len()) as nat,
                    |k: int| zero,
                ) + second@[j]@,
        );
        if N == 0 {
            proof {
                assert forall|p: int| 0 <= p < data@.len() && !self.covered(p, self.length as int)
                    implies data@[p] == old(data)@[p] by {}
            }
            return;
        }
        let nf = first[0].len();
        let ns = second[0].len();
        let n_mid = self.length - (nf + ns);
        let mut rows: Vec<[T; N]> = Vec::new();
        let mut i: usize = 0;
        while i < self.length
            invariant
                i <= self.length,
                N > 0,
                nf == first@[0]@.len(),
                ns == second@[0]@.len(),
                n_mid == self.length - (nf + ns),
                forall|j: int| 0 <= j < N ==> (#[trigger] first@[j])@.len() == nf,
                forall|j: int| 0 <= j < N ==> (#[trigger] second@[j])@.len() == ns,
                lanes == Seq::new(
                    N as nat,
                    |j: int|
                        first@[j]@ + Seq::new(
                            (self.length - first@[j]@.len() - second@[j]@.len()) as nat,
                            |k: int| zero,
                        ) + second@[j]@,
                ),
                rows@.len() == i,
                forall|i2: int, j: int| 0 <= i2 < i && 0 <= j < N ==> #[trigger] rows@[i2]@[j] == lanes[j][i2],
            decreases self.length - i,
        {
            let mut r: [T; N] = [zero; N];
            let mut j: usize = 0;
            while j < N
                invariant
                    i < self.length,
                    j <= N,
                    r@.len() == N,
                    nf == first@[0]@.len(),
                    ns == second@[0]@.len(),
                    n_mid == self.length - (nf + ns),
                    forall|j: int| 0 <= j < N ==> (#[trigger] first@[j])@.len() == nf,
                    forall|j: int| 0 <= j < N ==> (#[trigger] second@[j])@.len() == ns,
                    lanes == Seq::new(
                        N as nat,
                        |j: int|
                            first@[j]@ + Seq::new(
                                (self.length - first@[j]@.len() - second@[j]@.len()) as nat,
                                |k: int| zero,
                            ) + second@[j]@,
                    ),
                    forall|k: int| 0 <= k < j ==> r@[k] == lanes[k][i as int],
                decreases N - j,
            {
                if i < nf {
                    r[j] = first[j][i];
                } else if i < nf + n_mid {
                    r[j] = zero;
                } else {
                    r[j] = second[j][i - nf - n_mid];
                }
                j += 1;
            }
            rows.push(r);
            i += 1;
        }
        self.write_rows(data, &rows);
    }

    /// Fill every lane `j` with `source[j]`, followed by `zero` for the
    /// remaining positions.
    pub fn fill_from<T: Copy>(&self, data: &mut [T], source: &[Vec<T>; N], zero: T)
        requires
            self.distinct(),
            self.in_bounds(old(data)@.len() as int),
            N > 0 ==> source@[0]@.len() <= self.length,
            forall|j: int| 0 <= j < N ==> (#[trigger] source@[j])@.len() == source@[0]@.len(),
        ensures
            self.written_lanes(
                old(data)@,
                final(data)@,
                Seq::new(
                    N as nat,
                    |j: int|
                        source@[j]@ + Seq::new(
                            (self.length - source@[j]@.len()) as nat,
                            |k: int| zero,
                        ),
                ),
            ),
    {
        let ghost lanes = Seq::new(
            N as nat,
            |j: int| source@[j]@ + Seq::new((self.length - source@[j]@.len()) as nat, |k: int| zero),
        );
        if N == 0 {
            proof {
                assert forall|p: int| 0 <= p < data@.len() && !self.covered(p, self.length as int)
                    implies data@[p] == old(data)@[p] by {}
            }
            return;
        }
        let no = source[0].len();
        let mut rows: Vec<[T; N]> = Vec::new();
        let mut i: usize = 0;
        while i < self.length
            invariant
                i <= self.length,
                N > 0,
                no == source@[0]@.len(),
                no <= self.length,
                forall|j: int| 0 <= j < N ==> (#[trigger] source@[j])@.len() == no,
                lanes == Seq::new(
                    N as nat,
                    |j: int| source@[j]@ + Seq::new((self.length - source@[j]@.len()) as nat, |k: int| zero),
                ),
                rows@.len() == i,
                forall|i2: int, j: int| 0 <= i2 < i && 0 <= j < N ==> #[trigger] rows@[i2]@[j] == lanes[j][i2],
            decreases self.length - i,
        {
            let mut r: [T; N] = [zero; N];
            let mut j: usize = 0;
            while j < N
                invariant
                    i < self.length,
                    j <= N,
                    r@.len() == N,
                    no == source@[0]@.len(),
                    no <= self.length,
                    forall|j: int| 0 <= j < N ==> (#[trigger] source@[j])@.len() == no,
                    lanes == Seq::new(
                        N as nat,
                        |j: int| source@[j]@ + Seq::new((self.length - source@[j]@.len()) as nat, |k: int| zero),
                    ),
                    forall|k: int| 0 <= k < j ==> r@[k] == lanes[k][i as int],
                decreases N - j,
            {
                if i < no {
                    r[j] = source[j][i];
                } else {
                    r[j] = zero;
                }
                j += 1;
            }
            rows.push(r);
            i += 1;
        }
        self.write_rows(data, &rows);
    }
}

/// The chunk of lanes `ind..ind + N` along `axis`: lane `j` of the chunk is lane `ind + j`
/// of the array.
fn lane_chunk_parts<const N: usize>(shape: &[usize], ax: usize, ind: usize) -> (r: ChunkStridedSliceRef<N>)
    requires
        ax < shape@.len(),
        1 <= shape_prod(shape@) <= usize::MAX,
        ind + N <= shape_prod(shape@.remove(ax as int)),
    ensures
        r.start == 0,
        r.length == shape@[ax as int],
        r.stride == row_strides(shape@)[ax as int],
        forall|j: int| 0 <= j < N ==> #[trigger] r.offsets@[j] == lane_of(lane_layout(shape@, ax as int), ind + j).start,
        forall|i: int, j: int| 0 <= i < r.length && 0 <= j < N ==> #[trigger] r.index_of(i, j) == lane_of(lane_layout(shape@, ax as int), ind + j).index_of(i),
        r.in_bounds(shape_prod(shape@)),
        r.distinct(),
{
    proof {
        lemma_lanes_ok_from_len(shape@, ax as int);
        lemma_lanes_partition(shape@, ax as int);
    }
    let ghost layout = lane_layout(shape@, ax as int);
    let mut strides = stride_from_shape(shape);
    let stride = strides.remove(ax);
    let mut sh: Vec<usize> = Vec::new();
    let mut k: usize = 0;
    while k < shape.len()
        invariant
            k <= shape@.len(),
            sh@ == shape@.subrange(0, k as int),
        decreases shape@.len() - k,
    {
        sh.push(shape[k]);
        proof {
            assert(sh@ =~= shape@.subrange(0, k as int + 1));
        }
        k += 1;
    }
    proof {
        assert(sh@ =~= shape@);
    }
    let length = sh.remove(ax);
    proof {
        assert(as_ints(strides@) =~= layout.stride);
        assert(sh@ =~= layout.shape);
    }
    let mut offsets: [usize; N] = [0; N];
    let mut j: usize = 0;
    while j < N
        invariant
            j <= N,
            lanes_ok(shape@, ax as int),
            layout == lane_layout(shape@, ax as int),
            sh@ == layout.shape,
            strides@.len() == layout.shape.len(),
            as_ints(strides@) == layout.stride,
            ind + N <= shape_prod(layout.shape),
            shape_prod(layout.shape) <= usize::MAX,
            offsets@.len() == N,
            forall|k: int| 0 <= k < j ==> #[trigger] offsets@[k] == lane_of(layout, ind + k).start,
        decreases N - j,
    {
        let dim_inds = unravel(ind + j, sh.as_slice());
        proof {
            crate::iter::slice::lemma_lane_start_fits(shape@, ax as int, ind + j);
        }
        let off = dot_exec(&dim_inds, &strides, Ghost(layout.shape));
        offsets[j] = off;
        j += 1;
    }
    let r = ChunkStridedSliceRef { start: 0, offsets, length, stride };
    proof {
        assert forall|i: int, j: int| 0 <= i < r.length && 0 <= j < N implies #[trigger] r.index_of(i, j)
            == lane_of(layout, ind + j).index_of(i) by {}
        assert forall|i: int, j: int| 0 <= i < r.length && 0 <= j < N implies #[trigger] r.index_of(i, j)
            < shape_prod(shape@) by {
            assert(r.index_of(i, j) == lane_of(layout, ind + j).index_of(i));
        }
        assert forall|i1: int, j1: int, i2: int, j2: int|
            0 <= i1 < r.length && 0 <= j1 < N && 0 <= i2 < r.length && 0 <= j2 < N && (i1 != i2
                || j1 != j2) implies #[trigger] r.index_of(i1, j1) != #[trigger] r.index_of(i2, j2) by {
            assert(r.index_of(i1, j1) == lane_of(layout, ind + j1).index_of(i1));
            assert(r.index_of(i2, j2) == lane_of(layout, ind + j2).index_of(i2));
        }
    }
    r
}

/// `N` lanes of a buffer advancing together, with the buffer they read from (`&[T]`) or
/// write to (`&mut [T]`).
pub struct ChunkStridedSliceBase<B, const N: usize> {
    /// The underlying buffer.
    pub buf: B,
    /// Which elements of the buffer the lanes cover.
    pub parts: ChunkStridedSliceRef<N>,
}

/// Read-only `N`-lane view with an explicit lifetime.
pub type ChunkStridedSlice<'a, T, const N: usize> = ChunkStridedSliceBase<&'a [T], N>;

/// Mutable `N`-lane view with an explicit lifetime.
pub type ChunkStridedSliceMut<'a, T, const N: usize> = ChunkStridedSliceBase<&'a mut [T], N>;

impl<'a, T, const N: usize> ChunkStridedSliceBase<&'a [T], N> {
    /// Create an `N`-lane view of the lanes `ind..ind + N` along axis `ax` of the row-major
    /// array of shape `shape` held in `slice`.
    pub fn from_slice(slice: &'a [T], shape: &[usize], ax: usize, ind: usize) -> (r: Self)
        requires
            slice@.len() != 0,
            shape_prod(shape@) == slice@.len(),
            ax < shape@.len(),
            ind + N <= shape_prod(shape@.remove(ax as int)),
        ensures
            r.buf@ == slice@,
            r.parts.start == 0,
            r.parts.length == shape@[ax as int],
            r.parts.stride == row_strides(shape@)[ax as int],
            forall|j: int| 0 <= j < N ==> #[trigger] r.parts.offsets@[j] == lane_of(
                lane_layout(shape@, ax as int),
                ind + j,
            ).start,
            r.parts.in_bounds(slice@.len() as int),
            r.parts.distinct(),
    {
        proof {
            assert(slice@.len() == slice.len());
        }
        let parts = lane_chunk_parts(shape, ax, ind);
        ChunkStridedSliceBase { buf: slice, parts }
    }
}

impl<'a, T, const N: usize> ChunkStridedSliceBase<&'a mut [T], N> {
    /// Create a mutable `N`-lane view of the lanes `ind..ind + N` along axis `ax` of the
    /// row-major array of shape `shape` held in `slice`.
    pub fn from_mut_slice(slice: &'a mut [T], shape: &[usize], ax: usize, ind: usize) -> (r: Self)
        requires
            old(slice)@.len() != 0,
            shape_prod(shape@) == old(slice)@.len(),
            ax < shape@.len(),
            ind + N <= shape_prod(shape@.remove(ax as int)),
        ensures
            r.buf@ == old(slice)@,
            r.parts.start == 0,
            r.parts.length == shape@[ax as int],
            r.parts.stride == row_strides(shape@)[ax as int],
            forall|j: int| 0 <= j < N ==> #[trigger] r.parts.offsets@[j] == lane_of(
                lane_layout(shape@, ax as int),
                ind + j,
            ).start,
            r.parts.in_bounds(old(slice)@.len() as int),
            r.parts.distinct(),
    {
        proof {
            assert(slice@.len() == slice.len());
        }
        let parts = lane_chunk_parts(shape, ax, ind);
        ChunkStridedSliceBase { buf: slice, parts }
    }
}

} // verus!
