//! Strided views of flat buffers.
//!
//! [`StridedSliceRef`] describes `length` elements of a flat buffer that start at index
//! `start` and are spaced `stride` elements apart.  The operations read from or write to
//! a buffer passed alongside the view.
use crate::utils::{evens_of, interleaved, odds_of};
use vstd::arithmetic::div_mod::lemma_fundamental_div_mod_converse;
use vstd::prelude::*;

verus! {

/// Non-owning strided view into a flat buffer: element `k` of the view is buffer element
/// `start + k * stride`, for `k < length`.
#[derive(Clone, Copy, Debug)]
pub struct StridedSliceRef {
    /// Buffer index of the first element.
    pub start: usize,
    /// Number of elements in the view.
    pub length: usize,
    /// Distance in the buffer between consecutive elements.
    pub stride: usize,
}

/// A buffer position `start + k * stride` is determined by `k` when the stride is positive.
proof fn lemma_position_of(start: int, stride: int, k: int, j: int)
    requires
        stride > 0,
        k >= 0,
        j == start + k * stride,
    ensures
        (j - start) % stride == 0,
        (j - start) / stride == k,
{
    lemma_fundamental_div_mod_converse(j - start, stride, k, 0);
}

proof fn lemma_positions_grow(start: int, stride: int, k: int, l: int)
    requires
        stride >= 0,
        0 <= k <= l,
    ensures
        start + k * stride <= start + l * stride,
{
    assert(k * stride <= l * stride) by (nonlinear_arith)
        requires
            stride >= 0,
            0 <= k <= l,
    ;
}

impl StridedSliceRef {
    /// Buffer index of element `k`.
    pub open spec fn index_of(self, k: int) -> int {
        self.start + k * self.stride
    }

    /// Every element of the view lies inside a buffer of length `n`.
    pub open spec fn in_bounds(self, n: int) -> bool {
        self.length == 0 || self.index_of(self.length - 1) < n
    }

    /// Different elements of the view are different buffer entries.
    pub open spec fn distinct(self) -> bool {
        self.stride > 0 || self.length <= 1
    }

    /// Whether buffer index `j` is one of the first `upto` elements of the view.
    pub open spec fn covers(self, j: int, upto: int) -> bool {
        if self.stride == 0 {
            upto > 0 && j == self.start
        } else {
            &&& self.start <= j
            &&& (j - self.start) % (self.stride as int) == 0
            &&& (j - self.start) / (self.stride as int) < upto
        }
    }

    /// The elements of the view, read from `data`.
    pub open spec fn read<T>(self, data: Seq<T>) -> Seq<T> {
        Seq::new(self.length as nat, |k: int| data[self.index_of(k)])
    }

    /// `data` with the first `vals.len()` elements of the view replaced, in order, by `vals`.
    pub open spec fn overwrite<T>(self, data: Seq<T>, vals: Seq<T>) -> Seq<T> {
        Seq::new(
            data.len(),
            |j: int|
                if self.covers(j, vals.len() as int) {
                    vals[if self.stride == 0 {
                        0
                    } else {
                        (j - self.start) / (self.stride as int)
                    }]
                } else {
                    data[j]
                },
        )
    }

    /// Buffer `new` is `old` with element `k < upto` of the view replaced by `vals[k]`.
    pub open spec fn written<T>(self, old: Seq<T>, new: Seq<T>, vals: Seq<T>, upto: int) -> bool {
        &&& new.len() == old.len()
        &&& forall|k: int| 0 <= k < upto ==> new[self.index_of(k)] == vals[k]
        &&& forall|j: int| 0 <= j < old.len() && !self.covers(j, upto) ==> new[j] == old[j]
    }

    proof fn lemma_index_in_bounds(self, n: int, k: int)
        requires
            self.in_bounds(n),
            0 <= k < self.length,
        ensures
            0 <= self.index_of(k) < n,
    {
        lemma_positions_grow(self.start as int, self.stride as int, k, self.length - 1);
        lemma_positions_grow(self.start as int, self.stride as int, 0, k);
    }

    /// A position that is element `k` is covered up to `k + 1` exactly when it is covered up
    /// to `k` or is element `k` itself.
    proof fn lemma_covers_step(self, j: int, k: int)
        requires
            self.distinct(),
            0 <= k < self.length,
        ensures
            self.covers(j, k + 1) <==> (self.covers(j, k) || j == self.index_of(k)),
    {
        if self.stride > 0 {
            if j == self.index_of(k) {
                lemma_position_of(self.start as int, self.stride as int, k, j);
                lemma_positions_grow(self.start as int, self.stride as int, 0, k);
            }
            if self.covers(j, k + 1) && !self.covers(j, k) {
                let s = self.stride as int;
                let q = (j - self.start) / s;
                vstd::arithmetic::div_mod::lemma_fundamental_div_mod(j - self.start, s);
                assert(q == k);
                assert(j - self.start == s * q);
                assert(s * q == q * s) by (nonlinear_arith);
            }
        } else {
            assert(k == 0);
            assert(k * self.stride == 0);
        }
    }

    /// Buffer index of the first element of the view.
    pub fn as_ptr(&self) -> (r: usize)
        ensures
            r == self.start,
    {
        self.start
    }

    /// Buffer index of the first element of the view (for writing).
    pub fn as_mut_ptr(&mut self) -> (r: usize)
        ensures
            r == old(self).start,
            *final(self) == *old(self),
    {
        self.start
    }

    /// Number of elements in this strided view.
    pub fn len(&self) -> (r: usize)
        ensures
            r == self.length,
    {
        self.length
    }

    /// Whether or not this strided slice has any elements.
    pub fn is_empty(&self) -> (r: bool)
        ensures
            r == (self.length == 0),
    {
        self.length == 0
    }

    /// Return `true` if the elements in this strided view are contiguous (stride is 1).
    pub fn is_contiguous(&self) -> (r: bool)
        ensures
            r == (self.stride == 1),
    {
        self.stride == 1
    }

    /// The view as a plain slice of `data` when it is contiguous, `None` otherwise.
    pub fn as_slice<'b, T>(&self, data: &'b [T]) -> (r: Option<&'b [T]>)
        requires
            self.in_bounds(data@.len() as int),
        ensures
            r is Some <==> self.stride == 1,
            r matches Some(s) ==> s@ == self.read(data@),
    {
        if self.stride != 1 {
            return None;
        }
        let b = if self.length == 0 {
            0
        } else {
            self.start
        };
        proof {
            assert(data@.len() == data.len());
            if self.length > 0 {
                assert(self.index_of(self.length - 1) == self.start + self.length - 1);
            }
        }
        let s = vstd::slice::slice_subrange(data, b, b + self.length);
        proof {
            assert(s@ =~= self.read(data@));
        }
        Some(s)
    }

    /// The view as a plain mutable slice of `data` when it is contiguous, `None` otherwise;
    /// what is written through the slice lands in the view.
    pub fn as_mut_slice<'b, T>(&self, data: &'b mut [T]) -> (r: Option<&'b mut [T]>)
        requires
            self.in_bounds(old(data)@.len() as int),
        ensures
            r is Some <==> self.stride == 1,
            r is None ==> final(data)@ == old(data)@,
            r is Some ==> ({
                let b = if self.length == 0 {
                    0int
                } else {
                    self.start as int
                };
                &&& r.unwrap()@ == self.read(old(data)@)
                &&& final(data)@ == old(data)@.subrange(0, b) + final(r.unwrap())@ + old(
                    data,
                )@.subrange(b + self.length, old(data)@.len() as int)
            }),
    {
        if self.stride != 1 {
            return None;
        }
        let b = if self.length == 0 {
            0
        } else {
            self.start
        };
        proof {
            assert(data@.len() == data.len());
            if self.length > 0 {
                assert(self.index_of(self.length - 1) == self.start + self.length - 1);
            }
        }
        let (_, rest) = data.split_at_mut(b);
        let (mid, _) = rest.split_at_mut(self.length);
        proof {
            assert(mid@ =~= self.read(old(data)@));
        }
        Some(mid)
    }

    /// Return a reference to element `index` of the view in `data`, or `None` if `index` is
    /// not below the length.
    pub fn get<'b, T>(&self, data: &'b [T], index: usize) -> (r: Option<&'b T>)
        requires
            self.in_bounds(data@.len() as int),
        ensures
            index >= self.length ==> r is None,
            index < self.length ==> r == Some(&data@[self.index_of(index as int)]),
    {
        if index >= self.length {
            None
        } else {
            proof {
                self.lemma_index_in_bounds(data@.len() as int, index as int);
                assert(data@.len() == data.len());
                assert(0 <= index * self.stride);
            }
            Some(&data[self.start + index * self.stride])
        }
    }

    /// Split the strided view into two parts at the specified location: the first `mid`
    /// elements and the rest.
    pub fn split_at(&self, mid: usize) -> (r: (StridedSliceRef, StridedSliceRef))
        requires
            mid <= self.length,
            mid < self.length ==> self.index_of(mid as int) <= usize::MAX,
        ensures
            r.0 == (StridedSliceRef { start: self.start, length: mid, stride: self.stride }),
            r.1.length == self.length - mid,
            r.1.stride == self.stride,
            mid < self.length ==> r.1.start == self.index_of(mid as int),
            forall|k: int| 0 <= k < self.length - mid ==> r.1.index_of(k) == self.index_of(mid + k),
    {
        let first = StridedSliceRef { start: self.start, length: mid, stride: self.stride };
        let second_start = if mid < self.length {
            self.start + mid * self.stride
        } else {
            self.start
        };
        let second = StridedSliceRef {
            start: second_start,
            length: self.length - mid,
            stride: self.stride,
        };
        proof {
            assert forall|k: int| 0 <= k < self.length - mid implies second.index_of(k)
                == self.index_of(mid + k) by {
                assert((mid + k) * self.stride == mid * self.stride + k * self.stride)
                    by (nonlinear_arith);
            }
        }
        (first, second)
    }
}

impl StridedSliceRef {
    /// Writing element `k` of the view extends a write of the first `k` elements.
    proof fn lemma_written_step<T>(self, old: Seq<T>, cur: Seq<T>, vals: Seq<T>, k: int)
        requires
            self.distinct(),
            self.in_bounds(old.len() as int),
            0 <= k < self.length,
            k < vals.len(),
            self.written(old, cur, vals, k),
        ensures
            self.written(old, cur.update(self.index_of(k), vals[k]), vals, k + 1),
    {
        let new = cur.update(self.index_of(k), vals[k]);
        self.lemma_index_in_bounds(old.len() as int, k);
        assert forall|l: int| 0 <= l < k + 1 implies new[self.index_of(l)] == vals[l] by {
            if l < k {
                assert(self.stride > 0);
                assert(l * self.stride < k * self.stride) by (nonlinear_arith)
                    requires
                        self.stride > 0,
                        0 <= l < k,
                ;
                self.lemma_index_in_bounds(old.len() as int, l);
            }
        }
        assert forall|j: int| 0 <= j < old.len() && !self.covers(j, k + 1) implies new[j]
            == old[j] by {
            self.lemma_covers_step(j, k);
        }
    }

    /// Element `k` of the view is a valid buffer index.
    pub(crate) fn position(&self, Ghost(n): Ghost<int>, k: usize) -> (r: usize)
        requires
            self.in_bounds(n),
            n <= usize::MAX,
            k < self.length,
        ensures
            r == self.index_of(k as int),
            r < n,
    {
        proof {
            self.lemma_index_in_bounds(n, k as int);
            assert(0 <= k * self.stride);
        }
        self.start + k * self.stride
    }

    /// A write of all of `vals` is the overwrite of the view's first elements by `vals`.
    proof fn lemma_written_overwrite<T>(self, old: Seq<T>, new: Seq<T>, vals: Seq<T>)
        requires
            self.distinct(),
            vals.len() <= self.length,
            self.written(old, new, vals, vals.len() as int),
        ensures
            new == self.overwrite(old, vals),
    {
        let ow = self.overwrite(old, vals);
        assert forall|j: int| 0 <= j < old.len() implies new[j] == ow[j] by {
            if self.covers(j, vals.len() as int) {
                if self.stride > 0 {
                    let s = self.stride as int;
                    let k = (j - self.start) / s;
                    vstd::arithmetic::div_mod::lemma_fundamental_div_mod(j - self.start, s);
                    assert(j == self.start + s * k);
                    assert(s * k == k * s) by (nonlinear_arith);
                    assert(k >= 0) by (nonlinear_arith)
                        requires
                            j - self.start >= 0,
                            s > 0,
                            k == (j - self.start) / s,
                    ;
                    assert(self.index_of(k) == j);
                } else {
                    assert(j == self.start);
                    assert(self.index_of(0) == self.start);
                }
            }
        }
        assert(new =~= ow);
    }

    /// Write `vals` over the first `vals.len()` elements of the view.
    pub(crate) fn write_prefix<T: Copy>(&self, data: &mut [T], vals: &Vec<T>)
        requires
            self.distinct(),
            self.in_bounds(old(data)@.len() as int),
            vals@.len() <= self.length,
        ensures
            final(data)@ == self.overwrite(old(data)@, vals@),
    {
        let head = StridedSliceRef { start: self.start, length: vals.len(), stride: self.stride };
        proof {
            if vals@.len() > 0 {
                lemma_positions_grow(
                    self.start as int,
                    self.stride as int,
                    vals@.len() - 1,
                    self.length - 1,
                );
            }
        }
        head.write_all(data, vals);
        proof {
            head.lemma_written_overwrite(old(data)@, data@, vals@);
        }
    }

    /// Write `vals` into the first `vals.len()` elements of the view.
    fn write_all<T: Copy>(&self, data: &mut [T], vals: &Vec<T>)
        requires
            self.distinct(),
            self.in_bounds(old(data)@.len() as int),
            vals@.len() == self.length,
        ensures
            self.written(old(data)@, final(data)@, vals@, self.length as int),
    {
        let ghost n = data@.len() as int;
        let mut k: usize = 0;
        proof {
            assert forall|j: int| 0 <= j < n && !self.covers(j, 0) implies data@[j] == data@[j] by {
            }
        }
        while k < self.length
            invariant
                k <= self.length,
                n == old(data)@.len(),
                self.distinct(),
                self.in_bounds(n),
                vals@.len() == self.length,
                self.written(old(data)@, data@, vals@, k as int),
            decreases self.length - k,
        {
            proof {
                assert(data@.len() == data.len());
            }
            let p = self.position(Ghost(n), k);
            proof {
                self.lemma_written_step(old(data)@, data@, vals@, k as int);
            }
            data[p] = vals[k];
            k += 1;
        }
    }

    /// Read the first `count` elements of the view.
    pub(crate) fn read_prefix<T: Copy>(&self, data: &[T], count: usize) -> (r: Vec<T>)
        requires
            self.in_bounds(data@.len() as int),
            count <= self.length,
        ensures
            r@ == self.read(data@).subrange(0, count as int),
    {
        let mut r: Vec<T> = Vec::new();
        let mut k: usize = 0;
        while k < count
            invariant
                k <= count,
                count <= self.length,
                self.in_bounds(data@.len() as int),
                r@ == self.read(data@).subrange(0, k as int),
            decreases count - k,
        {
            proof {
                assert(data@.len() == data.len());
            }
            let p = self.position(Ghost(data@.len() as int), k);
            r.push(data[p]);
            proof {
                assert(r@ =~= self.read(data@).subrange(0, k as int + 1));
            }
            k += 1;
        }
        r
    }

    /// Deinterleave the view into even- and odd-indexed flat buffers:
    /// `evens[i]` is element `2i` and `odds[i]` element `2i + 1` of the view.
    pub fn deinterleave<T: Copy>(&self, data: &[T], evens: &mut [T], odds: &mut [T])
        requires
            self.in_bounds(data@.len() as int),
            old(odds)@.len() == self.length / 2,
            old(evens)@.len() == (self.length + 1) / 2,
        ensures
            final(evens)@ == evens_of(self.read(data@)),
            final(odds)@ == odds_of(self.read(data@)),
    {
        let x = self.read_prefix(data, self.length);
        proof {
            assert(self.read(data@).subrange(0, self.length as int) =~= self.read(data@));
        }
        crate::utils::deinterleave(x.as_slice(), evens, odds);
    }

    /// Write the interleaving of `evens` and `odds` into the view: element `2i` receives
    /// `evens[i]` and element `2i + 1` receives `odds[i]`; the rest of `data` is unchanged.
    pub fn interleave<T: Copy>(&self, data: &mut [T], evens: &[T], odds: &[T])
        requires
            self.distinct(),
            self.in_bounds(old(data)@.len() as int),
            odds@.len() == self.length / 2,
            evens@.len() == (self.length + 1) / 2,
        ensures
            self.written(old(data)@, final(data)@, interleaved(evens@, odds@), self.length as int),
    {
        let mut x: Vec<T> = Vec::new();
        let mut k: usize = 0;
        let n = self.length;
        while k < n
            invariant
                k <= n,
                n == self.length,
                odds@.len() == n / 2,
                evens@.len() == (n + 1) / 2,
                x@ == interleaved(evens@, odds@).subrange(0, k as int),
            decreases n - k,
        {
            if k % 2 == 0 {
                x.push(evens[k / 2]);
            } else {
                x.push(odds[k / 2]);
            }
            proof {
                assert(x@ =~= interleaved(evens@, odds@).subrange(0, k as int + 1));
            }
            k += 1;
        }
        proof {
            assert(x@ =~= interleaved(evens@, odds@));
        }
        self.write_all(data, &x);
    }

    /// Copy the leading `first.len()` elements of the view into `first` and its trailing
    /// `second.len()` elements into `second`, skipping the gap between them.  This is the
    /// inverse of [`StridedSliceRef::stack`].
    pub fn split<T: Copy>(&self, data: &[T], first: &mut [T], second: &mut [T])
        requires
            self.in_bounds(data@.len() as int),
            old(first)@.len() + old(second)@.len() <= self.length,
        ensures
            final(first)@ == self.read(data@).subrange(0, old(first)@.len() as int),
            final(second)@ == self.read(data@).subrange(
                self.length - old(second)@.len(),
                self.length as int,
            ),
    {
        let nf = first.len();
        let ns = second.len();
        let n_mid = self.length - (nf + ns);
        let mut k: usize = 0;
        while k < nf
            invariant
                k <= nf,
                nf == first@.len(),
                nf + ns <= self.length,
                self.in_bounds(data@.len() as int),
                forall|j: int| 0 <= j < k ==> first@[j] == self.read(data@)[j],
            decreases nf - k,
        {
            proof {
                assert(data@.len() == data.len());
            }
            let p = self.position(Ghost(data@.len() as int), k);
            first[k] = data[p];
            k += 1;
        }
        let mut k: usize = 0;
        while k < ns
            invariant
                k <= ns,
                ns == second@.len(),
                n_mid == self.length - (nf + ns),
                self.in_bounds(data@.len() as int),
                forall|j: int| 0 <= j < k ==> second@[j] == self.read(data@)[j + nf + n_mid],
            decreases ns - k,
        {
            proof {
                assert(data@.len() == data.len());
            }
            let p = self.position(Ghost(data@.len() as int), k + nf + n_mid);
            second[k] = data[p];
            k += 1;
        }
        proof {
            assert(first@ =~= self.read(data@).subrange(0, nf as int));
            assert(second@ =~= self.read(data@).subrange(self.length - ns, self.length as int));
        }
    }

    /// Fill `sink` with the leading `sink.len()` elements of the view.
    pub fn pour_into<T: Copy>(&self, data: &[T], sink: &mut [T])
        requires
            self.in_bounds(data@.len() as int),
            old(sink)@.len() <= self.length,
        ensures
            final(sink)@ == self.read(data@).subrange(0, old(sink)@.len() as int),
    {
        let no = sink.len();
        let mut k: usize = 0;
        while k < no
            invariant
                k <= no,
                no == sink@.len(),
                no <= self.length,
                self.in_bounds(data@.len() as int),
                forall|j: int| 0 <= j < k ==> sink@[j] == self.read(data@)[j],
            decreases no - k,
        {
            proof {
                assert(data@.len() == data.len());
            }
            let p = self.position(Ghost(data@.len() as int), k);
            sink[k] = data[p];
            k += 1;
        }
        proof {
            assert(sink@ =~= self.read(data@).subrange(0, no as int));
        }
    }

    /// Write `first` at the start of the view and `second` at its very end, filling the gap in
    /// between with `zero`.
    pub fn stack<T: Copy>(&self, data: &mut [T], first: &[T], second: &[T], zero: T)
        requires
            self.distinct(),
            self.in_bounds(old(data)@.len() as int),
            first@.len() + second@.len() <= self.length,
        ensures
            self.written(
                old(data)@,
                final(data)@,
                first@ + Seq::new((self.length - first@.len() - second@.len()) as nat, |k: int| zero)
                    + second@,
                self.length as int,
            ),
    {
        let nf = first.len();
        let ns = second.len();
        let n_mid = self.length - (nf + ns);
        let mut x: Vec<T> = Vec::new();
        let ghost target = first@ + Seq::new(n_mid as nat, |k: int| zero) + second@;
        let mut k: usize = 0;
        while k < self.length
            invariant
                k <= self.length,
                nf == first@.len(),
                ns == second@.len(),
                n_mid == self.length - (nf + ns),
                target == first@ + Seq::new(n_mid as nat, |k: int| zero) + second@,
                x@ == target.subrange(0, k as int),
            decreases self.length - k,
        {
            if k < nf {
                x.push(first[k]);
            } else if k < nf + n_mid {
                x.push(zero);
            } else {
                x.push(second[k - nf - n_mid]);
            }
            proof {
                assert(x@ =~= target.subrange(0, k as int + 1));
            }
            k += 1;
        }
        proof {
            assert(x@ =~= target);
        }
        self.write_all(data, &x);
    }

    /// Fill the view with `source`, followed by `zero` for the
    /// remaining elements.
    pub fn fill_from<T: Copy>(&self, data: &mut [T], source: &[T], zero: T)
        requires
            self.distinct(),
            self.in_bounds(old(data)@.len() as int),
            source@.len() <= self.length,
        ensures
            self.written(
                old(data)@,
                final(data)@,
                source@ + Seq::new((self.length - source@.len()) as nat, |k: int| zero),
                self.length as int,
            ),
    {
        let no = source.len();
        let mut x: Vec<T> = Vec::new();
        let ghost target = source@ + Seq::new((self.length - no) as nat, |k: int| zero);
        let mut k: usize = 0;
        while k < self.length
            invariant
                k <= self.length,
                no == source@.len(),
                no <= self.length,
                target == source@ + Seq::new((self.length - no) as nat, |k: int| zero),
                x@ == target.subrange(0, k as int),
            decreases self.length - k,
        {
            if k < no {
                x.push(source[k]);
            } else {
                x.push(zero);
            }
            proof {
                assert(x@ =~= target.subrange(0, k as int + 1));
            }
            k += 1;
        }
        proof {
            assert(x@ =~= target);
        }
        self.write_all(data, &x);
    }
}


proof fn lemma_div_ceil(n: int, d: int)
    requires
        n >= 0,
        d > 0,
    ensures
        n / d + (if n % d == 0 { 0int } else { 1int }) == (n + d - 1) / d,
{
    vstd::arithmetic::div_mod::lemma_fundamental_div_mod(n, d);
    vstd::arithmetic::div_mod::lemma_fundamental_div_mod(n + d - 1, d);
    let q = n / d;
    let r = n % d;
    assert(d * q == q * d) by (nonlinear_arith);
    if r == 0 {
        lemma_fundamental_div_mod_converse(n + d - 1, d, q, d - 1);
    } else {
        assert((q + 1) * d == q * d + d) by (nonlinear_arith);
        lemma_fundamental_div_mod_converse(n + d - 1, d, q + 1, r - 1);
    }
}

/// A strided view together with the buffer it reads from (`&[T]`) or writes to (`&mut [T]`).
pub struct StridedSliceBase<B> {
    /// The underlying buffer.
    pub buf: B,
    /// Which elements of the buffer the view covers.
    pub parts: StridedSliceRef,
}

/// Read-only strided view with an explicit lifetime.
pub type StridedSlice<'a, T> = StridedSliceBase<&'a [T]>;

/// Mutable strided view with an explicit lifetime.
pub type StridedSliceMut<'a, T> = StridedSliceBase<&'a mut [T]>;

impl<'a, T> StridedSliceBase<&'a [T]> {
    /// Create a strided view over `slice` sampling every `stride` elements.
    pub fn from_slice(slice: &'a [T], stride: usize) -> (r: Self)
        requires
            slice@.len() > 0,
            stride > 0,
        ensures
            r.buf@ == slice@,
            r.parts.start == 0,
            r.parts.stride == stride,
            r.parts.length == (slice@.len() + stride - 1) / (stride as int),
    {
        let n = slice.len();
        proof {
            lemma_div_ceil(n as int, stride as int);
            if n % stride != 0 {
                vstd::arithmetic::div_mod::lemma_div_decreases(n as int, stride as int);
            }
        }
        let length = if n % stride == 0 {
            n / stride
        } else {
            n / stride + 1
        };
        StridedSliceBase { buf: slice, parts: StridedSliceRef { start: 0, length, stride } }
    }
}

impl<'a, T> StridedSliceBase<&'a mut [T]> {
    /// Create a mutable strided view over `slice` sampling every `stride` elements.
    pub fn from_mut_slice(slice: &'a mut [T], stride: usize) -> (r: Self)
        requires
            old(slice)@.len() > 0,
            stride > 0,
        ensures
            r.buf@ == old(slice)@,
            r.parts.start == 0,
            r.parts.stride == stride,
            r.parts.length == (old(slice)@.len() + stride - 1) / (stride as int),
    {
        let n = slice.len();
        proof {
            lemma_div_ceil(n as int, stride as int);
            if n % stride != 0 {
                vstd::arithmetic::div_mod::lemma_div_decreases(n as int, stride as int);
            }
        }
        let length = if n % stride == 0 {
            n / stride
        } else {
            n / stride + 1
        };
        StridedSliceBase { buf: slice, parts: StridedSliceRef { start: 0, length, stride } }
    }
}

} // verus!
