//! Register-width groups of samples.
use vstd::prelude::*;

verus! {

/// `N` samples loaded, gathered, stored and scattered together.
#[derive(Clone, Copy)]
pub struct Simd<T, const N: usize> {
    /// The samples.
    pub arr: [T; N],
}

impl<T: Copy, const N: usize> Simd<T, N> {
    /// Take the samples of `arr`.
    pub fn clone(&mut self, arr: [T; N])
        ensures
            final(self).arr == arr,
    {
        self.arr = arr;
    }

    /// Load the samples of `arr`.
    pub fn load(&mut self, arr: &[T; N])
        ensures
            final(self).arr@ == arr@,
    {
        let mut i: usize = 0;
        while i < N
            invariant
                i <= N,
                self.arr@.len() == N,
                forall|k: int| 0 <= k < i ==> self.arr@[k] == arr@[k],
            decreases N - i,
        {
            self.arr[i] = arr[i];
            i += 1;
        }
        proof {
            assert(self.arr@ =~= arr@);
        }
    }

    /// Gather one sample through each reference of `arr`.
    pub fn gather(&mut self, arr: [&T; N])
        ensures
            forall|k: int| 0 <= k < N ==> #[trigger] final(self).arr@[k] == *arr@[k],
    {
        let mut i: usize = 0;
        while i < N
            invariant
                i <= N,
                self.arr@.len() == N,
                forall|k: int| 0 <= k < i ==> self.arr@[k] == *arr@[k],
            decreases N - i,
        {
            self.arr[i] = *arr[i];
            i += 1;
        }
    }

    /// Store the samples into `arr`.
    pub fn store(&self, arr: &mut [T; N])
        ensures
            final(arr)@ == self.arr@,
    {
        let mut i: usize = 0;
        while i < N
            invariant
                i <= N,
                arr@.len() == N,
                forall|k: int| 0 <= k < i ==> arr@[k] == self.arr@[k],
            decreases N - i,
        {
            arr[i] = self.arr[i];
            i += 1;
        }
        proof {
            assert(arr@ =~= self.arr@);
        }
    }

    /// Scatter the samples through the references of `arr`, one each.
    pub fn scatter(&self, arr: [&mut T; N])
        ensures
            forall|k: int| 0 <= k < N ==> *final(arr@[k]) == self.arr@[k],
    {
        let ghost a0 = arr;
        let mut arr = arr;
        let mut i: usize = 0;
        while i < N
            invariant
                i <= N,
                arr@.len() == N,
                forall|k: int| 0 <= k < N ==> *final(arr@[k]) == *final(a0@[k]),
                forall|k: int| 0 <= k < i ==> *arr@[k] == self.arr@[k],
            decreases N - i,
        {
            *arr[i] = self.arr[i];
            i += 1;
        }
    }
}

} // verus!
