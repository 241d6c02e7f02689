//! A fixed-size array of bits.
use vstd::prelude::*;

verus! {

/// `N` bytes read as `8 * N` bits; bit `i` is bit `i % 8` of byte `i / 8`,
/// counting from the least significant.
#[derive(Clone, Copy, PartialEq, Eq)]
pub struct BitArray<const N: usize>(pub [u8; N]);

impl<const N: usize> BitArray<N> {
    /// Bit `index` of the array.
    pub open spec fn bit(&self, index: int) -> bool {
        (self.0@[index / 8] >> ((index % 8) as u8)) & 1u8 == 1u8
    }

    /// Returns bit `index`.
    pub fn get(&self, index: usize) -> (r: bool)
        requires
            index < 8 * N,
        ensures
            r == self.bit(index as int),
    {
        let (pos, shift) = (index / 8, index % 8);
        (self.0[pos] >> (shift as u8)) & 1 == 1
    }

    /// The number of bits before the first set bit, in the order of `get`
    /// (`8 * N` if no bit is set).
    pub fn leading_zeros(&self) -> (r: usize)
        requires
            8 * N <= usize::MAX,
        ensures
            r <= 8 * N,
            forall|i: int| 0 <= i < r ==> !self.bit(i),
            r < 8 * N ==> self.bit(r as int),
    {
        let mut i: usize = 0;
        while i != N * 8 && !self.get(i)
            invariant
                i <= 8 * N,
                8 * N <= usize::MAX,
                forall|j: int| 0 <= j < i ==> !self.bit(j),
            decreases 8 * N - i,
        {
            i += 1;
        }
        i
    }

    /// The bitwise XOR of two arrays.
    pub fn bitxor(self, rhs: Self) -> (r: Self)
        ensures
            forall|i: int| 0 <= i < N ==> r.0@[i] == self.0@[i] ^ rhs.0@[i],
    {
        let mut out = self;
        let mut i: usize = 0;
        while i < N
            invariant
                i <= N,
                out.0@.len() == N,
                forall|j: int| 0 <= j < i ==> out.0@[j] == self.0@[j] ^ rhs.0@[j],
                forall|j: int| i <= j < N ==> out.0@[j] == self.0@[j],
            decreases N - i,
        {
            let v = out.0[i] ^ rhs.0[i];
            out.0[i] = v;
            i += 1;
        }
        out
    }
}

} // verus!
