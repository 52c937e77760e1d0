//! A permutation of at most 16 elements, stored as 16 bytes.
use vstd::prelude::*;

verus! {

/// A permutation of 0..n with n <= 16: element `i` is sent to the byte at `i`.
#[derive(Clone, Copy, PartialEq, Eq, Debug, PartialOrd, Ord)]
pub struct PermutationSimd(u8, [u8; 16]);

impl PermutationSimd {
    /// The number of elements permuted.
    pub closed spec fn size(&self) -> nat {
        self.0 as nat
    }

    /// The sixteen bytes; the first `size()` of them are the images of 0..size().
    pub closed spec fn bytes(&self) -> Seq<u8> {
        self.1@
    }

    /// Builds the permutation whose images are the bytes of `elements`.
    pub fn from_slice(elements: &[u8]) -> (r: Self)
        requires
            elements@.len() <= 16,
        ensures
            r.size() == elements@.len(),
            r.bytes() == elements@ + Seq::new((16 - elements@.len()) as nat, |i: int| 0u8),
    {
        let mut array = [0u8; 16];
        let n = elements.len();
        let mut i: usize = 0;
        while i < n
            invariant
                i <= n == elements@.len() <= 16,
                forall|k: int| 0 <= k < i ==> array@[k] == elements@[k],
                forall|k: int| i <= k < 16 ==> array@[k] == 0,
            decreases n - i,
        {
            array[i] = elements[i];
            i += 1;
        }
        let r = Self::from_array(n as u8, array);
        assert(r.bytes() =~= elements@ + Seq::new((16 - elements@.len()) as nat, |i: int| 0u8));
        r
    }

    pub fn from_array(n: u8, elements: [u8; 16]) -> (r: Self)
        ensures
            r.size() == n,
            r.bytes() == elements@,
    {
        PermutationSimd(n, elements)
    }

    pub fn as_array(&self) -> (r: &[u8; 16])
        ensures
            r@ == self.bytes(),
    {
        &self.1
    }

    pub fn into_array(self) -> (r: [u8; 16])
        ensures
            r@ == self.bytes(),
    {
        self.1
    }

    /// The image of `num`.
    pub fn apply(&self, num: u8) -> (r: u8)
        requires
            num < self.size(),
            self.size() <= 16,
        ensures
            r == self.bytes()[num as int],
    {
        self.1[num as usize]
    }
}

} // verus!
