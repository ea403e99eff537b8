//! Fixed-size byte strings, such as digests.

use vstd::prelude::*;
use crate::codec::{hex_of, push_hex};

verus! {

pub struct Bytes<const T: usize>(pub [u8; T]);

impl<const T: usize> Bytes<T> {
    /// Whether every byte is zero.
    pub fn is_zero(&self) -> (r: bool)
        ensures
            r == forall|i: int| 0 <= i < self.0@.len() ==> self.0@[i] == 0,
    {
        let s = self.0.as_slice();
        let mut i: usize = 0;
        while i < s.len()
            invariant
                s@ == self.0@,
                i <= s@.len(),
                forall|j: int| 0 <= j < i ==> s@[j] == 0,
            decreases s@.len() - i,
        {
            if s[i] != 0 {
                return false;
            }
            i = i + 1;
        }
        true
    }

    /// The bytes as lower-case hexadecimal text after `0x`.
    pub fn fmt_as_hex(&self) -> (r: String)
        ensures
            r@ == "0x"@ + hex_of(self.0@),
    {
        proof {
            reveal_strlit("0x");
        }
        let mut r = "0x".to_owned();
        push_hex(&mut r, self.0.as_slice());
        r
    }
}

} // verus!
