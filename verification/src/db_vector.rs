//! The owned byte buffer that point lookups hand back.

use vstd::prelude::*;
use vstd::slice::slice_to_vec;

verus! {

/// An owned copy of a stored value.
#[derive(Debug)]
pub struct AgateDBVector {
    data: Vec<u8>,
}

impl View for AgateDBVector {
    type V = Seq<u8>;

    closed spec fn view(&self) -> Seq<u8> {
        self.data@
    }
}

impl AgateDBVector {
    /// Wrap a copy of the raw bytes.
    pub fn from_raw(raw: &[u8]) -> (r: AgateDBVector)
        ensures
            r@ == raw@,
    {
        AgateDBVector { data: slice_to_vec(raw) }
    }

    /// The held bytes.
    pub fn as_slice(&self) -> (r: &[u8])
        ensures
            r@ == self@,
    {
        self.data.as_slice()
    }

    /// How many bytes are held.
    pub fn len(&self) -> (r: usize)
        ensures
            r == self@.len(),
    {
        self.data.len()
    }

    /// Equality with a bare byte string.
    pub fn eq_bytes(&self, rhs: &[u8]) -> (r: bool)
        ensures
            r == (self@ == rhs@),
    {
        crate::order::bytes_eq(self.data.as_slice(), rhs)
    }
}

} // verus!
