use vstd::prelude::*;

verus! {

/// A 256-bit content hash, the identity of a blob, pack, index file or
/// snapshot. Stored as four 64-bit words; equality is word-wise equality.
#[derive(Clone, Copy, PartialEq, Eq, Structural, Debug)]
pub struct Id {
    pub w0: u64,
    pub w1: u64,
    pub w2: u64,
    pub w3: u64,
}

impl Id {
    /// Build an identifier from its four 64-bit words.
    pub fn new(w0: u64, w1: u64, w2: u64, w3: u64) -> (r: Id)
        ensures
            r == (Id { w0, w1, w2, w3 }),
    {
        Id { w0, w1, w2, w3 }
    }
}

} // verus!
