use vstd::prelude::*;

verus! {

/// One landmark posting: a 34-bit hash anchored at time bin `t` and frequency bin `f`.
#[derive(Clone, Copy, Debug, PartialEq, Eq, Hash, Structural)]
pub struct Fingerprint {
    pub hash: u64,
    pub t: u32,
    pub f: u16,
}

impl Fingerprint {
    pub fn new(hash: u64, t: u32, f: u16) -> (print: Self)
        ensures
            print == (Fingerprint { hash, t, f }),
    {
        Self { hash, t, f }
    }
}

} // verus!
