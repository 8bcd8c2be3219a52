use vstd::prelude::*;

verus! {

/// A process-unique participant identifier: a 128-bit random value held as
/// two 64-bit halves, compared by value. Drawn once per successful join and
/// never reused.
#[derive(Clone, Copy, PartialEq, Eq, Structural, Hash, Debug)]
pub struct Uid {
    pub hi: u64,
    pub lo: u64,
}

impl Uid {
    /// Relies on `uuid::Uuid::new_v4` for a fresh random identifier; the
    /// result is random, so nothing is assumed of the returned halves. The
    /// call aborts the process if the operating system's randomness source
    /// fails, an environmental failure of the same kind as allocation
    /// failure.
    #[verifier::external_body]
    fn random_halves() -> (u64, u64) {
        uuid::Uuid::new_v4().as_u64_pair()
    }

    /// Draws a fresh random identifier.
    pub fn new() -> Uid {
        let (hi, lo): (u64, u64) = Uid::random_halves();
        Uid { hi, lo }
    }

    /// The identifier's raw value, as its high and low 64-bit halves.
    pub fn inner(&self) -> (r: (u64, u64))
        ensures
            r == (self.hi, self.lo),
    {
        (self.hi, self.lo)
    }
}

} // verus!
