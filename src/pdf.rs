use vstd::prelude::*;

verus! {

/// Equal-weight mixture of two direction densities: its value is the mean
/// of the two values, and a fair coin picks which one draws a direction.
pub struct MixturePdf<P0, P1> {
    pub p0: P0,
    pub p1: P1,
}

impl<P0, P1> MixturePdf<P0, P1> {
    pub fn new(p1: P0, p2: P1) -> (r: MixturePdf<P0, P1>)
        ensures
            r.p0 == p1,
            r.p1 == p2,
    {
        MixturePdf { p0: p1, p1: p2 }
    }

    /// The first component.
    pub fn first(&self) -> (r: &P0)
        ensures
            *r == self.p0,
    {
        &self.p0
    }

    /// The second component.
    pub fn second(&self) -> (r: &P1)
        ensures
            *r == self.p1,
    {
        &self.p1
    }
}

} // verus!
