use vstd::prelude::*;

verus! {

/// Milliseconds an instruction stays up when none are given.
pub fn timer() -> (r: u16)
    ensures
        r == 3000,
{
    3_000
}

} // verus!
