use vstd::prelude::*;

verus! {

/// Width and height of the window, in pixels, where none are given.
pub fn size() -> (r: (u32, u32))
    ensures
        r == (900u32, 780u32),
{
    (900, 780)
}

} // verus!
