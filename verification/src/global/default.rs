use vstd::prelude::*;

verus! {

/// Width and height of the window, in pixels, where none are given.
pub fn window_size() -> (r: (u32, u32))
    ensures
        r == (900u32, 780u32),
{
    (900, 780)
}

/// The least width and height that the window may be given.
pub fn min_window_size() -> (r: (u32, u32))
    ensures
        r == (600u32, 600u32),
{
    (600, 600)
}

/// Whether the window may be resized where nothing is said.
pub fn resizable() -> (r: bool)
    ensures
        r,
{
    true
}

/// How text is aligned where nothing is said.
pub fn text_alignment() -> (r: String)
    ensures
        r@ == "Center"@,
{
    String::from_str("Center")
}

} // verus!
