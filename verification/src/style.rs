use vstd::prelude::*;

verus! {

/// The looks a button can have.
#[derive(Debug, Clone, Copy, PartialEq, Eq, Structural)]
pub enum Button {
    Primary,
    Secondary,
    Destructive,
    Inactive,
    Active,
    Todo,
    Done,
}

impl Button {
    /// Whether a button of this look has a visible border.
    pub fn outlined(&self) -> (r: bool)
        ensures
            r == (*self == Button::Inactive || *self == Button::Todo),
    {
        match self {
            Button::Inactive => true,
            Button::Todo => true,
            _ => false,
        }
    }

    /// Whether a button of this look carries dark text; the others carry light text.
    pub fn dark_text(&self) -> (r: bool)
        ensures
            r == (*self == Button::Inactive || *self == Button::Active || *self == Button::Todo
                || *self == Button::Done),
    {
        match self {
            Button::Inactive => true,
            Button::Active => true,
            Button::Todo => true,
            Button::Done => true,
            _ => false,
        }
    }
}

} // verus!
