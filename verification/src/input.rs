//! Keys as the editor gets them.

use vstd::prelude::*;

verus! {

/// The name of a key: a character, or a word such as `escape`.
pub type Key = String;

/// The modifier keys held down with a key.
#[derive(Debug, Clone, Copy, PartialEq, Eq, Hash, Structural)]
pub struct Modifiers {
    pub control: bool,
    pub alt: bool,
    pub shift: bool,
}

impl Default for Modifiers {
    fn default() -> (m: Self)
        ensures
            m == (Modifiers { control: false, alt: false, shift: false }),
    {
        Modifiers { control: false, alt: false, shift: false }
    }
}

} // verus!
