//! The plain vocabulary shared with a renderer: which palette entry a
//! drawn shape uses.

use vstd::prelude::*;

verus! {

/// The palette entry of a drawn shape.
#[derive(Clone, Copy, Debug, PartialEq, Eq, Structural)]
#[allow(non_camel_case_types)]
pub enum Color {
    /// The bird.
    BIRD,
    /// A pipe.
    PIPE,
}

impl Color {
    /// The palette index a renderer stores for this color.
    pub fn index(self) -> (r: usize)
        ensures
            r == (match self {
                Color::BIRD => 0int,
                Color::PIPE => 1int,
            }),
    {
        match self {
            Color::BIRD => 0,
            Color::PIPE => 1,
        }
    }
}

} // verus!
