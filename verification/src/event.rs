//! The input events the game loop hands to the engine's surroundings.

use vstd::prelude::*;

verus! {

/// An input event.
#[derive(Clone, Copy, Debug, PartialEq, Eq, Structural)]
pub enum Event {
    /// The jump key was pressed.
    Jump,
    /// The window was closed or the escape key was pressed.
    Quit,
}

impl Event {
    /// Whether the event ends the game.
    pub fn is_quit(self) -> (r: bool)
        ensures
            r == (self == Event::Quit),
    {
        match self {
            Event::Jump => false,
            Event::Quit => true,
        }
    }
}

} // verus!
