//! The plain vocabulary of the command line: who controls the bird.

use vstd::prelude::*;

verus! {

/// The controller of the bird.
#[derive(Clone, Copy, Debug, PartialEq, Eq, Structural)]
pub enum Control {
    /// The bird should be controlled by the player.
    Player {},
}

} // verus!
