//! Events that the game hands between its systems.

use vstd::prelude::*;

verus! {

/// Asks for the player's script to be compiled.
pub struct CompileCodeEvent;

} // verus!
