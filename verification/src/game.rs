//! Game-level handles: the scene a level points at.

use vstd::prelude::*;

verus! {

/// A slot-style handle to a loaded scene: a slot position and the
/// generation under which it is valid.
#[derive(Debug, Clone, Copy, PartialEq, Eq, Hash, Default, Structural)]
pub struct SceneHandle {
    pub idx: u32,
    pub version: u32,
}

/// One level of the game, naming the scene that holds its content.
pub struct Level(pub SceneHandle);

} // verus!
