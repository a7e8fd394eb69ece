//! Systems: units of behavior the embedding application runs against the
//! store each frame.

use vstd::prelude::*;
use crate::world::World;

verus! {

/// Placeholder payload for the experimental spawn surface below.
pub struct TemporaryXastData {}

/// Experimental narrow spawn surface, kept while the system interface
/// settles.
pub trait TemporaryXastWorld {
    fn spawn(&mut self, data: TemporaryXastData);
}

/// A unit of behavior executed against the store.
pub trait System {
    fn execute(&self, world: &mut World);
}

} // verus!
