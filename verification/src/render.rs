//! Data the embedding application's rendering layer reads: mesh geometry
//! and transformation conventions. The GPU device, pipelines, and passes
//! themselves live with that layer.

use vstd::prelude::*;

verus! {

/// Indexed geometry: vertex records and triangle indices into them.
pub struct Mesh<V> {
    pub vertices: Vec<V>,
    pub indices: Vec<u32>,
}

/// The order in which rotation and translation compose when a transform
/// is built.
#[derive(Debug, Clone, Copy, Hash, PartialEq, Eq, Structural)]
pub enum TransformationType {
    /// Rotation applied after translation.
    FirstPerson,
    /// Translation applied after rotation.
    LookAt,
}

impl Default for TransformationType {
    /// The first-person convention.
    fn default() -> (t: TransformationType)
        ensures
            t is FirstPerson,
    {
        TransformationType::FirstPerson
    }
}

} // verus!
