use vstd::prelude::*;

verus! {

/// The system sets that transform propagation runs in.
#[derive(Clone, Copy, Debug, PartialEq, Eq, Hash, Structural)]
pub enum DTransformSystem {
    /// Propagates changes of local poses to the world poses of their entity
    /// and its descendants.
    TransformPropagate,
}

} // verus!
