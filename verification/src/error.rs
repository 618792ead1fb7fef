//! The one failure a caller can recover from.
use vstd::prelude::*;
use crate::NodeID;

verus! {

/// Why a world was refused.
#[derive(Debug)]
pub enum Error {
    /// The world cannot be completed: its condensation does not have exactly
    /// one component without an incoming passage. Carries the areas of every
    /// such component.
    GameUnbeatable(Vec<NodeID>),
}

} // verus!
