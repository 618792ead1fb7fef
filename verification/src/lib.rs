//! Rewiring of a game world's passages that keeps the world completable.
//!
//! A world is a directed multigraph of areas and passages. [`model`] says
//! what such a graph holds, [`graph`] stores it, [`condensation`] decides from
//! its strongly connected components whether the world can be completed, and
//! [`game_world`] exchanges where randomly drawn passages lead, keeping an
//! exchange only when the world stays completable.
//!
//! The graph is kept in a `petgraph` stable graph with a `bimap` map of its
//! areas, the connections open to rearrangement in `linked_hash_set` sets,
//! and the draws come from a `rand` generator. What the library assumes of
//! them is stated in [`stable_graph`], [`node_map`], [`pool`] and [`random`].
use vstd::prelude::*;

pub mod condensation;
pub mod error;
pub mod game_world;
pub mod graph;
pub mod model;
pub mod node_map;
pub mod pool;
pub mod random;
pub mod seq_lemmas;
pub mod stable_graph;

verus! {

/// Identifier of an area, chosen by the caller.
pub type NodeID = u32;

} // verus!
