//! Contracts for the `bimap` map between areas and the node slots they
//! occupy.
//!
//! Nothing here is proved: each function states what `bimap` does, over the
//! set of pairs that the map holds. Where a function is marked `no_unwind`,
//! `bimap` does not panic on the inputs that its `requires` admits.
use vstd::prelude::*;
use bimap::BiHashMap;
use bimap::BiMap;
use crate::NodeID;

verus! {

#[verifier::external_type_specification]
#[verifier::external_body]
#[verifier::reject_recursive_types(L)]
#[verifier::reject_recursive_types(R)]
#[verifier::reject_recursive_types(LS)]
#[verifier::reject_recursive_types(RS)]
pub struct ExBiHashMap<L, R, LS, RS>(BiHashMap<L, R, LS, RS>);

/// The pairs (area, node slot) that a map holds.
pub uninterp spec fn map_pairs(m: BiMap<NodeID, u32>) -> Set<(NodeID, u32)>;

/// `BiHashMap::new`: a map without pairs.
#[verifier::external_body]
pub(crate) fn new_map() -> (m: BiMap<NodeID, u32>)
    ensures
        map_pairs(m) == Set::<(NodeID, u32)>::empty(),
{
    BiMap::new()
}

/// `BiHashMap::get_by_left`: the slot paired with an area, `None` where the
/// area is in no pair.
#[verifier::external_body]
pub(crate) fn get_by_left(m: &BiMap<NodeID, u32>, id: NodeID) -> (slot: Option<u32>)
    ensures
        slot matches Some(i) ==> map_pairs(*m).contains((id, i)),
        slot is None ==> forall|i: u32| !map_pairs(*m).contains((id, i)),
    no_unwind
{
    m.get_by_left(&id).copied()
}

/// `BiHashMap::get_by_right`: the area paired with a slot, `None` where the
/// slot is in no pair.
#[verifier::external_body]
pub(crate) fn get_by_right(m: &BiMap<NodeID, u32>, slot: u32) -> (id: Option<NodeID>)
    ensures
        id matches Some(x) ==> map_pairs(*m).contains((x, slot)),
        id is None ==> forall|x: NodeID| !map_pairs(*m).contains((x, slot)),
{
    m.get_by_right(&slot).copied()
}

/// `BiHashMap::insert` of an area and a slot that are both in no pair yet:
/// the pair is added and no other pair changes.
#[verifier::external_body]
pub(crate) fn insert(m: &mut BiMap<NodeID, u32>, id: NodeID, slot: u32)
    requires
        forall|i: u32| !map_pairs(*old(m)).contains((id, i)),
        forall|x: NodeID| !map_pairs(*old(m)).contains((x, slot)),
    ensures
        map_pairs(*final(m)) == map_pairs(*old(m)).insert((id, slot)),
    no_unwind
{
    m.insert(id, slot);
}

} // verus!
