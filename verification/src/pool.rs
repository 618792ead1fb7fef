//! Contracts for the `linked_hash_set` sets that hold the connections open
//! to rearrangement.
//!
//! Nothing here is proved: each function states what `linked_hash_set` does,
//! over the sequence of members that a set holds in insertion order.
use vstd::prelude::*;
use linked_hash_set::LinkedHashSet;
use crate::game_world::OneWay;
use crate::game_world::TwoWay;

verus! {

#[verifier::external_type_specification]
#[verifier::external_body]
#[verifier::reject_recursive_types(T)]
#[verifier::reject_recursive_types(S)]
pub struct ExLinkedHashSet<T, S>(LinkedHashSet<T, S>);

/// The members of a set of one-way connections, in insertion order.
pub uninterp spec fn one_way_members(pool: LinkedHashSet<OneWay>) -> Seq<OneWay>;

/// The members of a set of two-way connections, in insertion order.
pub uninterp spec fn two_way_members(pool: LinkedHashSet<TwoWay>) -> Seq<TwoWay>;

/// `LinkedHashSet::iter`: the members in insertion order, none twice.
#[verifier::external_body]
pub(crate) fn one_ways(pool: &LinkedHashSet<OneWay>) -> (members: Vec<OneWay>)
    ensures
        members@ == one_way_members(*pool),
        members@.no_duplicates(),
{
    pool.iter().copied().collect()
}

/// `LinkedHashSet::remove`: takes the member out, keeping the order of the
/// others, and says whether it was one.
#[verifier::external_body]
pub(crate) fn remove_one_way(pool: &mut LinkedHashSet<OneWay>, item: &OneWay) -> (removed: bool)
    ensures
        removed == one_way_members(*old(pool)).contains(*item),
        one_way_members(*final(pool)) == one_way_members(*old(pool)).remove_value(*item),
{
    pool.remove(item)
}

/// `LinkedHashSet::insert`: puts the item last, taking it out of its old
/// place where it was a member already, and says whether it was none.
#[verifier::external_body]
pub(crate) fn insert_one_way(pool: &mut LinkedHashSet<OneWay>, item: OneWay) -> (added: bool)
    ensures
        added == !one_way_members(*old(pool)).contains(item),
        one_way_members(*final(pool)) == one_way_members(*old(pool)).remove_value(item).push(item),
{
    pool.insert(item)
}

/// `LinkedHashSet::iter`: the members in insertion order, none twice.
#[verifier::external_body]
pub(crate) fn two_ways(pool: &LinkedHashSet<TwoWay>) -> (members: Vec<TwoWay>)
    ensures
        members@ == two_way_members(*pool),
        members@.no_duplicates(),
{
    pool.iter().copied().collect()
}

/// `LinkedHashSet::remove`: takes the member out, keeping the order of the
/// others, and says whether it was one.
#[verifier::external_body]
pub(crate) fn remove_two_way(pool: &mut LinkedHashSet<TwoWay>, item: &TwoWay) -> (removed: bool)
    ensures
        removed == two_way_members(*old(pool)).contains(*item),
        two_way_members(*final(pool)) == two_way_members(*old(pool)).remove_value(*item),
{
    pool.remove(item)
}

/// `LinkedHashSet::insert`: puts the item last, taking it out of its old
/// place where it was a member already, and says whether it was none.
#[verifier::external_body]
pub(crate) fn insert_two_way(pool: &mut LinkedHashSet<TwoWay>, item: TwoWay) -> (added: bool)
    ensures
        added == !two_way_members(*old(pool)).contains(item),
        two_way_members(*final(pool)) == two_way_members(*old(pool)).remove_value(item).push(item),
{
    pool.insert(item)
}

} // verus!
