//! Contracts for the `rand` source of random choices.
//!
//! Nothing here is proved. A draw depends on the state of the source, so the
//! contracts state only what holds of every outcome.
use vstd::prelude::*;
use rand::rngs::StdRng;
use rand::seq::IteratorRandom;
use rand::Rng;

verus! {

#[verifier::external_type_specification]
#[verifier::external_body]
pub struct ExStdRng(StdRng);

/// `Rng::gen::<bool>`: one draw; either value may come.
#[verifier::external_body]
pub(crate) fn gen_bool(rng: &mut StdRng) -> bool {
    rng.gen::<bool>()
}

/// Each of `chosen` stands at a place of `items`, and no two of them at the
/// same place.
pub open spec fn drawn_from<T>(items: Seq<T>, chosen: Seq<T>) -> bool {
    exists|places: Seq<int>|
        {
            &&& #[trigger] places.len() == chosen.len()
            &&& places.no_duplicates()
            &&& forall|k: int|
                0 <= k < places.len() ==> 0 <= #[trigger] places[k] < items.len() && chosen[k]
                    == items[places[k]]
        }
}

/// `IteratorRandom::choose_multiple` over the items: `amount` of them, or all
/// where there are fewer, taken from places of which no two are the same.
#[verifier::external_body]
pub(crate) fn choose_multiple<T: Copy>(items: &Vec<T>, rng: &mut StdRng, amount: usize) -> (chosen:
    Vec<T>)
    ensures
        amount <= items@.len() ==> chosen@.len() == amount,
        amount > items@.len() ==> chosen@.len() == items@.len(),
        drawn_from(items@, chosen@),
{
    items.iter().copied().choose_multiple(rng, amount)
}

} // verus!
