//! The states of a partition, indexed by their sums.
//!
//! The states are held in a `hashindexed::HashIndexed`, which finds a state
//! by the hash of its sum. The functions of this module are the only ones
//! that touch it; what they claim of it is not proved here.

use vstd::prelude::*;
use hashindexed::HashIndexed;
use hashindexed::KeyComparator;
use crate::state::PartState;
use crate::sum::Sum;

verus! {

/// Tells the index to find states by their sums.
pub struct SumKey;

impl KeyComparator<PartState, Sum> for SumKey {
    /// The key of a state is its sum.
    fn extract_key(value: &PartState) -> (key: &Sum)
        ensures
            *key == value.statesum,
    {
        &value.statesum
    }
}

#[verifier::external_type_specification]
#[verifier::external_body]
#[verifier::reject_recursive_types(T)]
#[verifier::reject_recursive_types(K)]
#[verifier::reject_recursive_types(E)]
pub struct ExHashIndexed<T, K, E>(HashIndexed<T, K, E>);

/// The states that an index holds, by their sums.
pub uninterp spec fn index_states(h: HashIndexed<PartState, Sum, SumKey>) -> Map<Sum, PartState>;

/// Makes an empty index with `HashIndexed::new`.
#[verifier::external_body]
pub(crate) fn index_new() -> (h: HashIndexed<PartState, Sum, SumKey>)
    ensures
        index_states(h) =~= map![],
{
    HashIndexed::new()
}

/// Counts the states with `HashIndexed::len`, the length of the hash set
/// that holds them.
#[verifier::external_body]
pub(crate) fn index_len(h: &HashIndexed<PartState, Sum, SumKey>) -> (n: usize)
    ensures
        n == index_states(*h).len(),
{
    h.len()
}

/// Tests with `HashIndexed::contains` whether a state with the sum `k` is
/// held.
#[verifier::external_body]
pub(crate) fn index_contains(h: &HashIndexed<PartState, Sum, SumKey>, k: &Sum) -> (r: bool)
    ensures
        r == index_states(*h).contains_key(*k),
{
    h.contains(k)
}

/// Finds with `HashIndexed::get` the state with the sum `k`: the state that
/// is held under `k`, whose own sum is `k`; nothing where none is held.
#[verifier::external_body]
pub(crate) fn index_get<'a>(h: &'a HashIndexed<PartState, Sum, SumKey>, k: &Sum) -> (r: Option<
    &'a PartState,
>)
    ensures
        r is Some <==> index_states(*h).contains_key(*k),
        r matches Some(s) ==> *s == index_states(*h)[*k] && s.statesum == *k,
{
    h.get(k)
}

/// Adds a state with `HashIndexed::insert`, which adds it under its sum
/// where no state is held under that sum, and leaves the index as it is
/// where one is. Tells whether the state was added.
#[verifier::external_body]
pub(crate) fn index_insert(h: &mut HashIndexed<PartState, Sum, SumKey>, state: PartState) -> (fresh:
    bool)
    ensures
        fresh == !index_states(*old(h)).contains_key(state.statesum),
        index_states(*final(h)) == if fresh {
            index_states(*old(h)).insert(state.statesum, state)
        } else {
            index_states(*old(h))
        },
{
    h.insert(state)
}

/// Removes all states with `HashIndexed::clear`.
#[verifier::external_body]
pub(crate) fn index_clear(h: &mut HashIndexed<PartState, Sum, SumKey>)
    ensures
        index_states(*final(h)) =~= map![],
{
    h.clear()
}

/// Walks the index with `HashIndexed::iter` and collects the sum of every
/// state: each sum that the index holds once, in the order of the walk, of
/// which nothing is claimed.
#[verifier::external_body]
pub(crate) fn index_sums(h: &HashIndexed<PartState, Sum, SumKey>) -> (sums: Vec<Sum>)
    ensures
        sums@.no_duplicates() && sums@.to_set() == index_states(*h).dom(),
{
    h.iter().map(|s| s.statesum).collect()
}

} // verus!
