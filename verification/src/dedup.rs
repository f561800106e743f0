//! Deduplication of canonical states, backed by indexmap's
//! insertion-ordered set: equal pile layouts are stored once, and every
//! stored layout can be recalled by the position it was inserted at.

use vstd::prelude::*;
use indexmap::IndexSet;
use crate::solver::piles_view;

verus! {

#[verifier::external_type_specification]
#[verifier::external_body]
#[verifier::reject_recursive_types(T)]
#[verifier::reject_recursive_types(S)]
pub struct ExIndexSet<T, S>(IndexSet<T, S>);

/// The canonical states an `IndexSet` holds, in insertion order.
pub uninterp spec fn index_set_elems(s: IndexSet<Vec<Vec<u8>>>) -> Seq<Seq<Seq<u8>>>;

/// Relies on indexmap's `IndexSet::new`: a set with no elements.
#[verifier::external_body]
pub fn state_set_new() -> (r: IndexSet<Vec<Vec<u8>>>)
    ensures
        index_set_elems(r) == Seq::<Seq<Seq<u8>>>::empty(),
{
    IndexSet::new()
}

/// Relies on indexmap's `IndexSet::insert`: a value equal to a stored
/// one returns false and changes nothing; any other value is appended
/// in insertion order and returns true.
#[verifier::external_body]
pub fn state_set_insert(s: &mut IndexSet<Vec<Vec<u8>>>, v: Vec<Vec<u8>>) -> (r: bool)
    ensures
        index_set_elems(*old(s)).contains(piles_view(v)) ==> r == false && index_set_elems(
            *final(s),
        ) == index_set_elems(*old(s)),
        !index_set_elems(*old(s)).contains(piles_view(v)) ==> r == true && index_set_elems(
            *final(s),
        ) == index_set_elems(*old(s)).push(piles_view(v)),
{
    s.insert(v)
}

/// Relies on indexmap's `IndexSet::len`: the number of stored states.
#[verifier::external_body]
pub fn state_set_len(s: &IndexSet<Vec<Vec<u8>>>) -> (r: usize)
    ensures
        r == index_set_elems(*s).len(),
{
    s.len()
}

/// Relies on indexmap's `IndexSet::get_index`: the state stored at a
/// position in insertion order, copied out, or nothing when the
/// position is out of range.
#[verifier::external_body]
pub fn state_set_get_index(s: &IndexSet<Vec<Vec<u8>>>, index: usize) -> (r: Option<Vec<Vec<u8>>>)
    ensures
        index < index_set_elems(*s).len() ==> (match r {
            Some(v) => piles_view(v) == index_set_elems(*s)[index as int],
            None => false,
        }),
        index >= index_set_elems(*s).len() ==> r is None,
{
    s.get_index(index).cloned()
}

} // verus!
