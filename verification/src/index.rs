//! The hash index behind a keyed child list: an insertion-ordered map that
//! files each key under its canonical form, so that the position of a key is
//! found without walking the list.

use vstd::prelude::*;
use ordermap::OrderMap;
use std::collections::hash_map::RandomState;

verus! {

/// `ordermap::OrderMap`, held opaque: what it holds is `index_slots`.
#[verifier::external_type_specification]
#[verifier::external_body]
#[verifier::reject_recursive_types(K)]
#[verifier::reject_recursive_types(V)]
#[verifier::reject_recursive_types(S)]
pub struct ExOrderMap<K, V, S>(OrderMap<K, V, S>);

/// The forms filed in an index, in the order in which they were inserted.
pub uninterp spec fn index_slots(m: OrderMap<(u8, i128, Vec<u8>), (), RandomState>) -> Seq<
    (u8, i128, Seq<u8>),
>;

/// The largest number of entries that an index is sized for in advance.
pub const PRESIZE_LIMIT: usize = 0x10000;

/// `OrderMap::with_capacity`: a map without entries. The bound keeps the
/// table size that the crate computes from `n` within `usize`.
#[verifier::external_body]
pub(crate) fn index_with_capacity(n: usize) -> (m: OrderMap<(u8, i128, Vec<u8>), (), RandomState>)
    requires
        n <= PRESIZE_LIMIT,
    ensures
        index_slots(m) == Seq::<(u8, i128, Seq<u8>)>::empty(),
{
    OrderMap::with_capacity(n)
}

/// `OrderMap::clone`: a map with the same entries in the same order.
#[verifier::external_body]
pub(crate) fn index_clone(m: &OrderMap<(u8, i128, Vec<u8>), (), RandomState>) -> (c: OrderMap<
    (u8, i128, Vec<u8>),
    (),
    RandomState,
>)
    ensures
        index_slots(c) == index_slots(*m),
{
    m.clone()
}

/// `OrderMap::len`: the number of entries.
#[verifier::external_body]
pub(crate) fn index_len(m: &OrderMap<(u8, i128, Vec<u8>), (), RandomState>) -> (n: usize)
    ensures
        n == index_slots(*m).len(),
{
    m.len()
}

/// `OrderMap::get_full`: the position in insertion order of the entry filed
/// under `slot`, or `None` where no entry is filed under it. A map files
/// a form once, so no other position holds it.
#[verifier::external_body]
pub(crate) fn index_position(
    m: &OrderMap<(u8, i128, Vec<u8>), (), RandomState>,
    slot: &(u8, i128, Vec<u8>),
) -> (r: Option<usize>)
    ensures
        match r {
            Some(i) => i < index_slots(*m).len() && index_slots(*m)[i as int] == (
                slot.0,
                slot.1,
                slot.2@,
            ) && forall|j: int|
                0 <= j < index_slots(*m).len() && #[trigger] index_slots(*m)[j] == (
                    slot.0,
                    slot.1,
                    slot.2@,
                ) ==> j == i,
            None => !index_slots(*m).contains((slot.0, slot.1, slot.2@)),
        },
{
    m.get_full(slot).map(|found| found.0)
}

/// `OrderMap::insert`: a form that is not yet filed becomes the last entry;
/// one that is filed keeps its place, and the order does not change.
#[verifier::external_body]
pub(crate) fn index_insert(
    m: &mut OrderMap<(u8, i128, Vec<u8>), (), RandomState>,
    slot: (u8, i128, Vec<u8>),
)
    ensures
        index_slots(*final(m)) == if index_slots(*old(m)).contains((slot.0, slot.1, slot.2@)) {
            index_slots(*old(m))
        } else {
            index_slots(*old(m)).push((slot.0, slot.1, slot.2@))
        },
{
    m.insert(slot, ());
}

} // verus!
