//! Containers that own the children of a node: exactly one, at most one, or
//! a keyed list in insertion order.

use vstd::prelude::*;
use ordermap::OrderMap;
use std::collections::hash_map::RandomState;
use crate::index::index_clone;
use crate::index::index_insert;
use crate::index::index_len;
use crate::index::index_position;
use crate::index::index_slots;
use crate::index::index_with_capacity;
use crate::index::PRESIZE_LIMIT;
use crate::key::lemma_slot_injective;
use crate::key::Key;
use crate::key::KeyView;
use crate::node::BuilderChild;
use crate::node::BuilderSetter;
use crate::reorder::apply_swaps;
use crate::reorder::fixing;
use crate::reorder::lemma_fixing_keeps;
use crate::reorder::lemma_no_rings;
use crate::reorder::lemma_no_swaps;
use crate::reorder::lemma_rearranged_len;
use crate::reorder::lemma_rings;
use crate::reorder::lemma_rings_minimal;
use crate::reorder::rings;
use crate::reorder::walk;
use crate::reorder::in_range;
use crate::reorder::lemma_swaps_reconcile;
use crate::reorder::rearranged;
use crate::reorder::swap_at;
use crate::reorder::swaps;

verus! {

/// Exactly one child, always present.
#[derive(Debug, Clone)]
pub struct Single<N> {
    pub node: Box<N>,
}

impl<N> Single<N> {
    /// Wraps `node`.
    pub fn new(node: N) -> (s: Single<N>)
        ensures
            *s.node == node,
    {
        Single { node: Box::new(node) }
    }

    /// The child.
    pub fn get(&self) -> (n: &N)
        ensures
            *n == *self.node,
    {
        &*self.node
    }

    /// The child, to be changed in place.
    pub fn get_mut(&mut self) -> (n: &mut N)
        ensures
            *n == *old(self).node,
            *final(self).node == *final(n),
    {
        &mut *self.node
    }

    /// Puts `node` in the child's place and hands back the child that was there.
    pub fn replace(&mut self, node: N) -> (prev: N)
        ensures
            prev == *old(self).node,
            *final(self).node == node,
    {
        let mut node = node;
        std::mem::swap(&mut *self.node, &mut node);
        node
    }

    /// Gives up the container for the child.
    pub fn into_inner(self) -> (n: N)
        ensures
            n == *self.node,
    {
        *self.node
    }
}

/// At most one child.
#[derive(Debug, Clone)]
pub struct Option<N> {
    pub node: core::option::Option<Box<N>>,
}

impl<N> Option<N> {
    /// Wraps the child, if there is one.
    pub fn new(node: core::option::Option<N>) -> (o: Option<N>)
        ensures
            o.child() == node,
    {
        match node {
            Some(n) => Option { node: Some(Box::new(n)) },
            None => Option { node: None },
        }
    }

    /// The child, if there is one.
    pub open spec fn child(&self) -> core::option::Option<N> {
        match self.node {
            Some(n) => Some(*n),
            None => None,
        }
    }

    /// The child, if there is one.
    pub fn get(&self) -> (r: core::option::Option<&N>)
        ensures
            r == match self.child() {
                Some(n) => Some(&n),
                None => None,
            },
    {
        match &self.node {
            Some(n) => Some(&**n),
            None => None,
        }
    }

    /// Whether there is a child.
    pub fn is_some(&self) -> (r: bool)
        ensures
            r == self.child().is_some(),
    {
        self.node.is_some()
    }

    /// Whether there is no child.
    pub fn is_none(&self) -> (r: bool)
        ensures
            r == self.child().is_none(),
    {
        self.node.is_none()
    }

    /// Gives up the container for the child, if there is one.
    pub fn into_inner(self) -> (r: core::option::Option<N>)
        ensures
            r == self.child(),
    {
        match self.node {
            Some(n) => Some(*n),
            None => None,
        }
    }
}

impl<N> Default for Option<N> {
    /// A container without a child.
    fn default() -> (o: Option<N>)
        ensures
            o.child().is_none(),
    {
        Option { node: None }
    }
}

/// The views of a list of keys.
pub open spec fn key_views(keys: Seq<Key>) -> Seq<KeyView> {
    keys.map_values(|k: Key| k@)
}

/// The filed forms of a list of keys.
pub open spec fn key_slots(keys: Seq<Key>) -> Seq<(u8, i128, Seq<u8>)> {
    keys.map_values(|k: Key| k@.slot())
}

/// One record of a comparison of two keyed lists: the key, then position
/// and child in the current list, then position and child in the prior one.
pub type Delta<'a, N> = (
    &'a Key,
    core::option::Option<(usize, &'a N)>,
    core::option::Option<(usize, &'a N)>,
);

/// Filtering a sequence with one more item keeps that item where it passes.
pub proof fn lemma_filter_push<A>(s: Seq<A>, x: A, pred: spec_fn(A) -> bool)
    ensures
        s.push(x).filter(pred) == if pred(x) {
            s.filter(pred).push(x)
        } else {
            s.filter(pred)
        },
{
    reveal(Seq::filter);
    assert(s.push(x).drop_last() =~= s);
}

/// The whole numbers below `n`, in order.
pub open spec fn positions(n: nat) -> Seq<int> {
    Seq::new(n, |i: int| i)
}

/// Children under keys, in the order in which they were inserted.
#[derive(Debug)]
pub struct Multi<N> {
    pub keys: Vec<Key>,
    pub nodes: Vec<N>,
    pub index: OrderMap<(u8, i128, Vec<u8>), (), RandomState>,
}

impl<N> Multi<N> {
    /// The keys by value, in order.
    pub open spec fn key_views(&self) -> Seq<KeyView> {
        key_views(self.keys@)
    }

    /// Whether a child stands under `key`.
    pub open spec fn has(&self, key: KeyView) -> bool {
        self.key_views().contains(key)
    }

    /// The position of the child under `key`, where there is one.
    pub open spec fn position_of(&self, key: KeyView) -> int {
        self.key_views().index_of(key)
    }

    /// Every child has one key, no key occurs twice, and the index files
    /// each key at its position.
    pub open spec fn wf(&self) -> bool {
        &&& self.keys@.len() == self.nodes@.len()
        &&& self.key_views().no_duplicates()
        &&& index_slots(self.index) == key_slots(self.keys@)
    }

    /// A list without children.
    pub fn new() -> (m: Multi<N>)
        ensures
            m.wf(),
            m.keys@.len() == 0,
            m.nodes@.len() == 0,
    {
        Multi::with_capacity(0)
    }

    /// A list without children, sized in advance for `cap` of them (for
    /// `PRESIZE_LIMIT` where `cap` is larger).
    pub fn with_capacity(cap: usize) -> (m: Multi<N>)
        ensures
            m.wf(),
            m.keys@.len() == 0,
            m.nodes@.len() == 0,
    {
        let n = if cap > PRESIZE_LIMIT {
            PRESIZE_LIMIT
        } else {
            cap
        };
        let m = Multi { keys: Vec::with_capacity(n), nodes: Vec::with_capacity(n), index: index_with_capacity(n) };
        assert(key_slots(m.keys@) =~= Seq::empty());
        m
    }

    /// Whether the list is well formed: whether it is as its own
    /// functions leave it.
    pub fn is_well_formed(&self) -> (r: bool)
        ensures
            r == self.wf(),
    {
        if self.keys.len() != self.nodes.len() || index_len(&self.index) != self.keys.len() {
            return false;
        }
        let ghost slots = index_slots(self.index);
        let ghost views = self.key_views();
        let mut i: usize = 0;
        while i < self.keys.len()
            invariant
                i <= self.keys@.len(),
                self.keys@.len() == self.nodes@.len(),
                slots == index_slots(self.index),
                views == self.key_views(),
                slots.len() == self.keys@.len(),
                forall|k: int| 0 <= k < i ==> slots[k] == #[trigger] self.keys@[k]@.slot(),
                forall|k: int, j: int|
                    0 <= k < i && 0 <= j < slots.len() && #[trigger] slots[j] == #[trigger] self.keys@[k]@.slot()
                        ==> j == k,
            decreases self.keys@.len() - i,
        {
            let slot = self.keys[i].slot();
            match index_position(&self.index, &slot) {
                Some(p) => {
                    if p != i {
                        proof {
                            if self.wf() {
                                lemma_slot_injective(self.keys@[p as int]@, self.keys@[i as int]@);
                                assert(views[p as int] == views[i as int]);
                            }
                        }
                        return false;
                    }
                },
                None => {
                    proof {
                        if self.wf() {
                            assert(key_slots(self.keys@)[i as int] == self.keys@[i as int]@.slot());
                        }
                    }
                    return false;
                },
            }
            i += 1;
        }
        proof {
            assert(slots =~= key_slots(self.keys@));
            assert forall|a: int, b: int| 0 <= a < views.len() && 0 <= b < views.len() && a != b implies views[a]
                != views[b] by {
                if views[a] == views[b] {
                    assert(slots[a] == self.keys@[a]@.slot());
                    assert(slots[b] == self.keys@[b]@.slot());
                }
            }
        }
        true
    }

    /// The number of children.
    pub fn len(&self) -> (n: usize)
        ensures
            n == self.nodes@.len(),
    {
        self.nodes.len()
    }

    /// The position of the child under `key`.
    pub fn position(&self, key: &Key) -> (r: core::option::Option<usize>)
        requires
            self.wf(),
        ensures
            match r {
                Some(i) => self.has(key@) && i < self.keys@.len() && self.keys@[i as int]@ == key@
                    && i == self.position_of(key@),
                None => !self.has(key@),
            },
    {
        let slot = key.slot();
        let r = index_position(&self.index, &slot);
        proof {
            let views = self.key_views();
            let slots = key_slots(self.keys@);
            match r {
                Some(i) => {
                    lemma_slot_injective(self.keys@[i as int]@, key@);
                    assert(views[i as int] == key@);
                    assert(views.contains(key@));
                    let j = views.index_of(key@);
                    assert(views[j] == key@);
                },
                None => {
                    if views.contains(key@) {
                        let j = views.index_of(key@);
                        assert(views[j] == key@);
                        assert(slots[j] == key@.slot());
                        assert(slots.contains(key@.slot()));
                    }
                },
            }
        }
        r
    }

    /// The child under `key`.
    pub fn get_by_key(&self, key: &Key) -> (r: core::option::Option<&N>)
        requires
            self.wf(),
        ensures
            match r {
                Some(n) => self.has(key@) && *n == self.nodes@[self.position_of(key@)],
                None => !self.has(key@),
            },
    {
        match self.position(key) {
            Some(i) => Some(&self.nodes[i]),
            None => None,
        }
    }

    /// Whether a child stands under `key`.
    pub fn contains_key(&self, key: &Key) -> (r: bool)
        requires
            self.wf(),
        ensures
            r == self.has(key@),
    {
        self.position(key).is_some()
    }

    /// Inserts `node` under `key`, after the children that are there. The key
    /// must be new to the list.
    pub fn push(&mut self, key: Key, node: N)
        requires
            old(self).wf(),
            !old(self).has(key@),
        ensures
            final(self).wf(),
            final(self).keys@ == old(self).keys@.push(key),
            final(self).nodes@ == old(self).nodes@.push(node),
    {
        let slot = key.slot();
        proof {
            let views = self.key_views();
            let slots = key_slots(self.keys@);
            if slots.contains(key@.slot()) {
                let j = choose|j: int| 0 <= j < slots.len() && slots[j] == key@.slot();
                lemma_slot_injective(self.keys@[j]@, key@);
                assert(views[j] == key@);
            }
            assert(key_slots(self.keys@.push(key)) =~= slots.push(key@.slot()));
            assert(key_views(self.keys@.push(key)) =~= views.push(key@));
        }
        index_insert(&mut self.index, slot);
        self.keys.push(key);
        self.nodes.push(node);
    }

    /// Inserts `node` under `key` where the key is new to the list; where a
    /// child stands under it already, hands both back and changes nothing.
    pub fn try_push(&mut self, key: Key, node: N) -> (r: Result<(), (Key, N)>)
        requires
            old(self).wf(),
        ensures
            final(self).wf(),
            match r {
                Ok(_) => !old(self).has(key@) && final(self).keys@ == old(self).keys@.push(key)
                    && final(self).nodes@ == old(self).nodes@.push(node),
                Err(back) => old(self).has(key@) && back == (key, node) && *final(self) == *old(
                    self,
                ),
            },
    {
        if self.contains_key(&key) {
            Err((key, node))
        } else {
            self.push(key, node);
            Ok(())
        }
    }

    /// Key and child at each position, in order.
    pub open spec fn entries<'a>(&'a self) -> Seq<(&'a Key, &'a N)> {
        Seq::new(self.keys@.len(), |i: int| (&self.keys@[i], &self.nodes@[i]))
    }

    /// Key and child at each position, in the order of insertion.
    pub fn iter<'a>(&'a self) -> (r: Vec<(&'a Key, &'a N)>)
        requires
            self.wf(),
        ensures
            r@ == self.entries(),
    {
        let mut out: Vec<(&'a Key, &'a N)> = Vec::with_capacity(self.keys.len());
        let mut i: usize = 0;
        while i < self.keys.len()
            invariant
                self.keys@.len() == self.nodes@.len(),
                i <= self.keys@.len(),
                out@ == Seq::new(i as nat, |k: int| (&self.keys@[k], &self.nodes@[k])),
            decreases self.keys@.len() - i,
        {
            out.push((&self.keys[i], &self.nodes[i]));
            assert(out@ =~= Seq::new((i + 1) as nat, |k: int| (&self.keys@[k], &self.nodes@[k])));
            i += 1;
        }
        out
    }

    /// Key and child at position `i`.
    pub fn get_index<'a>(&'a self, i: usize) -> (r: core::option::Option<(&'a Key, &'a N)>)
        requires
            self.wf(),
        ensures
            r == if i < self.keys@.len() {
                Some((&self.keys@[i as int], &self.nodes@[i as int]))
            } else {
                None
            },
    {
        if i < self.keys.len() {
            Some((&self.keys[i], &self.nodes[i]))
        } else {
            None
        }
    }

    /// The child at position `i`, to be changed in place. Keys and order
    /// stay as they are.
    pub fn node_mut(&mut self, i: usize) -> (n: &mut N)
        requires
            old(self).wf(),
            i < old(self).nodes@.len(),
        ensures
            *n == old(self).nodes@[i as int],
            final(self).nodes@ == old(self).nodes@.update(i as int, *final(n)),
            final(self).keys == old(self).keys,
            final(self).index == old(self).index,
    {
        &mut self.nodes[i]
    }

    /// The record of a child of the prior list `self` that the current list lacks.
    pub open spec fn removed_record<'a>(&'a self, j: int) -> Delta<'a, N> {
        (&self.keys@[j], None, Some((j as usize, &self.nodes@[j])))
    }

    /// The record of a child of the current list `self` that the prior list lacks.
    pub open spec fn added_record<'a>(&'a self, i: int) -> Delta<'a, N> {
        (&self.keys@[i], Some((i as usize, &self.nodes@[i])), None)
    }

    /// The record of a child that stands at position `i` of `self` and of `last`.
    pub open spec fn kept_record<'a>(&'a self, last: &'a Multi<N>, i: int) -> Delta<'a, N> {
        (&self.keys@[i], Some((i as usize, &self.nodes@[i])), Some((i as usize, &last.nodes@[i])))
    }

    /// The record of the child at position `i` of the current list `self`:
    /// with its counterpart in `last`, or without one where it was added.
    pub open spec fn present_record<'a>(&'a self, last: &'a Multi<N>, i: int) -> Delta<'a, N> {
        let key = &self.keys@[i];
        let here = Some((i as usize, &self.nodes@[i]));
        if last.has(key@) {
            let j = last.position_of(key@);
            (key, here, Some((j as usize, &last.nodes@[j])))
        } else {
            (key, here, None)
        }
    }

    /// The records of the children that only `last` has, in the order of `last`.
    pub open spec fn removed<'a>(&'a self, last: &'a Multi<N>) -> Seq<Delta<'a, N>> {
        positions(last.keys@.len()).filter(|j: int| !self.has(last.keys@[j]@)).map_values(
            |j: int| last.removed_record(j),
        )
    }

    /// The records of the children of `self`, in the order of `self`.
    pub open spec fn present<'a>(&'a self, last: &'a Multi<N>) -> Seq<Delta<'a, N>> {
        Seq::new(self.keys@.len(), |i: int| self.present_record(last, i))
    }

    /// The comparison of `self` with the prior list `last`: first the
    /// children that were removed, then those that are present.
    pub open spec fn delta<'a>(&'a self, last: &'a Multi<N>) -> Seq<Delta<'a, N>> {
        self.removed(last) + self.present(last)
    }

    /// Compares the list with the prior list `last`, key by key. A child
    /// that only `last` has is recorded as removed, with its position in
    /// `last`; then each child of `self` is recorded with its position, and
    /// with its counterpart in `last` where it has one.
    pub fn diff<'a>(&'a self, last: &'a Multi<N>) -> (r: Vec<Delta<'a, N>>)
        requires
            self.wf(),
            last.wf(),
        ensures
            r@ == self.delta(last),
    {
        let mut out: Vec<Delta<'a, N>> = Vec::new();
        let ghost gone = |j: int| !self.has(last.keys@[j]@);
        let ghost record = |j: int| last.removed_record(j);
        let mut j: usize = 0;
        proof {
            assert(positions(0) =~= Seq::<int>::empty());
            reveal(Seq::filter);
            assert(out@ =~= positions(0).filter(gone).map_values(record));
        }
        while j < last.keys.len()
            invariant
                self.wf(),
                last.wf(),
                j <= last.keys@.len(),
                gone == |k: int| !self.has(last.keys@[k]@),
                record == |k: int| last.removed_record(k),
                out@ == positions(j as nat).filter(gone).map_values(record),
            decreases last.keys@.len() - j,
        {
            let found = self.contains_key(&last.keys[j]);
            proof {
                assert(positions((j + 1) as nat) =~= positions(j as nat).push(j as int));
                lemma_filter_push(positions(j as nat), j as int, gone);
            }
            if !found {
                out.push((&last.keys[j], None, Some((j, &last.nodes[j]))));
                assert(out@ =~= positions((j + 1) as nat).filter(gone).map_values(record));
            }
            j += 1;
        }
        let ghost removed = out@;
        assert(removed == self.removed(last));
        let mut i: usize = 0;
        while i < self.keys.len()
            invariant
                self.wf(),
                last.wf(),
                i <= self.keys@.len(),
                out@ == removed + Seq::new(i as nat, |k: int| self.present_record(last, k)),
            decreases self.keys@.len() - i,
        {
            let key = &self.keys[i];
            let prior = match last.position(key) {
                Some(p) => Some((p, &last.nodes[p])),
                None => None,
            };
            out.push((key, Some((i, &self.nodes[i])), prior));
            assert(out@ =~= removed + Seq::new(
                (i + 1) as nat,
                |k: int| self.present_record(last, k),
            ));
            i += 1;
        }
        out
    }

    /// The keys of `self` that `other` has too, in the order of `self`.
    pub open spec fn shared_keys(&self, other: &Multi<N>) -> Seq<KeyView> {
        self.key_views().filter(|k: KeyView| other.has(k))
    }

    /// The positions in `self` of the children whose keys `other` has too,
    /// in order.
    pub open spec fn shared_slots(&self, other: &Multi<N>) -> Seq<int> {
        positions(self.keys@.len()).filter(|i: int| other.has(self.keys@[i]@))
    }

    /// The exchanges that turn the order of `last` into that of `self`,
    /// among the children that both lists hold, ring by ring. Each
    /// exchange names one child: by its position in `self`, where it is
    /// put, and by its position in `last`, where it is taken from.
    pub open spec fn reordered(&self, last: &Multi<N>) -> Seq<(usize, usize)> {
        rings(last.shared_keys(self), self.shared_keys(last), 0).map_values(
            |p: (int, int)| (self.shared_slots(last)[p.0] as usize, last.shared_slots(self)[p.1] as usize),
        )
    }

    /// The positions in `self` of the children whose keys `other` has too.
    fn shared(&self, other: &Multi<N>) -> (r: Vec<usize>)
        requires
            self.wf(),
            other.wf(),
        ensures
            r@.len() == self.shared_slots(other).len(),
            r@.len() == self.shared_keys(other).len(),
            forall|s: int|
                0 <= s < r@.len() ==> {
                    &&& (#[trigger] r@[s]) as int == self.shared_slots(other)[s]
                    &&& r@[s] < self.keys@.len()
                    &&& other.has(self.keys@[r@[s] as int]@)
                    &&& self.shared_keys(other)[s] == self.keys@[r@[s] as int]@
                },
            forall|i: int|
                0 <= i < self.keys@.len() && other.has(self.keys@[i]@) ==> exists|s: int|
                    0 <= s < r@.len() && #[trigger] r@[s] == i,
            forall|s: int, t: int| 0 <= s < t < r@.len() ==> r@[s] < r@[t],
    {
        let mut out: Vec<usize> = Vec::new();
        let mut i: usize = 0;
        let ghost kept_key = |k: KeyView| other.has(k);
        let ghost kept_slot = |k: int| other.has(self.keys@[k]@);
        proof {
            reveal(Seq::filter);
            assert(self.key_views().take(0) =~= Seq::<KeyView>::empty());
            assert(positions(0) =~= Seq::<int>::empty());
        }
        while i < self.keys.len()
            invariant
                self.wf(),
                other.wf(),
                i <= self.keys@.len(),
                kept_key == |k: KeyView| other.has(k),
                kept_slot == |k: int| other.has(self.keys@[k]@),
                out@.len() == positions(i as nat).filter(kept_slot).len(),
                out@.len() == self.key_views().take(i as int).filter(kept_key).len(),
                forall|s: int|
                    0 <= s < out@.len() ==> {
                        &&& (#[trigger] out@[s]) as int == positions(i as nat).filter(kept_slot)[s]
                        &&& out@[s] < i
                        &&& other.has(self.keys@[out@[s] as int]@)
                        &&& self.key_views().take(i as int).filter(kept_key)[s] == self.keys@[out@[s] as int]@
                    },
                forall|k: int|
                    0 <= k < i && other.has(self.keys@[k]@) ==> exists|s: int|
                        0 <= s < out@.len() && #[trigger] out@[s] == k,
                forall|s: int, t: int| 0 <= s < t < out@.len() ==> out@[s] < out@[t],
            decreases self.keys@.len() - i,
        {
            let found = other.contains_key(&self.keys[i]);
            proof {
                let views = self.key_views();
                assert(views.take(i + 1) =~= views.take(i as int).push(views[i as int]));
                lemma_filter_push(views.take(i as int), views[i as int], kept_key);
                assert(positions((i + 1) as nat) =~= positions(i as nat).push(i as int));
                lemma_filter_push(positions(i as nat), i as int, kept_slot);
            }
            let ghost before = out@;
            if found {
                out.push(i);
                assert(out@[before.len() as int] == i);
            }
            proof {
                assert forall|k: int| 0 <= k < i + 1 && other.has(self.keys@[k]@) implies exists|s: int|
                    0 <= s < out@.len() && #[trigger] out@[s] == k by {
                    if k < i {
                        let s = choose|s: int| 0 <= s < before.len() && #[trigger] before[s] == k;
                        assert(out@[s] == k);
                    } else {
                        assert(out@[before.len() as int] == k);
                    }
                }
            }
            i += 1;
        }
        proof {
            assert(self.key_views().take(self.keys@.len() as int) =~= self.key_views());
        }
        out
    }

    /// The exchanges that turn the order of `last` into that of `self`,
    /// among the children that both lists hold. Children that only one list
    /// holds count for nothing. The shared children are taken in the order
    /// of `self`: where the child that belongs at a place is not there, it
    /// is put there in exchange for the one that is; then the place that it
    /// came from is filled in the same way, and so on round the ring, until
    /// the child that is left over belongs where it stands. Each exchange
    /// names one child, by its position in `self` and its position in
    /// `last`, and no child is named twice. Made one after the other on the
    /// order of `last`, the exchanges yield the order of `self`, and no
    /// shorter list of exchanges does.
    pub fn diff_reordered(&self, last: &Multi<N>) -> (r: Vec<(usize, usize)>)
        requires
            self.wf(),
            last.wf(),
        ensures
            r@ == self.reordered(last),
            forall|k: int|
                0 <= k < r@.len() ==> (#[trigger] r@[k]).0 < self.keys@.len() && r@[k].1
                    < last.keys@.len() && self.keys@[r@[k].0 as int]@ == last.keys@[r@[k].1 as int]@,
            forall|k: int, l: int| 0 <= k < l < r@.len() ==> (#[trigger] r@[k]).0 != (#[trigger] r@[l]).0,
    {
        let here = self.shared(last);
        let there = last.shared(self);
        let ghost target = self.shared_keys(last);
        let ghost first = last.shared_keys(self);
        proof {
            self.lemma_shared_rearranged(last);
            lemma_rearranged_len(first, target);
        }
        let m = here.len();
        let mut work: Vec<usize> = Vec::with_capacity(there.len());
        let mut place: Vec<usize> = Vec::with_capacity(last.keys.len());
        let mut i: usize = 0;
        while i < last.keys.len()
            invariant
                i <= last.keys@.len(),
                place@.len() == i,
            decreases last.keys@.len() - i,
        {
            place.push(0);
            i += 1;
        }
        let mut s: usize = 0;
        while s < there.len()
            invariant
                s <= there@.len(),
                work@ == there@.take(s as int),
                place@.len() == last.keys@.len(),
                forall|t: int| 0 <= t < there@.len() ==> (#[trigger] there@[t]) < last.keys@.len(),
                forall|t: int, u: int| 0 <= t < u < there@.len() ==> there@[t] < there@[u],
                forall|t: int| 0 <= t < s ==> place@[(#[trigger] there@[t]) as int] == t,
            decreases there@.len() - s,
        {
            work.push(there[s]);
            place.set(there[s], s);
            assert(work@ =~= there@.take(s + 1));
            s += 1;
        }
        assert(there@.take(there@.len() as int) =~= there@);
        let ghost pair = |p: (int, int)|
            (self.shared_slots(last)[p.0] as usize, last.shared_slots(self)[p.1] as usize);
        let ghost goal = rings(first, target, 0).map_values(pair);
        let mut out: Vec<(usize, usize)> = Vec::new();
        let mut r: usize = 0;
        proof {
            let working = Seq::new(work@.len(), |t: int| last.keys@[work@[t] as int]@);
            assert(working =~= first);
            assert(out@ + rings(working, target, 0).map_values(pair) =~= goal);
            assert forall|x: int|
                0 <= x < last.keys@.len() && self.has(last.keys@[x]@) implies (#[trigger] place@[x])
                < work@.len() && work@[place@[x] as int] == x by {
                let t = choose|t: int| 0 <= t < there@.len() && #[trigger] there@[t] == x;
                assert(place@[there@[t] as int] == t);
            }
        }
        while r < m
            invariant
                self.wf(),
                last.wf(),
                r <= m,
                m == here@.len(),
                m == target.len(),
                work@.len() == m,
                there@.len() == m,
                place@.len() == last.keys@.len(),
                target == self.shared_keys(last),
                here@.len() == self.shared_slots(last).len(),
                pair == |p: (int, int)|
                    (self.shared_slots(last)[p.0] as usize, last.shared_slots(self)[p.1] as usize),
                forall|t: int|
                    0 <= t < here@.len() ==> {
                        &&& (#[trigger] here@[t]) as int == self.shared_slots(last)[t]
                        &&& here@[t] < self.keys@.len()
                        &&& last.has(self.keys@[here@[t] as int]@)
                        &&& target[t] == self.keys@[here@[t] as int]@
                    },
                forall|t: int|
                    0 <= t < there@.len() ==> (#[trigger] there@[t]) as int == last.shared_slots(self)[t],
                there@.len() == last.shared_slots(self).len(),
                forall|t: int|
                    0 <= t < work@.len() ==> (#[trigger] work@[t]) < last.keys@.len() && self.has(
                        last.keys@[work@[t] as int]@,
                    ) && place@[work@[t] as int] == t,
                forall|x: int|
                    0 <= x < last.keys@.len() && self.has(last.keys@[x]@) ==> (#[trigger] place@[x])
                        < work@.len() && work@[place@[x] as int] == x,
                out@ + rings(
                    Seq::new(work@.len(), |t: int| last.keys@[work@[t] as int]@),
                    target,
                    r as int,
                ).map_values(pair) == goal,
            decreases m - r,
        {
            let mut s: usize = r;
            let mut fuel: usize = m;
            let mut wrong = !self.keys[here[s]].same(&last.keys[work[s]]);
            let ghost after = r + 1;
            proof {
                let working = Seq::new(work@.len(), |t: int| last.keys@[work@[t] as int]@);
                let c = walk(working, target, r as int, m as nat);
                assert(rings(working, target, r as int) =~= c + rings(
                    apply_swaps(working, c),
                    target,
                    r + 1,
                ));
            }
            while fuel > 0 && wrong
                invariant
                    self.wf(),
                    last.wf(),
                    s < m,
                    after == r + 1,
                    m == here@.len(),
                    m == target.len(),
                    work@.len() == m,
                    there@.len() == m,
                    place@.len() == last.keys@.len(),
                    target == self.shared_keys(last),
                    here@.len() == self.shared_slots(last).len(),
                    pair == |p: (int, int)|
                        (self.shared_slots(last)[p.0] as usize, last.shared_slots(self)[p.1] as usize),
                    forall|t: int|
                        0 <= t < here@.len() ==> {
                            &&& (#[trigger] here@[t]) as int == self.shared_slots(last)[t]
                            &&& here@[t] < self.keys@.len()
                            &&& last.has(self.keys@[here@[t] as int]@)
                            &&& target[t] == self.keys@[here@[t] as int]@
                        },
                    forall|t: int|
                        0 <= t < there@.len() ==> (#[trigger] there@[t]) as int == last.shared_slots(
                            self,
                        )[t],
                    there@.len() == last.shared_slots(self).len(),
                    forall|t: int|
                        0 <= t < work@.len() ==> (#[trigger] work@[t]) < last.keys@.len() && self.has(
                            last.keys@[work@[t] as int]@,
                        ) && place@[work@[t] as int] == t,
                    forall|x: int|
                        0 <= x < last.keys@.len() && self.has(last.keys@[x]@) ==> (#[trigger] place@[x])
                            < work@.len() && work@[place@[x] as int] == x,
                    wrong == (last.keys@[work@[s as int] as int]@ != target[s as int]),
                    out@ + (walk(
                        Seq::new(work@.len(), |t: int| last.keys@[work@[t] as int]@),
                        target,
                        s as int,
                        fuel as nat,
                    ) + rings(
                        apply_swaps(
                            Seq::new(work@.len(), |t: int| last.keys@[work@[t] as int]@),
                            walk(
                                Seq::new(work@.len(), |t: int| last.keys@[work@[t] as int]@),
                                target,
                                s as int,
                                fuel as nat,
                            ),
                        ),
                        target,
                        after,
                    )).map_values(pair) == goal,
                decreases fuel,
            {
                let ghost working = Seq::new(work@.len(), |t: int| last.keys@[work@[t] as int]@);
                let c = here[s];
                let l = work[s];
                let found = last.position(&self.keys[c]);
                let from = match found {
                    Some(from) => from,
                    None => 0,
                };
                proof {
                    self.lemma_position(c as int);
                    assert(found == Some(from));
                    assert(self.has(last.keys@[from as int]@));
                }
                let j = place[from];
                proof {
                    assert(work@[j as int] == from);
                    assert(working[j as int] == target[s as int]);
                    let k = working.index_of(target[s as int]);
                    assert(working[k] == target[s as int]);
                    if k != j {
                        assert(last.key_views()[work@[k] as int] == last.key_views()[work@[j as int] as int]);
                        assert(place@[work@[k] as int] == k);
                    }
                    assert(k == j);
                }
                out.push((c, there[j]));
                work.set(s, from);
                work.set(j, l);
                place.set(from, s);
                place.set(l, j);
                proof {
                    let next = Seq::new(work@.len(), |t: int| last.keys@[work@[t] as int]@);
                    assert(next =~= swap_at(working, s as int, j as int));
                    let before = walk(working, target, s as int, fuel as nat);
                    let rest = walk(next, target, j as int, (fuel - 1) as nat);
                    assert(before =~= seq![(s as int, j as int)] + rest);
                    assert(before[0] == (s as int, j as int));
                    assert(before.skip(1) =~= rest);
                    assert(apply_swaps(working, before) == apply_swaps(next, rest));
                    let tail = rings(apply_swaps(next, rest), target, after);
                    assert((before + tail).map_values(pair) =~= seq![(c, there@[j as int])] + (rest
                        + tail).map_values(pair));
                    assert(out@ + (rest + tail).map_values(pair) =~= goal);
                }
                s = j;
                fuel -= 1;
                wrong = !self.keys[here[s]].same(&last.keys[work[s]]);
            }
            proof {
                let working = Seq::new(work@.len(), |t: int| last.keys@[work@[t] as int]@);
                let c = walk(working, target, s as int, fuel as nat);
                assert(c =~= Seq::<(int, int)>::empty());
                assert(apply_swaps(working, c) == working);
                assert(c + rings(working, target, after) =~= rings(working, target, after));
            }
            r += 1;
        }
        proof {
            let working = Seq::new(work@.len(), |t: int| last.keys@[work@[t] as int]@);
            assert(rings(working, target, r as int) =~= Seq::<(int, int)>::empty());
            assert(out@ =~= goal);
            let all = rings(first, target, 0);
            lemma_rings(first, first, target, 0);
            lemma_fixing_keeps(first, target, all);
            assert forall|k: int| 0 <= k < out@.len() implies (#[trigger] out@[k]).0 < self.keys@.len()
                && out@[k].1 < last.keys@.len() && self.keys@[out@[k].0 as int]@
                == last.keys@[out@[k].1 as int]@ by {
                let p = all[k];
                assert(out@[k] == pair(p));
                assert(here@[p.0] as int == self.shared_slots(last)[p.0]);
                assert(there@[p.1] as int == last.shared_slots(self)[p.1]);
                assert(first[p.1] == target[p.0]);
            }
            assert forall|k: int, l: int| 0 <= k < l < out@.len() implies (#[trigger] out@[k]).0 != (
            #[trigger] out@[l]).0 by {
                let p = all[k];
                let q = all[l];
                assert(out@[k] == pair(p));
                assert(out@[l] == pair(q));
                assert(p.0 != q.0);
                assert(here@[p.0] as int == self.shared_slots(last)[p.0]);
                assert(here@[q.0] as int == self.shared_slots(last)[q.0]);
            }
        }
        out
    }
}

impl<N: Clone> Clone for Multi<N> {
    /// A list of clones of the children, under the same keys in the same
    /// order.
    fn clone(&self) -> (res: Multi<N>)
        ensures
            res.keys@ == self.keys@,
            res.nodes@.len() == self.nodes@.len(),
            forall|i: int| 0 <= i < self.nodes@.len() ==> cloned(self.nodes@[i], #[trigger] res.nodes@[i]),
            self.wf() ==> res.wf(),
    {
        let mut keys: Vec<Key> = Vec::with_capacity(self.keys.len());
        let mut i: usize = 0;
        while i < self.keys.len()
            invariant
                i <= self.keys@.len(),
                keys@ == self.keys@.take(i as int),
            decreases self.keys@.len() - i,
        {
            keys.push(self.keys[i].clone());
            assert(keys@ =~= self.keys@.take(i + 1));
            i += 1;
        }
        assert(self.keys@.take(self.keys@.len() as int) =~= self.keys@);
        let mut nodes: Vec<N> = Vec::with_capacity(self.nodes.len());
        let mut j: usize = 0;
        while j < self.nodes.len()
            invariant
                j <= self.nodes@.len(),
                nodes@.len() == j,
                forall|k: int| 0 <= k < j ==> cloned(self.nodes@[k], #[trigger] nodes@[k]),
            decreases self.nodes@.len() - j,
        {
            nodes.push(self.nodes[j].clone());
            j += 1;
        }
        Multi { keys, nodes, index: index_clone(&self.index) }
    }
}

/// The keys of a list of entries, in order.
pub open spec fn entry_keys<N>(entries: Seq<(Key, N)>) -> Seq<Key> {
    entries.map_values(|e: (Key, N)| e.0)
}

/// The children of a list of entries, in order.
pub open spec fn entry_nodes<N>(entries: Seq<(Key, N)>) -> Seq<N> {
    entries.map_values(|e: (Key, N)| e.1)
}

/// What becomes an entry of a keyed list.
pub trait IntoMultiEntry<N> {
    /// The key and the child.
    fn into_multi_entry(self) -> (Key, N);
}

impl<N> IntoMultiEntry<N> for (Key, N) {
    fn into_multi_entry(self) -> (e: (Key, N))
        ensures
            e == self,
    {
        self
    }
}

impl<N> Multi<N> {
    /// A list of the given entries, in their order. Hands back the first
    /// entry whose key occurred before it, and then builds no list.
    pub fn try_from_entries(entries: Vec<(Key, N)>) -> (r: Result<Multi<N>, (Key, N)>)
        ensures
            match r {
                Ok(m) => m.wf() && m.keys@ == entry_keys(entries@) && m.nodes@ == entry_nodes(
                    entries@,
                ),
                Err(e) => exists|i: int, j: int|
                    0 <= i < j < entries@.len() && entries@[j] == e && entries@[i].0@
                        == entries@[j].0@ && key_views(entry_keys(entries@.take(j))).no_duplicates(),
            },
    {
        let mut m: Multi<N> = Multi::with_capacity(entries.len());
        proof {
            assert(entry_keys(entries@.take(0)) =~= m.keys@);
            assert(entry_nodes(entries@.take(0)) =~= m.nodes@);
        }
        for e in it: entries
            invariant
                it.seq() == entries@,
                m.wf(),
                m.keys@ == entry_keys(entries@.take(it.index() as int)),
                m.nodes@ == entry_nodes(entries@.take(it.index() as int)),
        {
            let ghost at = it.index() as int;
            proof {
                assert(entries@.take(at + 1) =~= entries@.take(at).push(e));
                assert(entry_keys(entries@.take(at + 1)) =~= entry_keys(entries@.take(at)).push(e.0));
                assert(entry_nodes(entries@.take(at + 1)) =~= entry_nodes(entries@.take(at)).push(
                    e.1,
                ));
            }
            match m.try_push(e.0, e.1) {
                Ok(_) => {},
                Err(back) => {
                    proof {
                        let i = m.key_views().index_of(e.0@);
                        assert(m.key_views()[i] == e.0@);
                        assert(0 <= i < at);
                        assert(entries@.take(at)[i] == entries@[i]);
                        assert(entries@[at] == e);
                        assert(key_views(entry_keys(entries@.take(at))).no_duplicates());
                    }
                    return Err(back);
                },
            }
        }
        proof {
            assert(entries@.take(entries@.len() as int) =~= entries@);
        }
        Ok(m)
    }

    /// A list of the given entries, in their order. No two entries may
    /// have one key.
    pub fn from_entries(entries: Vec<(Key, N)>) -> (m: Multi<N>)
        requires
            key_views(entry_keys(entries@)).no_duplicates(),
        ensures
            m.wf(),
            m.keys@ == entry_keys(entries@),
            m.nodes@ == entry_nodes(entries@),
    {
        let ghost views = key_views(entry_keys(entries@));
        let mut m: Multi<N> = Multi::with_capacity(entries.len());
        proof {
            assert(entry_keys(entries@.take(0)) =~= m.keys@);
            assert(entry_nodes(entries@.take(0)) =~= m.nodes@);
        }
        for e in it: entries
            invariant
                it.seq() == entries@,
                views == key_views(entry_keys(entries@)),
                views.no_duplicates(),
                m.wf(),
                m.keys@ == entry_keys(entries@.take(it.index() as int)),
                m.nodes@ == entry_nodes(entries@.take(it.index() as int)),
        {
            let ghost at = it.index() as int;
            proof {
                assert(entries@.take(at + 1) =~= entries@.take(at).push(e));
                assert(entry_keys(entries@.take(at + 1)) =~= entry_keys(entries@.take(at)).push(e.0));
                assert(entry_nodes(entries@.take(at + 1)) =~= entry_nodes(entries@.take(at)).push(
                    e.1,
                ));
                if m.has(e.0@) {
                    let i = m.key_views().index_of(e.0@);
                    assert(m.key_views()[i] == e.0@);
                    assert(entries@.take(at)[i] == entries@[i]);
                    assert(views[i] == entries@[i].0@);
                    assert(views[at] == entries@[at].0@);
                }
            }
            m.push(e.0, e.1);
        }
        proof {
            assert(entries@.take(entries@.len() as int) =~= entries@);
        }
        m
    }
}

/// Builds the single child of a node, on behalf of the builder `PB` of the node.
pub struct SingleBuilder<PB, N> where PB: BuilderSetter<BuilderChild, Single<N>> {
    pub parent_builder: PB,
    pub child: core::option::Option<Single<N>>,
}

impl<PB, N> SingleBuilder<PB, N> where PB: BuilderSetter<BuilderChild, Single<N>> {
    /// A builder without a child yet.
    pub fn new(parent_builder: PB) -> (b: SingleBuilder<PB, N>)
        ensures
            b.parent_builder == parent_builder,
            b.child.is_none(),
    {
        SingleBuilder { parent_builder, child: None }
    }

    /// Sets the child. It can be set once; the key plays no part.
    pub fn add(self, _key: Key, child: N) -> (b: SingleBuilder<PB, N>)
        requires
            self.child.is_none(),
        ensures
            b.parent_builder == self.parent_builder,
            b.child matches Some(s) && *s.node == child,
    {
        let mut b = self;
        b.child = Some(Single::new(child));
        b
    }

    /// Hands the child, if one was set, to the builder of the node, and
    /// gives that builder back.
    pub fn build(self) -> (pb: PB)
        ensures
            match self.child {
                Some(child) => exists|m: &mut PB| #[trigger]
                    call_ensures(PB::builder_set, (m, child), ()) && *m == self.parent_builder
                        && *final(m) == pb,
                None => pb == self.parent_builder,
            },
    {
        let mut pb = self.parent_builder;
        match self.child {
            Some(child) => {
                pb.builder_set(child);
            },
            None => {},
        }
        pb
    }
}

/// Builds the optional child of a node, on behalf of the builder `PB` of the node.
pub struct OptionBuilder<PB, N> where PB: BuilderSetter<BuilderChild, Option<N>> {
    pub parent_builder: PB,
    pub child: Option<N>,
}

impl<PB, N> OptionBuilder<PB, N> where PB: BuilderSetter<BuilderChild, Option<N>> {
    /// A builder without a child.
    pub fn new(parent_builder: PB) -> (b: OptionBuilder<PB, N>)
        ensures
            b.parent_builder == parent_builder,
            b.child.child().is_none(),
    {
        OptionBuilder { parent_builder, child: Option::new(None) }
    }

    /// Sets the child. It can be set once; the key plays no part.
    pub fn add(self, _key: Key, child: N) -> (b: OptionBuilder<PB, N>)
        requires
            self.child.child().is_none(),
        ensures
            b.parent_builder == self.parent_builder,
            b.child.child() == Some(child),
    {
        let mut b = self;
        b.child = Option::new(Some(child));
        b
    }

    /// Hands the child, or the lack of one, to the builder of the node,
    /// and gives that builder back.
    pub fn build(self) -> (pb: PB)
        ensures
            exists|m: &mut PB| #[trigger]
                call_ensures(PB::builder_set, (m, self.child), ()) && *m == self.parent_builder
                    && *final(m) == pb,
    {
        let mut pb = self.parent_builder;
        pb.builder_set(self.child);
        pb
    }
}

/// Builds the keyed children of a node, on behalf of the builder `PB` of the node.
pub struct MultiBuilder<PB, N> where PB: BuilderSetter<BuilderChild, Multi<N>> {
    pub parent_builder: PB,
    pub child: Multi<N>,
}

impl<PB, N> MultiBuilder<PB, N> where PB: BuilderSetter<BuilderChild, Multi<N>> {
    /// A builder without children yet.
    pub fn new(parent_builder: PB) -> (b: MultiBuilder<PB, N>)
        ensures
            b.parent_builder == parent_builder,
            b.child.wf(),
            b.child.keys@.len() == 0,
            b.child.nodes@.len() == 0,
    {
        MultiBuilder { parent_builder, child: Multi::new() }
    }

    /// Adds a child under a key that is new to the list.
    pub fn add(self, key: Key, child: N) -> (b: MultiBuilder<PB, N>)
        requires
            self.child.wf(),
            !self.child.has(key@),
        ensures
            b.parent_builder == self.parent_builder,
            b.child.wf(),
            b.child.keys@ == self.child.keys@.push(key),
            b.child.nodes@ == self.child.nodes@.push(child),
    {
        let mut b = self;
        b.child.push(key, child);
        b
    }

    /// Hands the children to the builder of the node, and gives that
    /// builder back.
    pub fn build(self) -> (pb: PB)
        ensures
            exists|m: &mut PB| #[trigger]
                call_ensures(PB::builder_set, (m, self.child), ()) && *m == self.parent_builder
                    && *final(m) == pb,
    {
        let mut pb = self.parent_builder;
        pb.builder_set(self.child);
        pb
    }
}

/// Two tests that agree on every item of a sequence keep the same items.
pub proof fn lemma_filter_agree<A>(s: Seq<A>, p: spec_fn(A) -> bool, q: spec_fn(A) -> bool)
    requires
        forall|i: int| 0 <= i < s.len() ==> p(s[i]) == q(s[i]),
    ensures
        s.filter(p) == s.filter(q),
    decreases s.len(),
{
    reveal(Seq::filter);
    if s.len() > 0 {
        lemma_filter_agree(s.drop_last(), p, q);
    }
}

/// A test that no item passes keeps nothing; one that every item passes keeps all.
pub proof fn lemma_filter_all<A>(s: Seq<A>, p: spec_fn(A) -> bool)
    ensures
        (forall|i: int| 0 <= i < s.len() ==> !p(s[i])) ==> s.filter(p) == Seq::<A>::empty(),
        (forall|i: int| 0 <= i < s.len() ==> p(s[i])) ==> s.filter(p) == s,
    decreases s.len(),
{
    reveal(Seq::filter);
    if s.len() > 0 {
        lemma_filter_all(s.drop_last(), p);
        if forall|i: int| 0 <= i < s.len() ==> p(s[i]) {
            assert(s.drop_last().push(s.last()) =~= s);
        }
    } else {
        assert(s =~= Seq::<A>::empty());
    }
}

impl<N> Multi<N> {
    /// A key stands at one position only.
    pub proof fn lemma_position(&self, i: int)
        requires
            self.wf(),
            0 <= i < self.keys@.len(),
        ensures
            self.has(self.keys@[i]@),
            self.position_of(self.keys@[i]@) == i,
    {
        let views = self.key_views();
        assert(views[i] == self.keys@[i]@);
        let j = views.index_of(self.keys@[i]@);
        assert(views[j] == views[i]);
    }

    /// A list compared with one that holds the same keys in the same order
    /// reports no child as removed, pairs each child with the one at its own
    /// position, and reports no exchange.
    pub proof fn lemma_same_keys(&self, last: &Multi<N>)
        requires
            self.wf(),
            last.wf(),
            self.key_views() == last.key_views(),
        ensures
            self.removed(last) == Seq::<Delta<N>>::empty(),
            self.delta(last) == Seq::new(self.keys@.len(), |i: int| self.kept_record(last, i)),
            self.reordered(last) == Seq::<(usize, usize)>::empty(),
    {
        let n = last.keys@.len();
        assert(self.keys@.len() == self.key_views().len());
        assert(last.keys@.len() == last.key_views().len());
        let gone = |j: int| !self.has(last.keys@[j]@);
        assert forall|j: int| 0 <= j < n implies !gone(positions(n)[j]) by {
            self.lemma_position(j);
            last.lemma_position(j);
            assert(self.key_views()[j] == last.key_views()[j]);
        }
        lemma_filter_all(positions(n), gone);
        assert(self.removed(last) =~= Seq::<Delta<N>>::empty());
        let in_self = |k: KeyView| self.has(k);
        let in_last = |k: KeyView| last.has(k);
        lemma_filter_agree(self.key_views(), in_self, in_last);
        assert(last.shared_keys(self) == self.shared_keys(last));
        lemma_no_rings(self.shared_keys(last), 0);
        assert(self.reordered(last) =~= Seq::<(usize, usize)>::empty());
        assert forall|i: int| 0 <= i < self.keys@.len() implies #[trigger] self.present_record(last, i)
            == self.kept_record(last, i) by {
            self.lemma_position(i);
            last.lemma_position(i);
            assert(self.key_views()[i] == last.key_views()[i]);
        }
        assert(self.delta(last) =~= Seq::new(self.keys@.len(), |i: int| self.kept_record(last, i)));
    }

    /// Two lists without a common key: every child of `last` is reported
    /// as removed, every child of `self` as added, and no exchange.
    pub proof fn lemma_disjoint_keys(&self, last: &Multi<N>)
        requires
            self.wf(),
            last.wf(),
            forall|k: KeyView| !(self.has(k) && last.has(k)),
        ensures
            self.removed(last) == Seq::new(last.keys@.len(), |j: int| last.removed_record(j)),
            self.present(last) == Seq::new(self.keys@.len(), |i: int| self.added_record(i)),
            self.reordered(last) == Seq::<(usize, usize)>::empty(),
    {
        let n = last.keys@.len();
        assert(self.keys@.len() == self.key_views().len());
        assert(last.keys@.len() == last.key_views().len());
        let gone = |j: int| !self.has(last.keys@[j]@);
        assert forall|j: int| 0 <= j < n implies gone(positions(n)[j]) by {
            last.lemma_position(j);
        }
        lemma_filter_all(positions(n), gone);
        assert(self.removed(last) =~= Seq::new(n, |j: int| last.removed_record(j)));
        let in_last = |k: KeyView| last.has(k);
        assert forall|i: int| 0 <= i < self.key_views().len() implies !in_last(self.key_views()[i]) by {
            self.lemma_position(i);
        }
        lemma_filter_all(self.key_views(), in_last);
        assert(self.shared_keys(last).len() == 0);
        assert(self.reordered(last) =~= Seq::<(usize, usize)>::empty());
        assert forall|i: int| 0 <= i < self.keys@.len() implies #[trigger] self.present_record(last, i)
            == self.added_record(i) by {
            self.lemma_position(i);
        }
        assert(self.present(last) =~= Seq::new(self.keys@.len(), |i: int| self.added_record(i)));
    }

    /// A key that neither list has seen, inserted into the current list,
    /// leaves the reported exchanges as they were.
    pub proof fn lemma_reordered_ignores_new_key(&self, after: &Multi<N>, last: &Multi<N>, key: Key)
        requires
            self.wf(),
            after.wf(),
            last.wf(),
            after.keys@ == self.keys@.push(key),
            !last.has(key@),
        ensures
            after.reordered(last) == self.reordered(last),
    {
        let len = self.keys@.len();
        assert(self.keys@.len() == self.key_views().len());
        assert(last.keys@.len() == last.key_views().len());
        assert(after.key_views() =~= self.key_views().push(key@));
        let in_last = |k: KeyView| last.has(k);
        lemma_filter_push(self.key_views(), key@, in_last);
        assert(after.shared_keys(last) == self.shared_keys(last));
        let slot_after = |i: int| last.has(after.keys@[i]@);
        let slot_self = |i: int| last.has(self.keys@[i]@);
        assert(positions(len + 1) =~= positions(len).push(len as int));
        lemma_filter_push(positions(len), len as int, slot_after);
        assert forall|i: int| 0 <= i < positions(len).len() implies slot_after(positions(len)[i])
            == slot_self(positions(len)[i]) by {
            assert(positions(len)[i] == i);
        }
        lemma_filter_agree(positions(len), slot_after, slot_self);
        assert(after.shared_slots(last) == self.shared_slots(last));
        let in_after = |k: KeyView| after.has(k);
        let in_self = |k: KeyView| self.has(k);
        assert forall|i: int| 0 <= i < last.key_views().len() implies in_after(last.key_views()[i])
            == in_self(last.key_views()[i]) by {
            let k = last.key_views()[i];
            last.lemma_position(i);
            if self.has(k) {
                let at = self.key_views().index_of(k);
                assert(self.key_views()[at] == k);
                assert(after.key_views()[at] == k);
            } else if after.has(k) {
                let at = after.key_views().index_of(k);
                assert(after.key_views()[at] == k);
                if at < len {
                    assert(self.key_views()[at] == k);
                }
            }
        }
        lemma_filter_agree(last.key_views(), in_after, in_self);
        assert(last.shared_keys(after) == last.shared_keys(self));
        let n = last.keys@.len();
        let last_after = |j: int| after.has(last.keys@[j]@);
        let last_self = |j: int| self.has(last.keys@[j]@);
        assert forall|j: int| 0 <= j < positions(n).len() implies last_after(positions(n)[j])
            == last_self(positions(n)[j]) by {
            assert(positions(n)[j] == j);
            assert(in_after(last.key_views()[j]) == in_self(last.key_views()[j]));
        }
        lemma_filter_agree(positions(n), last_after, last_self);
        assert(last.shared_slots(after) == last.shared_slots(self));
        assert(after.reordered(last) =~= self.reordered(last));
    }

    /// The keys that two lists share stand in each list once, and the two
    /// lists of them hold the same keys.
    pub proof fn lemma_shared_rearranged(&self, last: &Multi<N>)
        requires
            self.wf(),
            last.wf(),
        ensures
            rearranged(last.shared_keys(self), self.shared_keys(last)),
    {
        let a = last.shared_keys(self);
        let b = self.shared_keys(last);
        let in_self = |k: KeyView| self.has(k);
        let in_last = |k: KeyView| last.has(k);
        lemma_filter_no_duplicates(last.key_views(), in_self);
        lemma_filter_no_duplicates(self.key_views(), in_last);
        assert forall|x: KeyView| a.contains(x) <==> b.contains(x) by {
            if a.contains(x) {
                last.key_views().lemma_filter_contains_rev(in_self, x);
                let i = choose|i: int| 0 <= i < a.len() && a[i] == x;
                last.key_views().lemma_filter_pred(in_self, i);
                let at = self.key_views().index_of(x);
                assert(self.key_views()[at] == x);
                self.key_views().lemma_filter_contains(in_last, at);
            }
            if b.contains(x) {
                self.key_views().lemma_filter_contains_rev(in_last, x);
                let i = choose|i: int| 0 <= i < b.len() && b[i] == x;
                self.key_views().lemma_filter_pred(in_last, i);
                let at = last.key_views().index_of(x);
                assert(last.key_views()[at] == x);
                last.key_views().lemma_filter_contains(in_self, at);
            }
        }
    }

    /// The reported exchanges reconcile the two orders: made one after the
    /// other on the shared keys in the order of `last`, they yield the
    /// shared keys in the order of `self`. Each exchange puts a wrong
    /// place right, so that there are fewer exchanges than shared keys.
    pub proof fn lemma_reordered_reconciles(&self, last: &Multi<N>)
        requires
            self.wf(),
            last.wf(),
        ensures
            apply_swaps(
                last.shared_keys(self),
                rings(last.shared_keys(self), self.shared_keys(last), 0),
            ) == self.shared_keys(last),
            fixing(
                last.shared_keys(self),
                self.shared_keys(last),
                rings(last.shared_keys(self), self.shared_keys(last), 0),
            ),
            self.reordered(last).len() == rings(
                last.shared_keys(self),
                self.shared_keys(last),
                0,
            ).len(),
            self.reordered(last).len() == 0 || self.reordered(last).len() < self.shared_keys(
                last,
            ).len(),
    {
        let working = last.shared_keys(self);
        let target = self.shared_keys(last);
        self.lemma_shared_rearranged(last);
        lemma_rearranged_len(working, target);
        lemma_rings(working, working, target, 0);
        lemma_fixing_keeps(working, target, rings(working, target, 0));
        lemma_no_swaps(target, 0);
        lemma_swaps_reconcile(working, target, 0);
        let all = swaps(working, target, 0);
        if all.len() > 0 {
            lemma_increasing_below(all.map_values(|p: (int, int)| p.0), target.len() - 1);
        }
    }
}

impl<N> Multi<N> {
    /// The reported exchanges are as few as can be: no list of exchanges
    /// that takes the shared keys from their order in `last` to their
    /// order in `self` is shorter.
    pub proof fn lemma_reordered_minimal(&self, last: &Multi<N>, other: Seq<(int, int)>)
        requires
            self.wf(),
            last.wf(),
            in_range(other, self.shared_keys(last).len()),
            apply_swaps(last.shared_keys(self), other) == self.shared_keys(last),
        ensures
            self.reordered(last).len() <= other.len(),
    {
        self.lemma_shared_rearranged(last);
        lemma_rings_minimal(last.shared_keys(self), self.shared_keys(last), other);
    }
}

impl<N> Multi<N> {
    /// A key that neither list has seen, inserted at any place of the
    /// current list, leaves the reported exchanges as they were: they name
    /// the same children in the same order, each by its place in `last`
    /// and by its place in the current list, which is one further on
    /// where it stands after the new key.
    pub proof fn lemma_reordered_ignores_inserted_key(
        &self,
        after: &Multi<N>,
        last: &Multi<N>,
        key: Key,
        at: int,
    )
        requires
            self.wf(),
            after.wf(),
            last.wf(),
            0 <= at <= self.keys@.len(),
            after.keys@ == self.keys@.insert(at, key),
            !last.has(key@),
        ensures
            after.reordered(last) == self.reordered(last).map_values(
                |p: (usize, usize)|
                    (if p.0 >= at {
                        (p.0 + 1) as usize
                    } else {
                        p.0
                    }, p.1),
            ),
    {
        let len = self.keys@.len();
        assert(self.keys@.len() == self.key_views().len());
        assert(last.keys@.len() == last.key_views().len());
        assert(after.key_views() =~= self.key_views().insert(at, key@));
        let in_last = |k: KeyView| last.has(k);
        lemma_filter_positions_insert(self.key_views(), after.key_views(), at, key@, in_last);
        assert(after.shared_keys(last) == self.shared_keys(last));
        let slot_after = |i: int| last.has(after.keys@[i]@);
        let slot_self = |i: int| last.has(self.keys@[i]@);
        let by_after = |i: int| in_last(after.key_views()[i]);
        let by_self = |i: int| in_last(self.key_views()[i]);
        let places = positions(len + 1);
        assert forall|i: int| 0 <= i < places.len() implies slot_after(#[trigger] places[i]) == by_after(
            places[i],
        ) by {}
        lemma_filter_agree(places, slot_after, by_after);
        assert forall|i: int| 0 <= i < positions(len).len() implies slot_self(positions(len)[i])
            == by_self(positions(len)[i]) by {}
        lemma_filter_agree(positions(len), slot_self, by_self);
        let shift = |i: int| if i >= at { i + 1 } else { i };
        assert(after.shared_slots(last) == self.shared_slots(last).map_values(shift));
        let in_after = |k: KeyView| after.has(k);
        let in_self = |k: KeyView| self.has(k);
        assert forall|i: int| 0 <= i < last.key_views().len() implies in_after(last.key_views()[i])
            == in_self(last.key_views()[i]) by {
            let k = last.key_views()[i];
            last.lemma_position(i);
            if self.has(k) {
                let w = self.key_views().index_of(k);
                assert(self.key_views()[w] == k);
                assert(after.key_views()[shift(w)] == k);
            } else if after.has(k) {
                let w = after.key_views().index_of(k);
                assert(after.key_views()[w] == k);
                if w < at {
                    assert(self.key_views()[w] == k);
                } else {
                    assert(w != at);
                    assert(self.key_views()[w - 1] == k);
                }
            }
        }
        lemma_filter_agree(last.key_views(), in_after, in_self);
        assert(last.shared_keys(after) == last.shared_keys(self));
        let n = last.keys@.len();
        let last_after = |j: int| after.has(last.keys@[j]@);
        let last_self = |j: int| self.has(last.keys@[j]@);
        assert forall|j: int| 0 <= j < positions(n).len() implies last_after(positions(n)[j])
            == last_self(positions(n)[j]) by {
            assert(positions(n)[j] == j);
            assert(in_after(last.key_views()[j]) == in_self(last.key_views()[j]));
        }
        lemma_filter_agree(positions(n), last_after, last_self);
        assert(last.shared_slots(after) == last.shared_slots(self));
        let working = last.shared_keys(self);
        let target = self.shared_keys(last);
        self.lemma_shared_rearranged(last);
        lemma_rearranged_len(working, target);
        lemma_rings(working, working, target, 0);
        let all = rings(working, target, 0);
        lemma_fixing_keeps(working, target, all);
        self.key_views().lemma_filter_len(in_last);
        let slots = self.shared_slots(last);
        positions(len).lemma_filter_len(slot_self);
        assert forall|k: int| 0 <= k < all.len() implies #[trigger] after.reordered(last)[k] == ({
            let p = self.reordered(last)[k];
            (if p.0 >= at {
                (p.0 + 1) as usize
            } else {
                p.0
            }, p.1)
        }) by {
            let q = all[k];
            assert(after.keys.len() == len + 1);
            assert(self.keys.len() == len);
            assert(0 <= q.0 < target.len());
            assert(slots.len() == target.len()) by {
                lemma_shared_counts(self, last);
            }
            assert(slots.contains(slots[q.0]));
            positions(len).lemma_filter_contains_rev(slot_self, slots[q.0]);
            let w = choose|w: int| 0 <= w < len && positions(len)[w] == slots[q.0];
            assert(0 <= slots[q.0] < len);
        }
        assert(after.reordered(last) =~= self.reordered(last).map_values(
            |p: (usize, usize)|
                (if p.0 >= at {
                    (p.0 + 1) as usize
                } else {
                    p.0
                }, p.1),
        ));
    }
}

/// There are as many places of shared children as there are shared keys.
pub proof fn lemma_shared_counts<N>(a: &Multi<N>, b: &Multi<N>)
    ensures
        a.shared_slots(b).len() == a.shared_keys(b).len(),
{
    let pred = |k: KeyView| b.has(k);
    let n = a.keys@.len();
    lemma_filter_counts(a.keys@, pred, n);
    assert(a.key_views().take(n as int) =~= a.key_views());
    let by_place = |i: int| pred(a.keys@[i]@);
    let by_slot = |i: int| b.has(a.keys@[i]@);
    let places = positions(n);
    assert forall|i: int| 0 <= i < places.len() implies by_place(#[trigger] places[i]) == by_slot(
        places[i],
    ) by {}
    lemma_filter_agree(places, by_place, by_slot);
}

/// The first `n` places hold as many keys that pass a test as there are
/// places whose keys pass it.
pub proof fn lemma_filter_counts(keys: Seq<Key>, pred: spec_fn(KeyView) -> bool, n: nat)
    requires
        n <= keys.len(),
    ensures
        positions(n).filter(|i: int| pred(keys[i]@)).len() == key_views(keys).take(n as int).filter(
            pred,
        ).len(),
    decreases n,
{
    reveal(Seq::filter);
    let by_place = |i: int| pred(keys[i]@);
    if n == 0 {
        assert(positions(0) =~= Seq::<int>::empty());
        assert(key_views(keys).take(0) =~= Seq::<KeyView>::empty());
    } else {
        lemma_filter_counts(keys, pred, (n - 1) as nat);
        assert(positions(n) =~= positions((n - 1) as nat).push(n - 1));
        lemma_filter_push(positions((n - 1) as nat), n - 1, by_place);
        let views = key_views(keys);
        assert(views.take(n as int) =~= views.take(n - 1).push(views[n - 1]));
        lemma_filter_push(views.take(n - 1), views[n - 1], pred);
    }
}

/// A strictly increasing sequence of whole numbers from 0 up to, but not
/// including, `bound` has at most `bound` items.
pub proof fn lemma_increasing_below(s: Seq<int>, bound: int)
    requires
        forall|k: int| 0 <= k < s.len() ==> 0 <= #[trigger] s[k] < bound,
        forall|k: int, l: int| 0 <= k < l < s.len() ==> s[k] < s[l],
    ensures
        s.len() <= bound || s.len() == 0,
    decreases s.len(),
{
    if s.len() > 0 {
        let rest = s.drop_last();
        assert(0 <= s[0] < bound);
        if rest.len() > 0 {
            assert(rest[rest.len() - 1] < s[s.len() - 1]);
            assert forall|k: int| 0 <= k < rest.len() implies 0 <= #[trigger] rest[k] < bound - 1 by {
                assert(s[k] < s[s.len() - 1]);
            }
            lemma_increasing_below(rest, bound - 1);
        }
    }
}

/// Where an item that fails a test is inserted into a sequence, the
/// places of the items that pass are as before, one further on from the
/// place of the insertion.
pub proof fn lemma_filter_positions_insert<A>(a: Seq<A>, b: Seq<A>, at: int, x: A, pred: spec_fn(A) -> bool)
    requires
        0 <= at <= a.len(),
        b == a.insert(at, x),
        !pred(x),
    ensures
        positions(b.len()).filter(|i: int| pred(b[i])) == positions(a.len()).filter(
            |i: int| pred(a[i]),
        ).map_values(|i: int| if i >= at { i + 1 } else { i }),
        a.filter(pred) == b.filter(pred),
    decreases a.len(),
{
    let n = a.len();
    let in_a = |i: int| pred(a[i]);
    let in_b = |i: int| pred(b[i]);
    let shift = |i: int| if i >= at { i + 1 } else { i };
    assert(positions((n + 1) as nat) =~= positions(n).push(n as int));
    lemma_filter_push(positions(n), n as int, in_b);
    assert(b.drop_last().push(b.last()) =~= b);
    lemma_filter_push(b.drop_last(), b.last(), pred);
    if n == at {
        assert(b.drop_last() =~= a);
        assert forall|i: int| 0 <= i < positions(n).len() implies in_b(positions(n)[i]) == in_a(
            positions(n)[i],
        ) by {}
        lemma_filter_agree(positions(n), in_b, in_a);
        let kept = positions(n).filter(in_a);
        assert forall|i: int| 0 <= i < kept.len() implies shift(#[trigger] kept[i]) == kept[i] by {
            assert(kept.contains(kept[i]));
            positions(n).lemma_filter_contains_rev(in_a, kept[i]);
            let w = choose|w: int| 0 <= w < n && positions(n)[w] == kept[i];
        }
        assert(kept =~= kept.map_values(shift));
    } else {
        let a0 = a.drop_last();
        let b0 = b.drop_last();
        assert(b0 =~= a0.insert(at, x));
        lemma_filter_positions_insert(a0, b0, at, x, pred);
        let in_a0 = |i: int| pred(a0[i]);
        let in_b0 = |i: int| pred(b0[i]);
        assert forall|i: int| 0 <= i < positions(n).len() implies in_b(positions(n)[i]) == in_b0(
            positions(n)[i],
        ) by {}
        lemma_filter_agree(positions(n), in_b, in_b0);
        let prev = positions((n - 1) as nat);
        assert(positions(n) =~= prev.push(n - 1));
        lemma_filter_push(prev, n - 1, in_a);
        assert forall|i: int| 0 <= i < prev.len() implies in_a(#[trigger] prev[i]) == in_a0(prev[i]) by {}
        lemma_filter_agree(prev, in_a, in_a0);
        assert(b.last() == a.last());
        assert(a0.push(a.last()) =~= a);
        lemma_filter_push(a0, a.last(), pred);
        let kept0 = prev.filter(in_a0);
        if pred(a.last()) {
            assert(kept0.push(n - 1).map_values(shift) =~= kept0.map_values(shift).push(n as int));
        }
    }
}

/// A sequence without duplicates has none after filtering.
pub proof fn lemma_filter_no_duplicates<A>(s: Seq<A>, p: spec_fn(A) -> bool)
    requires
        s.no_duplicates(),
    ensures
        s.filter(p).no_duplicates(),
    decreases s.len(),
{
    reveal(Seq::filter);
    if s.len() > 0 {
        lemma_filter_no_duplicates(s.drop_last(), p);
        if p(s.last()) {
            let rest = s.drop_last().filter(p);
            if rest.contains(s.last()) {
                s.drop_last().lemma_filter_contains_rev(p, s.last());
                let i = choose|i: int| 0 <= i < s.drop_last().len() && s.drop_last()[i] == s.last();
                assert(s[i] == s[s.len() - 1]);
            }
            assert forall|i: int, j: int|
                0 <= i < rest.push(s.last()).len() && 0 <= j < rest.push(s.last()).len() && i
                    != j implies rest.push(s.last())[i] != rest.push(s.last())[j] by {
                if i < rest.len() && j < rest.len() {
                } else if i < rest.len() {
                    assert(rest.contains(rest[i]));
                } else if j < rest.len() {
                    assert(rest.contains(rest[j]));
                }
            }
        }
    }
}

} // verus!
