//! Hash tables keyed by identifiers.
//!
//! The tables are `hashbrown` collections. Their types take an allocator whose
//! trait cannot be named from here, so each stands in a private field of an
//! opaque struct and is described by what it holds.

use crate::ir::TensorStatus;
use vstd::prelude::*;

verus! {

/// A set of identifiers, stored in a `hashbrown::HashSet`.
#[verifier::external_body]
pub struct IdSet {
    inner: hashbrown::HashSet<u64>,
}

/// The identifiers that the set holds.
pub uninterp spec fn id_set_contents(set: IdSet) -> Set<u64>;

impl IdSet {
    /// `hashbrown::HashSet::new`: the set is empty.
    #[verifier::external_body]
    pub(crate) fn new() -> (set: IdSet)
        ensures
            id_set_contents(set) == Set::<u64>::empty(),
    {
        IdSet { inner: hashbrown::HashSet::new() }
    }

    /// `hashbrown::HashSet::contains`: whether the identifier is in the set.
    #[verifier::external_body]
    pub(crate) fn contains(&self, id: u64) -> (found: bool)
        ensures
            found == id_set_contents(*self).contains(id),
    {
        self.inner.contains(&id)
    }

    /// `hashbrown::HashSet::insert`: the identifier is in the set afterwards,
    /// and the result tells whether it was new.
    #[verifier::external_body]
    pub(crate) fn insert(&mut self, id: u64) -> (new: bool)
        ensures
            id_set_contents(*final(self)) == id_set_contents(*old(self)).insert(id),
            new == !id_set_contents(*old(self)).contains(id),
    {
        self.inner.insert(id)
    }

    /// `hashbrown::HashSet::remove`: the identifier is not in the set
    /// afterwards, and the result tells whether it was before.
    #[verifier::external_body]
    pub(crate) fn remove(&mut self, id: u64) -> (found: bool)
        ensures
            id_set_contents(*final(self)) == id_set_contents(*old(self)).remove(id),
            found == id_set_contents(*old(self)).contains(id),
    {
        self.inner.remove(&id)
    }
}

/// The last known status of each tensor of a stream, stored in a
/// `hashbrown::HashMap`.
#[verifier::external_body]
pub struct StatusMap {
    inner: hashbrown::HashMap<u64, TensorStatus>,
}

/// The statuses that the map holds, by tensor.
pub uninterp spec fn status_map_contents(map: StatusMap) -> Map<u64, TensorStatus>;

impl StatusMap {
    /// `hashbrown::HashMap::new`: the map is empty.
    #[verifier::external_body]
    pub(crate) fn new() -> (table: StatusMap)
        ensures
            status_map_contents(table).dom() == Set::<u64>::empty(),
    {
        StatusMap { inner: hashbrown::HashMap::new() }
    }

    /// `hashbrown::HashMap::insert`: the tensor has this status afterwards,
    /// and the result is the one it had before.
    #[verifier::external_body]
    pub(crate) fn insert(&mut self, id: u64, status: TensorStatus) -> (previous: Option<
        TensorStatus,
    >)
        ensures
            status_map_contents(*final(self)) == status_map_contents(*old(self)).insert(id, status),
            previous == status_map_contents(*old(self)).get(id),
    {
        self.inner.insert(id, status)
    }

    /// `hashbrown::HashMap::remove`: the tensor has no status afterwards, and
    /// the result is the one it had before.
    #[verifier::external_body]
    pub(crate) fn remove(&mut self, id: u64) -> (previous: Option<TensorStatus>)
        ensures
            status_map_contents(*final(self)) == status_map_contents(*old(self)).remove(id),
            previous == status_map_contents(*old(self)).get(id),
    {
        self.inner.remove(&id)
    }

    /// `hashbrown::HashMap::is_empty`: whether no tensor has a status.
    #[verifier::external_body]
    pub(crate) fn is_empty(&self) -> (empty: bool)
        ensures
            empty == status_map_contents(*self).dom().is_empty(),
    {
        self.inner.is_empty()
    }
}

/// The slot that each stream occupies, stored in a `hashbrown::HashMap`.
#[verifier::external_body]
pub struct SlotMap {
    inner: hashbrown::HashMap<u64, usize>,
}

/// The slots that the map holds, by stream.
pub uninterp spec fn slot_map_contents(map: SlotMap) -> Map<u64, usize>;

impl SlotMap {
    /// `hashbrown::HashMap::new`: the map is empty.
    #[verifier::external_body]
    pub(crate) fn new() -> (table: SlotMap)
        ensures
            slot_map_contents(table).dom() == Set::<u64>::empty(),
    {
        SlotMap { inner: hashbrown::HashMap::new() }
    }

    /// `hashbrown::HashMap::get`, copied out: the stream's slot, if it has one.
    #[verifier::external_body]
    pub(crate) fn get(&self, id: u64) -> (slot: Option<usize>)
        ensures
            slot == slot_map_contents(*self).get(id),
    {
        self.inner.get(&id).copied()
    }

    /// `hashbrown::HashMap::insert`: the stream has this slot afterwards, and
    /// the result is the one it had before.
    #[verifier::external_body]
    pub(crate) fn insert(&mut self, id: u64, slot: usize) -> (previous: Option<usize>)
        ensures
            slot_map_contents(*final(self)) == slot_map_contents(*old(self)).insert(id, slot),
            previous == slot_map_contents(*old(self)).get(id),
    {
        self.inner.insert(id, slot)
    }

    /// `hashbrown::HashMap::remove`: the stream has no slot afterwards, and
    /// the result is the one it had before.
    #[verifier::external_body]
    pub(crate) fn remove(&mut self, id: u64) -> (previous: Option<usize>)
        ensures
            slot_map_contents(*final(self)) == slot_map_contents(*old(self)).remove(id),
            previous == slot_map_contents(*old(self)).get(id),
    {
        self.inner.remove(&id)
    }
}

} // verus!
