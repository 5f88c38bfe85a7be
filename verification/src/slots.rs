use vstd::prelude::*;

use slotmap::{DefaultKey, Key, KeyData, SlotMap};

use crate::area::Area;
use crate::node::Node;
use crate::object::{Object, OsmId, RelationKey};
use crate::relation::Relation;
use crate::tags::Tags;
use crate::way::Way;

verus! {

/// Any object held by a [`Storage`](crate::storage::Storage).
#[derive(Clone, Debug)]
pub enum StoredObject {
    Node(Node),
    Way(Way),
    Area(Area),
    Relation(Relation),
}

impl Object for StoredObject {
    open spec fn osm_id_spec(&self) -> OsmId {
        match self {
            StoredObject::Node(o) => o.osm_id_spec(),
            StoredObject::Way(o) => o.osm_id_spec(),
            StoredObject::Area(o) => o.osm_id_spec(),
            StoredObject::Relation(o) => o.osm_id_spec(),
        }
    }

    open spec fn tags_spec(&self) -> Map<Seq<char>, Seq<char>> {
        match self {
            StoredObject::Node(o) => o.tags_spec(),
            StoredObject::Way(o) => o.tags_spec(),
            StoredObject::Area(o) => o.tags_spec(),
            StoredObject::Relation(o) => o.tags_spec(),
        }
    }

    open spec fn containing_relations_spec(&self) -> Seq<RelationKey> {
        match self {
            StoredObject::Node(o) => o.containing_relations_spec(),
            StoredObject::Way(o) => o.containing_relations_spec(),
            StoredObject::Area(o) => o.containing_relations_spec(),
            StoredObject::Relation(o) => o.containing_relations_spec(),
        }
    }

    open spec fn same_but_tags(&self, other: &Self) -> bool {
        match (self, other) {
            (StoredObject::Node(a), StoredObject::Node(b)) => a.same_but_tags(b),
            (StoredObject::Way(a), StoredObject::Way(b)) => a.same_but_tags(b),
            (StoredObject::Area(a), StoredObject::Area(b)) => a.same_but_tags(b),
            (StoredObject::Relation(a), StoredObject::Relation(b)) => a.same_but_tags(b),
            _ => false,
        }
    }

    fn osm_id(&self) -> (r: OsmId) {
        match self {
            StoredObject::Node(o) => o.osm_id(),
            StoredObject::Way(o) => o.osm_id(),
            StoredObject::Area(o) => o.osm_id(),
            StoredObject::Relation(o) => o.osm_id(),
        }
    }

    fn tags(&self) -> (r: &Tags) {
        match self {
            StoredObject::Node(o) => o.tags(),
            StoredObject::Way(o) => o.tags(),
            StoredObject::Area(o) => o.tags(),
            StoredObject::Relation(o) => o.tags(),
        }
    }

    fn tags_mut(&mut self) -> (r: &mut Tags) {
        match self {
            StoredObject::Node(o) => o.tags_mut(),
            StoredObject::Way(o) => o.tags_mut(),
            StoredObject::Area(o) => o.tags_mut(),
            StoredObject::Relation(o) => o.tags_mut(),
        }
    }

    fn containing_relations(&self) -> (r: &[RelationKey]) {
        match self {
            StoredObject::Node(o) => o.containing_relations(),
            StoredObject::Way(o) => o.containing_relations(),
            StoredObject::Area(o) => o.containing_relations(),
            StoredObject::Relation(o) => o.containing_relations(),
        }
    }
}

/// Whether `k` has the form of a slot map key turned into an integer by
/// `KeyData::as_ffi`: the version, in the upper half, is odd for every key
/// of an occupied slot.
pub open spec fn ffi_key(k: u64) -> bool {
    (k / 0x1_0000_0000) % 2 == 1
}

/// A `slotmap::SlotMap` with default keys that holds the stored objects.
#[verifier::external_body]
#[derive(Debug)]
pub struct ObjectSlots {
    map: SlotMap<DefaultKey, StoredObject>,
}

/// The objects of the slot map, by their keys turned into integers
/// with `KeyData::as_ffi`.
pub uninterp spec fn stored_objects(slots: ObjectSlots) -> Map<u64, StoredObject>;

/// `SlotMap::with_key`: a slot map with no objects.
#[verifier::external_body]
pub(crate) fn slots_new() -> (r: ObjectSlots)
    ensures
        stored_objects(r).dom() == Set::<u64>::empty(),
{
    ObjectSlots { map: SlotMap::with_key() }
}

/// `SlotMap::len`: the number of objects held.
#[verifier::external_body]
pub(crate) fn slots_len(slots: &ObjectSlots) -> (r: usize)
    ensures
        r == stored_objects(*slots).len(),
{
    slots.map.len()
}

/// `SlotMap::contains_key` on the key that `KeyData::from_ffi` rebuilds from `k`.
#[verifier::external_body]
pub(crate) fn slots_contains(slots: &ObjectSlots, k: u64) -> (r: bool)
    requires
        ffi_key(k),
    ensures
        r == stored_objects(*slots).contains_key(k),
{
    slots.map.contains_key(KeyData::from_ffi(k).into())
}

/// `SlotMap::index`: the object under a present key.
#[verifier::external_body]
pub(crate) fn slots_get(slots: &ObjectSlots, k: u64) -> (r: &StoredObject)
    requires
        ffi_key(k),
        stored_objects(*slots).contains_key(k),
    ensures
        *r == stored_objects(*slots)[k],
{
    &slots.map[KeyData::from_ffi(k).into()]
}

/// `SlotMap::index_mut`: the object under a present key, to be changed in place;
/// the other objects stay as they are.
#[verifier::external_body]
pub(crate) fn slots_get_mut(slots: &mut ObjectSlots, k: u64) -> (r: &mut StoredObject)
    requires
        ffi_key(k),
        stored_objects(*old(slots)).contains_key(k),
    ensures
        *r == stored_objects(*old(slots))[k],
        stored_objects(*final(slots)) == stored_objects(*old(slots)).insert(k, *final(r)),
{
    &mut slots.map[KeyData::from_ffi(k).into()]
}

/// `SlotMap::insert`: stores the object under a key that was not in use and
/// returns that key as an integer (`KeyData::as_ffi`). It panics only when
/// the map already holds `u32::MAX - 1` objects.
#[verifier::external_body]
pub(crate) fn slots_insert(slots: &mut ObjectSlots, value: StoredObject) -> (r: u64)
    requires
        stored_objects(*old(slots)).len() + 1 < u32::MAX,
    ensures
        ffi_key(r),
        !stored_objects(*old(slots)).contains_key(r),
        stored_objects(*final(slots)) == stored_objects(*old(slots)).insert(r, value),
{
    slots.map.insert(value).data().as_ffi()
}

/// `SlotMap::remove`: takes the object under the key out, if present.
#[verifier::external_body]
pub(crate) fn slots_remove(slots: &mut ObjectSlots, k: u64) -> (r: Option<StoredObject>)
    requires
        ffi_key(k),
    ensures
        stored_objects(*old(slots)).contains_key(k) ==> r == Some(stored_objects(*old(slots))[k])
            && stored_objects(*final(slots)) == stored_objects(*old(slots)).remove(k),
        !stored_objects(*old(slots)).contains_key(k) ==> r is None && stored_objects(*final(slots))
            == stored_objects(*old(slots)),
{
    slots.map.remove(KeyData::from_ffi(k).into())
}

/// `SlotMap::iter`: every key (as an integer) with its object, each key once,
/// in an order that the slot map chooses.
#[verifier::external_body]
pub(crate) fn slots_iter(slots: &ObjectSlots) -> (r: Vec<(u64, &StoredObject)>)
    ensures
        forall|i: int| 0 <= i < r@.len() ==> ffi_key(#[trigger] r@[i].0) && stored_objects(*slots).contains_key(r@[i].0)
            && *r@[i].1 == stored_objects(*slots)[r@[i].0],
        forall|i: int, j: int| 0 <= i < r@.len() && 0 <= j < r@.len() && i != j ==> #[trigger] r@[i].0 != #[trigger] r@[j].0,
        forall|k: u64| stored_objects(*slots).contains_key(k) ==> exists|i: int| 0 <= i < r@.len() && #[trigger] r@[i].0 == k,
{
    slots.map.iter().map(|(k, v)| (k.data().as_ffi(), v)).collect()
}

} // verus!
