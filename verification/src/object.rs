use vstd::prelude::*;

use crate::tags::Tags;

verus! {

/// OpenStreetMap identifier of an object, absent for objects created here.
pub type OsmId = Option<i64>;

/// Key of a node stored in a [`Storage`](crate::storage::Storage).
#[derive(Clone, Copy, Debug, PartialEq, Eq, Hash, PartialOrd, Ord, Structural)]
pub struct NodeKey(pub(crate) u64);

/// Key of a way stored in a [`Storage`](crate::storage::Storage).
#[derive(Clone, Copy, Debug, PartialEq, Eq, Hash, PartialOrd, Ord, Structural)]
pub struct WayKey(pub(crate) u64);

/// Key of an area stored in a [`Storage`](crate::storage::Storage).
#[derive(Clone, Copy, Debug, PartialEq, Eq, Hash, PartialOrd, Ord, Structural)]
pub struct AreaKey(pub(crate) u64);

/// Key of a relation stored in a [`Storage`](crate::storage::Storage).
#[derive(Clone, Copy, Debug, PartialEq, Eq, Hash, PartialOrd, Ord, Structural)]
pub struct RelationKey(pub(crate) u64);

impl NodeKey {
    /// Keys are only made from slot map keys.
    #[verifier::type_invariant]
    pub(crate) open spec fn made_by_slots(self) -> bool {
        crate::slots::ffi_key(self.0)
    }
}

impl WayKey {
    /// Keys are only made from slot map keys.
    #[verifier::type_invariant]
    pub(crate) open spec fn made_by_slots(self) -> bool {
        crate::slots::ffi_key(self.0)
    }
}

impl AreaKey {
    /// Keys are only made from slot map keys.
    #[verifier::type_invariant]
    pub(crate) open spec fn made_by_slots(self) -> bool {
        crate::slots::ffi_key(self.0)
    }
}

impl RelationKey {
    /// Keys are only made from slot map keys.
    #[verifier::type_invariant]
    pub(crate) open spec fn made_by_slots(self) -> bool {
        crate::slots::ffi_key(self.0)
    }
}

/// Key of any stored object.
#[derive(Clone, Copy, Debug, PartialEq, Eq, Hash, PartialOrd, Ord, Structural)]
pub enum ObjectKey {
    Node(NodeKey),
    Way(WayKey),
    Area(AreaKey),
    Relation(RelationKey),
}

impl From<NodeKey> for ObjectKey {
    fn from(key: NodeKey) -> (r: ObjectKey)
        ensures
            r == ObjectKey::Node(key),
    {
        ObjectKey::Node(key)
    }
}

impl vstd::std_specs::convert::FromSpecImpl<NodeKey> for ObjectKey {
    open spec fn obeys_from_spec() -> bool {
        true
    }

    open spec fn from_spec(key: NodeKey) -> ObjectKey {
        ObjectKey::Node(key)
    }
}

impl From<WayKey> for ObjectKey {
    fn from(key: WayKey) -> (r: ObjectKey)
        ensures
            r == ObjectKey::Way(key),
    {
        ObjectKey::Way(key)
    }
}

impl vstd::std_specs::convert::FromSpecImpl<WayKey> for ObjectKey {
    open spec fn obeys_from_spec() -> bool {
        true
    }

    open spec fn from_spec(key: WayKey) -> ObjectKey {
        ObjectKey::Way(key)
    }
}

impl From<AreaKey> for ObjectKey {
    fn from(key: AreaKey) -> (r: ObjectKey)
        ensures
            r == ObjectKey::Area(key),
    {
        ObjectKey::Area(key)
    }
}

impl vstd::std_specs::convert::FromSpecImpl<AreaKey> for ObjectKey {
    open spec fn obeys_from_spec() -> bool {
        true
    }

    open spec fn from_spec(key: AreaKey) -> ObjectKey {
        ObjectKey::Area(key)
    }
}

impl From<RelationKey> for ObjectKey {
    fn from(key: RelationKey) -> (r: ObjectKey)
        ensures
            r == ObjectKey::Relation(key),
    {
        ObjectKey::Relation(key)
    }
}

impl vstd::std_specs::convert::FromSpecImpl<RelationKey> for ObjectKey {
    open spec fn obeys_from_spec() -> bool {
        true
    }

    open spec fn from_spec(key: RelationKey) -> ObjectKey {
        ObjectKey::Relation(key)
    }
}

/// Behaviour shared by all map objects: an OSM identifier, tags and the
/// relations that contain the object.
pub trait Object {
    spec fn osm_id_spec(&self) -> OsmId;

    spec fn tags_spec(&self) -> Map<Seq<char>, Seq<char>>;

    spec fn containing_relations_spec(&self) -> Seq<RelationKey>;

    /// Everything but the tags of `self` and `other` agrees.
    spec fn same_but_tags(&self, other: &Self) -> bool;

    fn osm_id(&self) -> (r: OsmId)
        ensures
            r == self.osm_id_spec(),
    ;

    fn tags(&self) -> (r: &Tags)
        ensures
            r@ == self.tags_spec(),
    ;

    fn tags_mut(&mut self) -> (r: &mut Tags)
        ensures
            r@ == old(self).tags_spec(),
            final(self).tags_spec() == final(r)@,
            final(self).same_but_tags(old(self)),
    ;

    fn containing_relations(&self) -> (r: &[RelationKey])
        ensures
            r@ == self.containing_relations_spec(),
    ;

    fn has_tag(&self, tag: &str) -> (r: bool)
        ensures
            r == self.tags_spec().contains_key(tag@),
    {
        self.tags().contains_key(tag)
    }

    fn get_tag(&self, tag: &str) -> (r: Option<&str>)
        ensures
            match r {
                Some(v) => self.tags_spec().contains_key(tag@) && v@ == self.tags_spec()[tag@],
                None => !self.tags_spec().contains_key(tag@),
            },
    {
        self.tags().get(tag)
    }

    fn set_tag(&mut self, tag: String, value: String)
        ensures
            final(self).tags_spec() == old(self).tags_spec().insert(tag@, value@),
            final(self).same_but_tags(old(self)),
    {
        self.tags_mut().insert(tag, value);
    }

    fn remove_tag(&mut self, tag: &str)
        ensures
            final(self).tags_spec() == old(self).tags_spec().remove(tag@),
            final(self).same_but_tags(old(self)),
    {
        self.tags_mut().remove(tag);
    }
}


/// The position of the first occurrence of `x` in `s`.
pub open spec fn first_index<T>(s: Seq<T>, x: T) -> int {
    choose|i: int| 0 <= i < s.len() && s[i] == x && forall|j: int| 0 <= j < i ==> s[j] != x
}

/// `s` without the first occurrence of `x`, whose place the last item takes,
/// as `Vec::swap_remove` leaves it.
pub open spec fn swap_removed<T>(s: Seq<T>, x: T) -> Seq<T> {
    s.update(first_index(s, x), s.last()).drop_last()
}

/// `s` after `n` removals of `x` in turn, each as `swap_removed` makes it.
pub open spec fn swap_removed_times<T>(s: Seq<T>, x: T, n: nat) -> Seq<T>
    decreases n,
{
    if n == 0 {
        s
    } else {
        swap_removed(swap_removed_times(s, x, (n - 1) as nat), x)
    }
}

/// A position holding `x` with no `x` before it is the first index of `x`.
pub proof fn lemma_first_index<T>(s: Seq<T>, x: T, i: int)
    requires
        0 <= i < s.len(),
        s[i] == x,
        forall|j: int| 0 <= j < i ==> s[j] != x,
    ensures
        first_index(s, x) == i,
{
    let k = first_index(s, x);
    assert(0 <= k < s.len() && s[k] == x && forall|j: int| 0 <= j < k ==> s[j] != x);
    if k < i {
        assert(s[k] != x);
    } else if i < k {
        assert(s[i] != x);
    }
}

} // verus!
