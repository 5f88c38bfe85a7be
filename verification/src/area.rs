use vstd::prelude::*;

use crate::object::{Object, OsmId, RelationKey, WayKey};
use crate::tags::Tags;

verus! {

/// What an area holds.
pub struct AreaView {
    pub osm_id: OsmId,
    pub source: AreaSource,
    pub tags: Map<Seq<char>, Seq<char>>,
    pub rings: Seq<Ring>,
    pub containing_relations: Seq<RelationKey>,
}

/// A polygon bounded by rings of ways.
#[derive(Clone, Debug, PartialEq)]
pub struct Area {
    osm_id: OsmId,
    source: AreaSource,
    tags: Tags,
    rings: Vec<Ring>,
    containing_relations: Vec<RelationKey>,
}

impl View for Area {
    type V = AreaView;

    closed spec fn view(&self) -> AreaView {
        AreaView {
            osm_id: self.osm_id,
            source: self.source,
            tags: self.tags@,
            rings: self.rings@,
            containing_relations: self.containing_relations@,
        }
    }
}

impl Area {
    pub fn new(osm_id: OsmId, source: AreaSource, rings: Vec<Ring>) -> (r: Self)
        ensures
            r@.osm_id == osm_id,
            r@.source == source,
            r@.tags == Map::<Seq<char>, Seq<char>>::empty(),
            r@.rings == rings@,
            r@.containing_relations == Seq::<RelationKey>::empty(),
    {
        Area {
            osm_id,
            source,
            tags: Tags::new(),
            rings,
            containing_relations: Vec::new(),
        }
    }

    pub fn rings(&self) -> (r: &[Ring])
        ensures
            r@ == self@.rings,
    {
        self.rings.as_slice()
    }

    pub fn rings_mut(&mut self) -> (r: &mut Vec<Ring>)
        ensures
            r@ == old(self)@.rings,
            final(self)@ == (AreaView { rings: final(r)@, ..old(self)@ }),
    {
        &mut self.rings
    }

    pub fn source(&self) -> (r: AreaSource)
        ensures
            r == self@.source,
    {
        self.source
    }

    pub(crate) fn add_containing_relation(&mut self, key: RelationKey)
        ensures
            final(self)@ == (AreaView {
                containing_relations: old(self)@.containing_relations.push(key),
                ..old(self)@
            }),
    {
        self.containing_relations.push(key);
    }

    pub(crate) fn remove_containing_relation(&mut self, key: RelationKey)
        requires
            old(self)@.containing_relations.contains(key),
        ensures
            final(self)@ == (AreaView {
                containing_relations: final(self)@.containing_relations,
                ..old(self)@
            }),
            final(self)@.containing_relations.to_multiset() == old(
                self,
            )@.containing_relations.to_multiset().remove(key),
            final(self)@.containing_relations == crate::object::swap_removed(old(self)@.containing_relations, key),
    {
        let index = crate::seqs::position_of_relation(&self.containing_relations, &key);
        proof {
            crate::seqs::lemma_swap_remove_multiset(self.containing_relations@, index as int);
            crate::object::lemma_first_index(self.containing_relations@, key, index as int);
        }
        self.containing_relations.swap_remove(index);
    }
}

impl Object for Area {
    open spec fn osm_id_spec(&self) -> OsmId {
        self@.osm_id
    }

    open spec fn tags_spec(&self) -> Map<Seq<char>, Seq<char>> {
        self@.tags
    }

    open spec fn containing_relations_spec(&self) -> Seq<RelationKey> {
        self@.containing_relations
    }

    open spec fn same_but_tags(&self, other: &Self) -> bool {
        self@ == (AreaView { tags: self@.tags, ..other@ })
    }

    fn osm_id(&self) -> (r: OsmId) {
        self.osm_id
    }

    fn tags(&self) -> (r: &Tags) {
        &self.tags
    }

    fn tags_mut(&mut self) -> (r: &mut Tags) {
        &mut self.tags
    }

    fn containing_relations(&self) -> (r: &[RelationKey]) {
        self.containing_relations.as_slice()
    }
}

/// A closed ring of ways that bounds an area from outside or inside.
#[derive(Clone, Debug, PartialEq, Eq)]
pub struct Ring {
    pub role: RingRole,
    pub ways: Vec<WayKey>,
}

#[derive(Clone, Copy, Debug, PartialEq, Eq, Structural)]
pub enum RingRole {
    Outer,
    Inner,
}

impl Ring {
    pub fn new_outer(ways: Vec<WayKey>) -> (r: Self)
        ensures
            r.role == RingRole::Outer,
            r.ways@ == ways@,
    {
        Ring { role: RingRole::Outer, ways }
    }

    pub fn new_inner(ways: Vec<WayKey>) -> (r: Self)
        ensures
            r.role == RingRole::Inner,
            r.ways@ == ways@,
    {
        Ring { role: RingRole::Inner, ways }
    }
}

/// What an area was formed from.
#[derive(Clone, Copy, Debug, PartialEq, Eq, Structural)]
pub enum AreaSource {
    Way,
    Relation,
    Unspecified,
}

} // verus!
