use vstd::prelude::*;

use crate::location::Location;
use crate::object::{Object, OsmId, RelationKey, WayKey};
use crate::tags::Tags;

verus! {

/// What a node holds.
pub struct NodeView {
    pub osm_id: OsmId,
    pub location: Location,
    pub tags: Map<Seq<char>, Seq<char>>,
    pub containing_ways: Seq<WayKey>,
    pub containing_relations: Seq<RelationKey>,
}

/// A point of the map.
#[derive(Clone, Debug, PartialEq)]
pub struct Node {
    osm_id: OsmId,
    location: Location,
    tags: Tags,
    containing_ways: Vec<WayKey>,
    containing_relations: Vec<RelationKey>,
}

impl View for Node {
    type V = NodeView;

    closed spec fn view(&self) -> NodeView {
        NodeView {
            osm_id: self.osm_id,
            location: self.location,
            tags: self.tags@,
            containing_ways: self.containing_ways@,
            containing_relations: self.containing_relations@,
        }
    }
}

impl Node {
    pub fn new(osm_id: OsmId, location: Location) -> (r: Self)
        ensures
            r@.osm_id == osm_id,
            r@.location == location,
            r@.tags == Map::<Seq<char>, Seq<char>>::empty(),
            r@.containing_ways == Seq::<WayKey>::empty(),
            r@.containing_relations == Seq::<RelationKey>::empty(),
    {
        Node {
            osm_id,
            location,
            tags: Tags::new(),
            containing_ways: Vec::new(),
            containing_relations: Vec::new(),
        }
    }

    pub fn location(&self) -> (r: Location)
        ensures
            r == self@.location,
    {
        self.location
    }

    pub fn set_location(&mut self, new_location: Location)
        ensures
            final(self)@ == (NodeView { location: new_location, ..old(self)@ }),
    {
        self.location = new_location;
    }

    /// The ways that contain this node, once per occurrence of the node in each way.
    pub fn containing_ways(&self) -> (r: &[WayKey])
        ensures
            r@ == self@.containing_ways,
    {
        self.containing_ways.as_slice()
    }

    pub(crate) fn add_containing_way(&mut self, key: WayKey)
        ensures
            final(self)@ == (NodeView { containing_ways: old(self)@.containing_ways.push(key), ..old(self)@ }),
    {
        self.containing_ways.push(key);
    }

    pub(crate) fn remove_containing_way(&mut self, key: WayKey)
        requires
            old(self)@.containing_ways.contains(key),
        ensures
            final(self)@ == (NodeView {
                containing_ways: final(self)@.containing_ways,
                ..old(self)@
            }),
            final(self)@.containing_ways.to_multiset() == old(self)@.containing_ways.to_multiset().remove(key),
            final(self)@.containing_ways == crate::object::swap_removed(old(self)@.containing_ways, key),
    {
        let index = crate::seqs::position_of_way(&self.containing_ways, &key);
        proof {
            crate::seqs::lemma_swap_remove_multiset(self.containing_ways@, index as int);
            crate::object::lemma_first_index(self.containing_ways@, key, index as int);
        }
        self.containing_ways.swap_remove(index);
    }

    pub(crate) fn add_containing_relation(&mut self, key: RelationKey)
        ensures
            final(self)@ == (NodeView {
                containing_relations: old(self)@.containing_relations.push(key),
                ..old(self)@
            }),
    {
        self.containing_relations.push(key);
    }

    pub(crate) fn remove_containing_relation(&mut self, key: RelationKey)
        requires
            old(self)@.containing_relations.contains(key),
        ensures
            final(self)@ == (NodeView {
                containing_relations: final(self)@.containing_relations,
                ..old(self)@
            }),
            final(self)@.containing_relations.to_multiset() == old(
                self,
            )@.containing_relations.to_multiset().remove(key),
            final(self)@.containing_relations == crate::object::swap_removed(old(self)@.containing_relations, key),
    {
        let index = crate::seqs::position_of_relation(&self.containing_relations, &key);
        proof {
            crate::seqs::lemma_swap_remove_multiset(self.containing_relations@, index as int);
            crate::object::lemma_first_index(self.containing_relations@, key, index as int);
        }
        self.containing_relations.swap_remove(index);
    }
}

impl Object for Node {
    open spec fn osm_id_spec(&self) -> OsmId {
        self@.osm_id
    }

    open spec fn tags_spec(&self) -> Map<Seq<char>, Seq<char>> {
        self@.tags
    }

    open spec fn containing_relations_spec(&self) -> Seq<RelationKey> {
        self@.containing_relations
    }

    open spec fn same_but_tags(&self, other: &Self) -> bool {
        self@ == (NodeView { tags: self@.tags, ..other@ })
    }

    fn osm_id(&self) -> (r: OsmId) {
        self.osm_id
    }

    fn tags(&self) -> (r: &Tags) {
        &self.tags
    }

    fn tags_mut(&mut self) -> (r: &mut Tags) {
        &mut self.tags
    }

    fn containing_relations(&self) -> (r: &[RelationKey]) {
        self.containing_relations.as_slice()
    }
}

} // verus!
