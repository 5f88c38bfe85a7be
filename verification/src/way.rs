use vstd::prelude::*;

use crate::object::{AreaKey, NodeKey, Object, OsmId, RelationKey};
use crate::tags::Tags;

verus! {

/// What a way holds.
pub struct WayView {
    pub osm_id: OsmId,
    pub tags: Map<Seq<char>, Seq<char>>,
    pub nodes: Seq<NodeKey>,
    pub formed_areas: Seq<AreaKey>,
    pub containing_relations: Seq<RelationKey>,
}

/// A polyline through a sequence of nodes.
#[derive(Clone, Debug, PartialEq)]
pub struct Way {
    osm_id: OsmId,
    tags: Tags,
    nodes: Vec<NodeKey>,
    formed_areas: Vec<AreaKey>,
    containing_relations: Vec<RelationKey>,
}

impl View for Way {
    type V = WayView;

    closed spec fn view(&self) -> WayView {
        WayView {
            osm_id: self.osm_id,
            tags: self.tags@,
            nodes: self.nodes@,
            formed_areas: self.formed_areas@,
            containing_relations: self.containing_relations@,
        }
    }
}

impl Way {
    pub fn new(osm_id: OsmId, nodes: Vec<NodeKey>) -> (r: Self)
        ensures
            r@.osm_id == osm_id,
            r@.tags == Map::<Seq<char>, Seq<char>>::empty(),
            r@.nodes == nodes@,
            r@.formed_areas == Seq::<AreaKey>::empty(),
            r@.containing_relations == Seq::<RelationKey>::empty(),
    {
        Way {
            osm_id,
            tags: Tags::new(),
            nodes,
            formed_areas: Vec::new(),
            containing_relations: Vec::new(),
        }
    }

    pub fn nodes(&self) -> (r: &[NodeKey])
        ensures
            r@ == self@.nodes,
    {
        self.nodes.as_slice()
    }

    pub(crate) fn nodes_mut(&mut self) -> (r: &mut Vec<NodeKey>)
        ensures
            r@ == old(self)@.nodes,
            final(self)@ == (WayView { nodes: final(r)@, ..old(self)@ }),
    {
        &mut self.nodes
    }

    pub fn formed_areas(&self) -> (r: &[AreaKey])
        ensures
            r@ == self@.formed_areas,
    {
        self.formed_areas.as_slice()
    }

    pub(crate) fn add_formed_area(&mut self, key: AreaKey)
        ensures
            final(self)@ == (WayView { formed_areas: old(self)@.formed_areas.push(key), ..old(self)@ }),
    {
        self.formed_areas.push(key);
    }

    pub(crate) fn remove_formed_area(&mut self, key: AreaKey)
        requires
            old(self)@.formed_areas.contains(key),
        ensures
            final(self)@ == (WayView { formed_areas: final(self)@.formed_areas, ..old(self)@ }),
            final(self)@.formed_areas.to_multiset() == old(self)@.formed_areas.to_multiset().remove(key),
            final(self)@.formed_areas == crate::object::swap_removed(old(self)@.formed_areas, key),
    {
        let index = crate::seqs::position_of_area(&self.formed_areas, &key);
        proof {
            crate::seqs::lemma_swap_remove_multiset(self.formed_areas@, index as int);
            crate::object::lemma_first_index(self.formed_areas@, key, index as int);
        }
        self.formed_areas.swap_remove(index);
    }

    pub(crate) fn add_containing_relation(&mut self, key: RelationKey)
        ensures
            final(self)@ == (WayView {
                containing_relations: old(self)@.containing_relations.push(key),
                ..old(self)@
            }),
    {
        self.containing_relations.push(key);
    }

    pub(crate) fn remove_containing_relation(&mut self, key: RelationKey)
        requires
            old(self)@.containing_relations.contains(key),
        ensures
            final(self)@ == (WayView {
                containing_relations: final(self)@.containing_relations,
                ..old(self)@
            }),
            final(self)@.containing_relations.to_multiset() == old(
                self,
            )@.containing_relations.to_multiset().remove(key),
            final(self)@.containing_relations == crate::object::swap_removed(old(self)@.containing_relations, key),
    {
        let index = crate::seqs::position_of_relation(&self.containing_relations, &key);
        proof {
            crate::seqs::lemma_swap_remove_multiset(self.containing_relations@, index as int);
            crate::object::lemma_first_index(self.containing_relations@, key, index as int);
        }
        self.containing_relations.swap_remove(index);
    }
}

impl Object for Way {
    open spec fn osm_id_spec(&self) -> OsmId {
        self@.osm_id
    }

    open spec fn tags_spec(&self) -> Map<Seq<char>, Seq<char>> {
        self@.tags
    }

    open spec fn containing_relations_spec(&self) -> Seq<RelationKey> {
        self@.containing_relations
    }

    open spec fn same_but_tags(&self, other: &Self) -> bool {
        self@ == (WayView { tags: self@.tags, ..other@ })
    }

    fn osm_id(&self) -> (r: OsmId) {
        self.osm_id
    }

    fn tags(&self) -> (r: &Tags) {
        &self.tags
    }

    fn tags_mut(&mut self) -> (r: &mut Tags) {
        &mut self.tags
    }

    fn containing_relations(&self) -> (r: &[RelationKey]) {
        self.containing_relations.as_slice()
    }
}

} // verus!
