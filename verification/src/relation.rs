use vstd::prelude::*;

use crate::object::{ObjectKey, Object, OsmId, RelationKey};
use crate::tags::Tags;
use vstd::std_specs::convert::IntoSpec;

verus! {

/// What a relation holds.
pub struct RelationView {
    pub osm_id: OsmId,
    pub tags: Map<Seq<char>, Seq<char>>,
    pub members: Seq<RelationMember>,
    pub containing_relations: Seq<RelationKey>,
}

/// An ordered group of map objects, each with an optional role.
#[derive(Clone, Debug, PartialEq)]
pub struct Relation {
    osm_id: OsmId,
    tags: Tags,
    members: Vec<RelationMember>,
    containing_relations: Vec<RelationKey>,
}

impl View for Relation {
    type V = RelationView;

    closed spec fn view(&self) -> RelationView {
        RelationView {
            osm_id: self.osm_id,
            tags: self.tags@,
            members: self.members@,
            containing_relations: self.containing_relations@,
        }
    }
}

impl Relation {
    pub fn new(osm_id: OsmId, members: Vec<RelationMember>) -> (r: Self)
        ensures
            r@.osm_id == osm_id,
            r@.tags == Map::<Seq<char>, Seq<char>>::empty(),
            r@.members == members@,
            r@.containing_relations == Seq::<RelationKey>::empty(),
    {
        Relation { osm_id, tags: Tags::new(), members, containing_relations: Vec::new() }
    }

    pub fn members(&self) -> (r: &[RelationMember])
        ensures
            r@ == self@.members,
    {
        self.members.as_slice()
    }

    pub fn members_mut(&mut self) -> (r: &mut Vec<RelationMember>)
        ensures
            r@ == old(self)@.members,
            final(self)@ == (RelationView { members: final(r)@, ..old(self)@ }),
    {
        &mut self.members
    }

    pub(crate) fn add_containing_relation(&mut self, key: RelationKey)
        ensures
            final(self)@ == (RelationView {
                containing_relations: old(self)@.containing_relations.push(key),
                ..old(self)@
            }),
    {
        self.containing_relations.push(key);
    }

    pub(crate) fn remove_containing_relation(&mut self, key: RelationKey)
        requires
            old(self)@.containing_relations.contains(key),
        ensures
            final(self)@ == (RelationView {
                containing_relations: final(self)@.containing_relations,
                ..old(self)@
            }),
            final(self)@.containing_relations.to_multiset() == old(
                self,
            )@.containing_relations.to_multiset().remove(key),
            final(self)@.containing_relations == crate::object::swap_removed(old(self)@.containing_relations, key),
    {
        let index = crate::seqs::position_of_relation(&self.containing_relations, &key);
        proof {
            crate::seqs::lemma_swap_remove_multiset(self.containing_relations@, index as int);
            crate::object::lemma_first_index(self.containing_relations@, key, index as int);
        }
        self.containing_relations.swap_remove(index);
    }
}

impl Object for Relation {
    open spec fn osm_id_spec(&self) -> OsmId {
        self@.osm_id
    }

    open spec fn tags_spec(&self) -> Map<Seq<char>, Seq<char>> {
        self@.tags
    }

    open spec fn containing_relations_spec(&self) -> Seq<RelationKey> {
        self@.containing_relations
    }

    open spec fn same_but_tags(&self, other: &Self) -> bool {
        self@ == (RelationView { tags: self@.tags, ..other@ })
    }

    fn osm_id(&self) -> (r: OsmId) {
        self.osm_id
    }

    fn tags(&self) -> (r: &Tags) {
        &self.tags
    }

    fn tags_mut(&mut self) -> (r: &mut Tags) {
        &mut self.tags
    }

    fn containing_relations(&self) -> (r: &[RelationKey]) {
        self.containing_relations.as_slice()
    }
}

/// A member of a relation: an object and its optional role.
#[derive(Clone, Debug, PartialEq, Eq)]
pub struct RelationMember {
    pub object: ObjectKey,
    pub role: Option<String>,
}

impl RelationMember {
    pub fn new<K: Into<ObjectKey>>(key: K, role: Option<String>) -> (r: Self)
        ensures
            K::obeys_into_spec() ==> r.object == key.into_spec(),
            r.role == role,
    {
        RelationMember { object: key.into(), role }
    }
}

} // verus!
