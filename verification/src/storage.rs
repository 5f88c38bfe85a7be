use vstd::prelude::*;

use crate::area::{Area, AreaSource, AreaView, Ring};
use crate::location::Location;
use crate::node::{Node, NodeView};
use crate::object::{AreaKey, NodeKey, ObjectKey, RelationKey, WayKey};
use crate::relation::{Relation, RelationMember, RelationView};
use crate::slots::{
    ffi_key, slots_contains, slots_get, slots_get_mut, slots_insert, slots_iter, slots_len,
    slots_new, slots_remove, stored_objects, ObjectSlots, StoredObject,
};
use crate::span::Span;
use crate::way::{Way, WayView};

verus! {

broadcast use vstd::seq_lib::group_to_multiset_ensures, vstd::multiset::group_multiset_axioms;

/// The contents of a storage, one map per kind of object.
pub struct StorageView {
    pub nodes: Map<NodeKey, NodeView>,
    pub ways: Map<WayKey, WayView>,
    pub areas: Map<AreaKey, AreaView>,
    pub relations: Map<RelationKey, RelationView>,
}

/// Whether the key refers to an object of the storage.
pub open spec fn object_present(v: StorageView, o: ObjectKey) -> bool {
    match o {
        ObjectKey::Node(k) => v.nodes.contains_key(k),
        ObjectKey::Way(k) => v.ways.contains_key(k),
        ObjectKey::Area(k) => v.areas.contains_key(k),
        ObjectKey::Relation(k) => v.relations.contains_key(k),
    }
}

/// The relations that the object records as containing it.
pub open spec fn containing_relations_of(v: StorageView, o: ObjectKey) -> Seq<RelationKey> {
    match o {
        ObjectKey::Node(k) => v.nodes[k].containing_relations,
        ObjectKey::Way(k) => v.ways[k].containing_relations,
        ObjectKey::Area(k) => v.areas[k].containing_relations,
        ObjectKey::Relation(k) => v.relations[k].containing_relations,
    }
}

/// The objects of a relation's members, in order.
pub open spec fn member_objects(members: Seq<RelationMember>) -> Seq<ObjectKey> {
    members.map_values(|m: RelationMember| m.object)
}

/// The ways of all rings, ring after ring.
pub open spec fn ring_ways(rings: Seq<Ring>) -> Seq<WayKey> {
    rings.map_values(|r: Ring| r.ways@).flatten()
}

/// Every key that an object holds refers to an object of the storage.
pub open spec fn references_present(v: StorageView) -> bool {
    &&& forall|n: NodeKey, w: WayKey|
        #![trigger v.nodes[n].containing_ways.contains(w)]
        v.nodes.contains_key(n) && v.nodes[n].containing_ways.contains(w) ==> v.ways.contains_key(w)
    &&& forall|w: WayKey, n: NodeKey|
        #![trigger v.ways[w].nodes.contains(n)]
        v.ways.contains_key(w) && v.ways[w].nodes.contains(n) ==> v.nodes.contains_key(n)
    &&& forall|w: WayKey, a: AreaKey|
        #![trigger v.ways[w].formed_areas.contains(a)]
        v.ways.contains_key(w) && v.ways[w].formed_areas.contains(a) ==> v.areas.contains_key(a)
    &&& forall|a: AreaKey, w: WayKey|
        #![trigger ring_ways(v.areas[a].rings).contains(w)]
        v.areas.contains_key(a) && ring_ways(v.areas[a].rings).contains(w) ==> v.ways.contains_key(w)
    &&& forall|o: ObjectKey, r: RelationKey|
        #![trigger containing_relations_of(v, o).contains(r)]
        object_present(v, o) && containing_relations_of(v, o).contains(r) ==> v.relations.contains_key(r)
    &&& forall|r: RelationKey, o: ObjectKey|
        #![trigger member_objects(v.relations[r].members).contains(o)]
        v.relations.contains_key(r) && member_objects(v.relations[r].members).contains(o) ==> object_present(v, o)
}

/// A node lists a way as often as the way lists the node.
pub open spec fn node_way_counts_agree(v: StorageView) -> bool {
    forall|n: NodeKey, w: WayKey|
        #![trigger v.nodes[n].containing_ways.to_multiset().count(w)]
        #![trigger v.ways[w].nodes.to_multiset().count(n)]
        v.nodes.contains_key(n) && v.ways.contains_key(w) ==> v.nodes[n].containing_ways.to_multiset().count(w)
            == v.ways[w].nodes.to_multiset().count(n)
}

/// A way lists an area as often as the area's rings list the way.
pub open spec fn way_area_counts_agree(v: StorageView) -> bool {
    forall|w: WayKey, a: AreaKey|
        #![trigger v.ways[w].formed_areas.to_multiset().count(a)]
        #![trigger ring_ways(v.areas[a].rings).to_multiset().count(w)]
        v.ways.contains_key(w) && v.areas.contains_key(a) ==> v.ways[w].formed_areas.to_multiset().count(a)
            == ring_ways(v.areas[a].rings).to_multiset().count(w)
}

/// An object lists a relation as often as the relation lists the object as a member.
pub open spec fn relation_counts_agree(v: StorageView) -> bool {
    forall|o: ObjectKey, r: RelationKey|
        #![trigger containing_relations_of(v, o).to_multiset().count(r)]
        #![trigger member_objects(v.relations[r].members).to_multiset().count(o)]
        object_present(v, o) && v.relations.contains_key(r) ==> containing_relations_of(v, o).to_multiset().count(r)
            == member_objects(v.relations[r].members).to_multiset().count(o)
}

/// The back-references of the storage agree with its forward references.
pub open spec fn consistent(v: StorageView) -> bool {
    &&& references_present(v)
    &&& node_way_counts_agree(v)
    &&& way_area_counts_agree(v)
    &&& relation_counts_agree(v)
}

spec fn node_of(o: StoredObject) -> NodeView {
    match o {
        StoredObject::Node(n) => n@,
        _ => arbitrary(),
    }
}

spec fn way_of(o: StoredObject) -> WayView {
    match o {
        StoredObject::Way(w) => w@,
        _ => arbitrary(),
    }
}

spec fn area_of(o: StoredObject) -> AreaView {
    match o {
        StoredObject::Area(a) => a@,
        _ => arbitrary(),
    }
}

spec fn relation_of(o: StoredObject) -> RelationView {
    match o {
        StoredObject::Relation(r) => r@,
        _ => arbitrary(),
    }
}

/// The per-kind maps of the objects held under integer keys.
pub closed spec fn storage_view(s: Map<u64, StoredObject>) -> StorageView {
    StorageView {
        nodes: Map::new(
            |k: NodeKey| s.contains_key(k.0) && s[k.0] is Node,
            |k: NodeKey| node_of(s[k.0]),
        ),
        ways: Map::new(|k: WayKey| s.contains_key(k.0) && s[k.0] is Way, |k: WayKey| way_of(s[k.0])),
        areas: Map::new(|k: AreaKey| s.contains_key(k.0) && s[k.0] is Area, |k: AreaKey| area_of(s[k.0])),
        relations: Map::new(
            |k: RelationKey| s.contains_key(k.0) && s[k.0] is Relation,
            |k: RelationKey| relation_of(s[k.0]),
        ),
    }
}

spec fn same_kind(a: StoredObject, b: StoredObject) -> bool {
    ||| a is Node && b is Node
    ||| a is Way && b is Way
    ||| a is Area && b is Area
    ||| a is Relation && b is Relation
}

/// The view after putting `o` under key `k`.
spec fn view_put(v: StorageView, k: u64, o: StoredObject) -> StorageView {
    match o {
        StoredObject::Node(n) => StorageView { nodes: v.nodes.insert(NodeKey(k), n@), ..v },
        StoredObject::Way(w) => StorageView { ways: v.ways.insert(WayKey(k), w@), ..v },
        StoredObject::Area(a) => StorageView { areas: v.areas.insert(AreaKey(k), a@), ..v },
        StoredObject::Relation(r) => StorageView { relations: v.relations.insert(RelationKey(k), r@), ..v },
    }
}

/// The view after taking the object under key `k` away.
spec fn view_take(v: StorageView, k: u64, o: StoredObject) -> StorageView {
    match o {
        StoredObject::Node(_) => StorageView { nodes: v.nodes.remove(NodeKey(k)), ..v },
        StoredObject::Way(_) => StorageView { ways: v.ways.remove(WayKey(k)), ..v },
        StoredObject::Area(_) => StorageView { areas: v.areas.remove(AreaKey(k)), ..v },
        StoredObject::Relation(_) => StorageView { relations: v.relations.remove(RelationKey(k)), ..v },
    }
}

proof fn lemma_view_put(s: Map<u64, StoredObject>, k: u64, o: StoredObject)
    requires
        !s.contains_key(k) || same_kind(s[k], o),
    ensures
        storage_view(s.insert(k, o)) == view_put(storage_view(s), k, o),
{
    let v = storage_view(s);
    let v2 = storage_view(s.insert(k, o));
    let e = view_put(v, k, o);
    assert(v2.nodes =~= e.nodes);
    assert(v2.ways =~= e.ways);
    assert(v2.areas =~= e.areas);
    assert(v2.relations =~= e.relations);
}

proof fn lemma_view_take(s: Map<u64, StoredObject>, k: u64)
    requires
        s.contains_key(k),
    ensures
        storage_view(s.remove(k)) == view_take(storage_view(s), k, s[k]),
{
    let v = storage_view(s);
    let v2 = storage_view(s.remove(k));
    let e = view_take(v, k, s[k]);
    assert(v2.nodes =~= e.nodes);
    assert(v2.ways =~= e.ways);
    assert(v2.areas =~= e.areas);
    assert(v2.relations =~= e.relations);
}

/// Why an object could not be deleted.
#[derive(Clone, Copy, Debug, PartialEq, Eq, Structural)]
pub enum ObjectDeleteError {
    NotPresent,
    ContainedInWay,
    ContainedInArea,
    ContainedInRelation,
}

impl ObjectDeleteError {
    pub fn is_contained_in_object(self) -> (r: bool)
        ensures
            r == !(self is NotPresent),
    {
        match self {
            ObjectDeleteError::NotPresent => false,
            ObjectDeleteError::ContainedInWay | ObjectDeleteError::ContainedInArea
            | ObjectDeleteError::ContainedInRelation => true,
        }
    }
}

/// Map objects with stable keys; every object knows the objects that contain it.
#[derive(Debug)]
pub struct Storage {
    objects: ObjectSlots,
    map_span: Span,
}

impl View for Storage {
    type V = StorageView;

    closed spec fn view(&self) -> StorageView {
        storage_view(stored_objects(self.objects))
    }
}

impl Storage {
    /// The storage's own bookkeeping holds and its contents are consistent.
    pub closed spec fn wf(&self) -> bool {
        &&& self.slots_ok()
        &&& consistent(self@)
    }

    closed spec fn slots_ok(&self) -> bool {
        &&& stored_objects(self.objects).dom().finite()
        &&& forall|k: u64| #[trigger] stored_objects(self.objects).contains_key(k) ==> ffi_key(k)
    }

    /// Every key that an object of a well-formed storage holds refers to an
    /// object of the storage, and each link between two objects is recorded on
    /// both sides, as often on one side as on the other.
    pub proof fn lemma_wf_consistent(&self)
        requires
            self.wf(),
        ensures
            consistent(self@),
    {
    }

    /// The number of objects held.
    pub closed spec fn object_count(&self) -> nat {
        stored_objects(self.objects).len()
    }

    closed spec fn slots(&self) -> Map<u64, StoredObject> {
        stored_objects(self.objects)
    }

    pub fn new(map_span: Span) -> (r: Storage)
        ensures
            r.wf(),
            r.object_count() == 0,
            r@.nodes.dom() == Set::<NodeKey>::empty(),
            r@.ways.dom() == Set::<WayKey>::empty(),
            r@.areas.dom() == Set::<AreaKey>::empty(),
            r@.relations.dom() == Set::<RelationKey>::empty(),
            r.map_span() == map_span,
    {
        let r = Storage { objects: slots_new(), map_span };
        proof {
            assert(stored_objects(r.objects) =~= Map::<u64, StoredObject>::empty());
            assert(r@.nodes.dom() =~= Set::<NodeKey>::empty());
            assert(r@.ways.dom() =~= Set::<WayKey>::empty());
            assert(r@.areas.dom() =~= Set::<AreaKey>::empty());
            assert(r@.relations.dom() =~= Set::<RelationKey>::empty());
        }
        r
    }

    pub closed spec fn map_span(&self) -> Span {
        self.map_span
    }

    /// The number of objects held.
    pub fn len(&self) -> (r: usize)
        ensures
            r == self.object_count(),
    {
        slots_len(&self.objects)
    }

    pub fn contains_node(&self, key: NodeKey) -> (r: bool)
        requires
            self.wf(),
        ensures
            r == self@.nodes.contains_key(key),
    {
        proof {
            use_type_invariant(key);
        }
        slots_contains(&self.objects, key.0) && match slots_get(&self.objects, key.0) {
            StoredObject::Node(_) => true,
            _ => false,
        }
    }

    pub fn contains_way(&self, key: WayKey) -> (r: bool)
        requires
            self.wf(),
        ensures
            r == self@.ways.contains_key(key),
    {
        proof {
            use_type_invariant(key);
        }
        slots_contains(&self.objects, key.0) && match slots_get(&self.objects, key.0) {
            StoredObject::Way(_) => true,
            _ => false,
        }
    }

    pub fn contains_area(&self, key: AreaKey) -> (r: bool)
        requires
            self.wf(),
        ensures
            r == self@.areas.contains_key(key),
    {
        proof {
            use_type_invariant(key);
        }
        slots_contains(&self.objects, key.0) && match slots_get(&self.objects, key.0) {
            StoredObject::Area(_) => true,
            _ => false,
        }
    }

    pub fn contains_relation(&self, key: RelationKey) -> (r: bool)
        requires
            self.wf(),
        ensures
            r == self@.relations.contains_key(key),
    {
        proof {
            use_type_invariant(key);
        }
        slots_contains(&self.objects, key.0) && match slots_get(&self.objects, key.0) {
            StoredObject::Relation(_) => true,
            _ => false,
        }
    }

    /// The node under the key.
    pub fn node(&self, key: NodeKey) -> (r: &Node)
        requires
            self.wf(),
            self@.nodes.contains_key(key),
        ensures
            r@ == self@.nodes[key],
    {
        proof {
            use_type_invariant(key);
        }
        match slots_get(&self.objects, key.0) {
            StoredObject::Node(n) => n,
            _ => vstd::pervasive::unreached(),
        }
    }

    /// The way under the key.
    pub fn way(&self, key: WayKey) -> (r: &Way)
        requires
            self.wf(),
            self@.ways.contains_key(key),
        ensures
            r@ == self@.ways[key],
    {
        proof {
            use_type_invariant(key);
        }
        match slots_get(&self.objects, key.0) {
            StoredObject::Way(w) => w,
            _ => vstd::pervasive::unreached(),
        }
    }

    /// The area under the key.
    pub fn area(&self, key: AreaKey) -> (r: &Area)
        requires
            self.wf(),
            self@.areas.contains_key(key),
        ensures
            r@ == self@.areas[key],
    {
        proof {
            use_type_invariant(key);
        }
        match slots_get(&self.objects, key.0) {
            StoredObject::Area(a) => a,
            _ => vstd::pervasive::unreached(),
        }
    }

    /// The relation under the key.
    pub fn relation(&self, key: RelationKey) -> (r: &Relation)
        requires
            self.wf(),
            self@.relations.contains_key(key),
        ensures
            r@ == self@.relations[key],
    {
        proof {
            use_type_invariant(key);
        }
        match slots_get(&self.objects, key.0) {
            StoredObject::Relation(rel) => rel,
            _ => vstd::pervasive::unreached(),
        }
    }
}


/// The view with the containing relations of object `o` replaced by `c`.
pub open spec fn with_containing_relations(v: StorageView, o: ObjectKey, c: Seq<RelationKey>) -> StorageView {
    match o {
        ObjectKey::Node(k) => StorageView {
            nodes: v.nodes.insert(k, NodeView { containing_relations: c, ..v.nodes[k] }),
            ..v
        },
        ObjectKey::Way(k) => StorageView {
            ways: v.ways.insert(k, WayView { containing_relations: c, ..v.ways[k] }),
            ..v
        },
        ObjectKey::Area(k) => StorageView {
            areas: v.areas.insert(k, AreaView { containing_relations: c, ..v.areas[k] }),
            ..v
        },
        ObjectKey::Relation(k) => StorageView {
            relations: v.relations.insert(k, RelationView { containing_relations: c, ..v.relations[k] }),
            ..v
        },
    }
}

/// The tags of object `o`.
pub open spec fn tags_of(v: StorageView, o: ObjectKey) -> Map<Seq<char>, Seq<char>> {
    match o {
        ObjectKey::Node(k) => v.nodes[k].tags,
        ObjectKey::Way(k) => v.ways[k].tags,
        ObjectKey::Area(k) => v.areas[k].tags,
        ObjectKey::Relation(k) => v.relations[k].tags,
    }
}

/// The view with the tags of object `o` replaced by `t`.
pub open spec fn with_tags(v: StorageView, o: ObjectKey, t: Map<Seq<char>, Seq<char>>) -> StorageView {
    match o {
        ObjectKey::Node(k) => StorageView { nodes: v.nodes.insert(k, NodeView { tags: t, ..v.nodes[k] }), ..v },
        ObjectKey::Way(k) => StorageView { ways: v.ways.insert(k, WayView { tags: t, ..v.ways[k] }), ..v },
        ObjectKey::Area(k) => StorageView { areas: v.areas.insert(k, AreaView { tags: t, ..v.areas[k] }), ..v },
        ObjectKey::Relation(k) => StorageView {
            relations: v.relations.insert(k, RelationView { tags: t, ..v.relations[k] }),
            ..v
        },
    }
}

impl Storage {
    fn node_add_containing_way(&mut self, n: NodeKey, w: WayKey)
        requires
            old(self).slots_ok(),
            old(self)@.nodes.contains_key(n),
        ensures
            final(self).slots_ok(),
            final(self).object_count() == old(self).object_count(),
            final(self)@ == (StorageView { nodes: old(self)@.nodes.insert(n, NodeView { containing_ways: old(self)@.nodes[n].containing_ways.push(w), ..old(self)@.nodes[n] }), ..old(self)@ }),
    {
        proof {
            use_type_invariant(n);
        }
        let ghost s0 = self.slots();
        let obj = slots_get_mut(&mut self.objects, n.0);
        match obj {
            StoredObject::Node(x) => {
                x.add_containing_way(w)
            },
            _ => vstd::pervasive::unreached(),
        };
        proof {
            lemma_view_put(s0, n.0, self.slots()[n.0]);
            assert(self.slots().dom() =~= s0.dom());
        }
        
    }

    fn node_remove_containing_way(&mut self, n: NodeKey, w: WayKey)
        requires
            old(self).slots_ok(),
            old(self)@.nodes.contains_key(n),
            old(self)@.nodes[n].containing_ways.contains(w),
        ensures
            final(self).slots_ok(),
            final(self).object_count() == old(self).object_count(),
            final(self)@ == (StorageView { nodes: old(self)@.nodes.insert(n, NodeView { containing_ways: final(self)@.nodes[n].containing_ways, ..old(self)@.nodes[n] }), ..old(self)@ }),
            final(self)@.nodes[n].containing_ways.to_multiset() == old(self)@.nodes[n].containing_ways.to_multiset().remove(w),
            final(self)@.nodes[n].containing_ways == crate::object::swap_removed(old(self)@.nodes[n].containing_ways, w),
    {
        proof {
            use_type_invariant(n);
        }
        let ghost s0 = self.slots();
        let obj = slots_get_mut(&mut self.objects, n.0);
        match obj {
            StoredObject::Node(x) => {
                x.remove_containing_way(w)
            },
            _ => vstd::pervasive::unreached(),
        };
        proof {
            lemma_view_put(s0, n.0, self.slots()[n.0]);
            assert(self.slots().dom() =~= s0.dom());
        }
        
    }

    fn node_set_location(&mut self, n: NodeKey, location: Location)
        requires
            old(self).slots_ok(),
            old(self)@.nodes.contains_key(n),
        ensures
            final(self).slots_ok(),
            final(self).object_count() == old(self).object_count(),
            final(self)@ == (StorageView { nodes: old(self)@.nodes.insert(n, NodeView { location, ..old(self)@.nodes[n] }), ..old(self)@ }),
    {
        proof {
            use_type_invariant(n);
        }
        let ghost s0 = self.slots();
        let obj = slots_get_mut(&mut self.objects, n.0);
        match obj {
            StoredObject::Node(x) => {
                x.set_location(location)
            },
            _ => vstd::pervasive::unreached(),
        };
        proof {
            lemma_view_put(s0, n.0, self.slots()[n.0]);
            assert(self.slots().dom() =~= s0.dom());
        }
        
    }

    fn way_push_node(&mut self, w: WayKey, n: NodeKey)
        requires
            old(self).slots_ok(),
            old(self)@.ways.contains_key(w),
        ensures
            final(self).slots_ok(),
            final(self).object_count() == old(self).object_count(),
            final(self)@ == (StorageView { ways: old(self)@.ways.insert(w, WayView { nodes: old(self)@.ways[w].nodes.push(n), ..old(self)@.ways[w] }), ..old(self)@ }),
    {
        proof {
            use_type_invariant(w);
        }
        let ghost s0 = self.slots();
        let obj = slots_get_mut(&mut self.objects, w.0);
        match obj {
            StoredObject::Way(x) => {
                x.nodes_mut().push(n)
            },
            _ => vstd::pervasive::unreached(),
        };
        proof {
            lemma_view_put(s0, w.0, self.slots()[w.0]);
            assert(self.slots().dom() =~= s0.dom());
        }
        
    }

    fn way_insert_node(&mut self, w: WayKey, index: usize, n: NodeKey)
        requires
            old(self).slots_ok(),
            old(self)@.ways.contains_key(w),
            index <= old(self)@.ways[w].nodes.len(),
        ensures
            final(self).slots_ok(),
            final(self).object_count() == old(self).object_count(),
            final(self)@ == (StorageView { ways: old(self)@.ways.insert(w, WayView { nodes: old(self)@.ways[w].nodes.insert(index as int, n), ..old(self)@.ways[w] }), ..old(self)@ }),
    {
        proof {
            use_type_invariant(w);
        }
        let ghost s0 = self.slots();
        let obj = slots_get_mut(&mut self.objects, w.0);
        match obj {
            StoredObject::Way(x) => {
                x.nodes_mut().insert(index, n)
            },
            _ => vstd::pervasive::unreached(),
        };
        proof {
            lemma_view_put(s0, w.0, self.slots()[w.0]);
            assert(self.slots().dom() =~= s0.dom());
        }
        
    }

    fn way_remove_node(&mut self, w: WayKey, index: usize) -> (r: NodeKey)
        requires
            old(self).slots_ok(),
            old(self)@.ways.contains_key(w),
            index < old(self)@.ways[w].nodes.len(),
        ensures
            final(self).slots_ok(),
            final(self).object_count() == old(self).object_count(),
            final(self)@ == (StorageView { ways: old(self)@.ways.insert(w, WayView { nodes: old(self)@.ways[w].nodes.remove(index as int), ..old(self)@.ways[w] }), ..old(self)@ }),
            r == old(self)@.ways[w].nodes[index as int],
    {
        proof {
            use_type_invariant(w);
        }
        let ghost s0 = self.slots();
        let obj = slots_get_mut(&mut self.objects, w.0);
        let r = match obj {
            StoredObject::Way(x) => {
                x.nodes_mut().remove(index)
            },
            _ => vstd::pervasive::unreached(),
        };
        proof {
            lemma_view_put(s0, w.0, self.slots()[w.0]);
            assert(self.slots().dom() =~= s0.dom());
        }
        r
    }

    fn way_add_formed_area(&mut self, w: WayKey, a: AreaKey)
        requires
            old(self).slots_ok(),
            old(self)@.ways.contains_key(w),
        ensures
            final(self).slots_ok(),
            final(self).object_count() == old(self).object_count(),
            final(self)@ == (StorageView { ways: old(self)@.ways.insert(w, WayView { formed_areas: old(self)@.ways[w].formed_areas.push(a), ..old(self)@.ways[w] }), ..old(self)@ }),
    {
        proof {
            use_type_invariant(w);
        }
        let ghost s0 = self.slots();
        let obj = slots_get_mut(&mut self.objects, w.0);
        match obj {
            StoredObject::Way(x) => {
                x.add_formed_area(a)
            },
            _ => vstd::pervasive::unreached(),
        };
        proof {
            lemma_view_put(s0, w.0, self.slots()[w.0]);
            assert(self.slots().dom() =~= s0.dom());
        }
        
    }

    fn way_remove_formed_area(&mut self, w: WayKey, a: AreaKey)
        requires
            old(self).slots_ok(),
            old(self)@.ways.contains_key(w),
            old(self)@.ways[w].formed_areas.contains(a),
        ensures
            final(self).slots_ok(),
            final(self).object_count() == old(self).object_count(),
            final(self)@ == (StorageView { ways: old(self)@.ways.insert(w, WayView { formed_areas: final(self)@.ways[w].formed_areas, ..old(self)@.ways[w] }), ..old(self)@ }),
            final(self)@.ways[w].formed_areas.to_multiset() == old(self)@.ways[w].formed_areas.to_multiset().remove(a),
            final(self)@.ways[w].formed_areas == crate::object::swap_removed(old(self)@.ways[w].formed_areas, a),
    {
        proof {
            use_type_invariant(w);
        }
        let ghost s0 = self.slots();
        let obj = slots_get_mut(&mut self.objects, w.0);
        match obj {
            StoredObject::Way(x) => {
                x.remove_formed_area(a)
            },
            _ => vstd::pervasive::unreached(),
        };
        proof {
            lemma_view_put(s0, w.0, self.slots()[w.0]);
            assert(self.slots().dom() =~= s0.dom());
        }
        
    }

    fn area_push_ring(&mut self, a: AreaKey, ring: Ring)
        requires
            old(self).slots_ok(),
            old(self)@.areas.contains_key(a),
        ensures
            final(self).slots_ok(),
            final(self).object_count() == old(self).object_count(),
            final(self)@ == (StorageView { areas: old(self)@.areas.insert(a, AreaView { rings: old(self)@.areas[a].rings.push(ring), ..old(self)@.areas[a] }), ..old(self)@ }),
    {
        proof {
            use_type_invariant(a);
        }
        let ghost s0 = self.slots();
        let obj = slots_get_mut(&mut self.objects, a.0);
        match obj {
            StoredObject::Area(x) => {
                x.rings_mut().push(ring)
            },
            _ => vstd::pervasive::unreached(),
        };
        proof {
            lemma_view_put(s0, a.0, self.slots()[a.0]);
            assert(self.slots().dom() =~= s0.dom());
        }
        
    }

    fn area_remove_ring(&mut self, a: AreaKey, index: usize) -> (r: Ring)
        requires
            old(self).slots_ok(),
            old(self)@.areas.contains_key(a),
            index < old(self)@.areas[a].rings.len(),
        ensures
            final(self).slots_ok(),
            final(self).object_count() == old(self).object_count(),
            final(self)@ == (StorageView { areas: old(self)@.areas.insert(a, AreaView { rings: old(self)@.areas[a].rings.remove(index as int), ..old(self)@.areas[a] }), ..old(self)@ }),
            r == old(self)@.areas[a].rings[index as int],
    {
        proof {
            use_type_invariant(a);
        }
        let ghost s0 = self.slots();
        let obj = slots_get_mut(&mut self.objects, a.0);
        let r = match obj {
            StoredObject::Area(x) => {
                x.rings_mut().remove(index)
            },
            _ => vstd::pervasive::unreached(),
        };
        proof {
            lemma_view_put(s0, a.0, self.slots()[a.0]);
            assert(self.slots().dom() =~= s0.dom());
        }
        r
    }

    fn relation_push_member(&mut self, rk: RelationKey, m: RelationMember)
        requires
            old(self).slots_ok(),
            old(self)@.relations.contains_key(rk),
        ensures
            final(self).slots_ok(),
            final(self).object_count() == old(self).object_count(),
            final(self)@ == (StorageView { relations: old(self)@.relations.insert(rk, RelationView { members: old(self)@.relations[rk].members.push(m), ..old(self)@.relations[rk] }), ..old(self)@ }),
    {
        proof {
            use_type_invariant(rk);
        }
        let ghost s0 = self.slots();
        let obj = slots_get_mut(&mut self.objects, rk.0);
        match obj {
            StoredObject::Relation(x) => {
                x.members_mut().push(m)
            },
            _ => vstd::pervasive::unreached(),
        };
        proof {
            lemma_view_put(s0, rk.0, self.slots()[rk.0]);
            assert(self.slots().dom() =~= s0.dom());
        }
        
    }

    fn relation_insert_member(&mut self, rk: RelationKey, index: usize, m: RelationMember)
        requires
            old(self).slots_ok(),
            old(self)@.relations.contains_key(rk),
            index <= old(self)@.relations[rk].members.len(),
        ensures
            final(self).slots_ok(),
            final(self).object_count() == old(self).object_count(),
            final(self)@ == (StorageView { relations: old(self)@.relations.insert(rk, RelationView { members: old(self)@.relations[rk].members.insert(index as int, m), ..old(self)@.relations[rk] }), ..old(self)@ }),
    {
        proof {
            use_type_invariant(rk);
        }
        let ghost s0 = self.slots();
        let obj = slots_get_mut(&mut self.objects, rk.0);
        match obj {
            StoredObject::Relation(x) => {
                x.members_mut().insert(index, m)
            },
            _ => vstd::pervasive::unreached(),
        };
        proof {
            lemma_view_put(s0, rk.0, self.slots()[rk.0]);
            assert(self.slots().dom() =~= s0.dom());
        }
        
    }

    fn relation_remove_member(&mut self, rk: RelationKey, index: usize) -> (r: RelationMember)
        requires
            old(self).slots_ok(),
            old(self)@.relations.contains_key(rk),
            index < old(self)@.relations[rk].members.len(),
        ensures
            final(self).slots_ok(),
            final(self).object_count() == old(self).object_count(),
            final(self)@ == (StorageView { relations: old(self)@.relations.insert(rk, RelationView { members: old(self)@.relations[rk].members.remove(index as int), ..old(self)@.relations[rk] }), ..old(self)@ }),
            r == old(self)@.relations[rk].members[index as int],
    {
        proof {
            use_type_invariant(rk);
        }
        let ghost s0 = self.slots();
        let obj = slots_get_mut(&mut self.objects, rk.0);
        let r = match obj {
            StoredObject::Relation(x) => {
                x.members_mut().remove(index)
            },
            _ => vstd::pervasive::unreached(),
        };
        proof {
            lemma_view_put(s0, rk.0, self.slots()[rk.0]);
            assert(self.slots().dom() =~= s0.dom());
        }
        r
    }

}

impl Storage {
    fn object_add_containing_relation(&mut self, o: ObjectKey, rk: RelationKey)
        requires
            old(self).slots_ok(),
            object_present(old(self)@, o),
        ensures
            final(self).slots_ok(),
            final(self).object_count() == old(self).object_count(),
            final(self)@ == with_containing_relations(old(self)@, o, containing_relations_of(old(self)@, o).push(rk)),
    {
        let k = match o {
            ObjectKey::Node(key) => {
                proof {
                    use_type_invariant(key);
                }
                key.0
            },
            ObjectKey::Way(key) => {
                proof {
                    use_type_invariant(key);
                }
                key.0
            },
            ObjectKey::Area(key) => {
                proof {
                    use_type_invariant(key);
                }
                key.0
            },
            ObjectKey::Relation(key) => {
                proof {
                    use_type_invariant(key);
                }
                key.0
            },
        };
        let ghost s0 = self.slots();
        let obj = slots_get_mut(&mut self.objects, k);
        match obj {
            StoredObject::Node(x) => x.add_containing_relation(rk),
            StoredObject::Way(x) => x.add_containing_relation(rk),
            StoredObject::Area(x) => x.add_containing_relation(rk),
            StoredObject::Relation(x) => x.add_containing_relation(rk),
        }
        proof {
            lemma_view_put(s0, k, self.slots()[k]);
            assert(self.slots().dom() =~= s0.dom());
        }
    }

    fn object_remove_containing_relation(&mut self, o: ObjectKey, rk: RelationKey)
        requires
            old(self).slots_ok(),
            object_present(old(self)@, o),
            containing_relations_of(old(self)@, o).contains(rk),
        ensures
            final(self).slots_ok(),
            final(self).object_count() == old(self).object_count(),
            final(self)@ == with_containing_relations(old(self)@, o, containing_relations_of(final(self)@, o)),
            containing_relations_of(final(self)@, o).to_multiset() == containing_relations_of(old(self)@, o).to_multiset().remove(rk),
            containing_relations_of(final(self)@, o) == crate::object::swap_removed(containing_relations_of(old(self)@, o), rk),
    {
        let k = match o {
            ObjectKey::Node(key) => {
                proof {
                    use_type_invariant(key);
                }
                key.0
            },
            ObjectKey::Way(key) => {
                proof {
                    use_type_invariant(key);
                }
                key.0
            },
            ObjectKey::Area(key) => {
                proof {
                    use_type_invariant(key);
                }
                key.0
            },
            ObjectKey::Relation(key) => {
                proof {
                    use_type_invariant(key);
                }
                key.0
            },
        };
        let ghost s0 = self.slots();
        let obj = slots_get_mut(&mut self.objects, k);
        match obj {
            StoredObject::Node(x) => x.remove_containing_relation(rk),
            StoredObject::Way(x) => x.remove_containing_relation(rk),
            StoredObject::Area(x) => x.remove_containing_relation(rk),
            StoredObject::Relation(x) => x.remove_containing_relation(rk),
        }
        proof {
            lemma_view_put(s0, k, self.slots()[k]);
            assert(self.slots().dom() =~= s0.dom());
        }
    }

    fn object_set_tag(&mut self, o: ObjectKey, tag: String, value: String)
        requires
            old(self).slots_ok(),
            object_present(old(self)@, o),
        ensures
            final(self).slots_ok(),
            final(self).object_count() == old(self).object_count(),
            final(self)@ == with_tags(old(self)@, o, tags_of(old(self)@, o).insert(tag@, value@)),
    {
        let k = match o {
            ObjectKey::Node(key) => {
                proof {
                    use_type_invariant(key);
                }
                key.0
            },
            ObjectKey::Way(key) => {
                proof {
                    use_type_invariant(key);
                }
                key.0
            },
            ObjectKey::Area(key) => {
                proof {
                    use_type_invariant(key);
                }
                key.0
            },
            ObjectKey::Relation(key) => {
                proof {
                    use_type_invariant(key);
                }
                key.0
            },
        };
        let ghost s0 = self.slots();
        let obj = slots_get_mut(&mut self.objects, k);
        match obj {
            StoredObject::Node(x) => crate::object::Object::set_tag(x, tag, value),
            StoredObject::Way(x) => crate::object::Object::set_tag(x, tag, value),
            StoredObject::Area(x) => crate::object::Object::set_tag(x, tag, value),
            StoredObject::Relation(x) => crate::object::Object::set_tag(x, tag, value),
        }
        proof {
            lemma_view_put(s0, k, self.slots()[k]);
            assert(self.slots().dom() =~= s0.dom());
        }
    }

    fn object_remove_tag(&mut self, o: ObjectKey, tag: &str)
        requires
            old(self).slots_ok(),
            object_present(old(self)@, o),
        ensures
            final(self).slots_ok(),
            final(self).object_count() == old(self).object_count(),
            final(self)@ == with_tags(old(self)@, o, tags_of(old(self)@, o).remove(tag@)),
    {
        let k = match o {
            ObjectKey::Node(key) => {
                proof {
                    use_type_invariant(key);
                }
                key.0
            },
            ObjectKey::Way(key) => {
                proof {
                    use_type_invariant(key);
                }
                key.0
            },
            ObjectKey::Area(key) => {
                proof {
                    use_type_invariant(key);
                }
                key.0
            },
            ObjectKey::Relation(key) => {
                proof {
                    use_type_invariant(key);
                }
                key.0
            },
        };
        let ghost s0 = self.slots();
        let obj = slots_get_mut(&mut self.objects, k);
        match obj {
            StoredObject::Node(x) => crate::object::Object::remove_tag(x, tag),
            StoredObject::Way(x) => crate::object::Object::remove_tag(x, tag),
            StoredObject::Area(x) => crate::object::Object::remove_tag(x, tag),
            StoredObject::Relation(x) => crate::object::Object::remove_tag(x, tag),
        }
        proof {
            lemma_view_put(s0, k, self.slots()[k]);
            assert(self.slots().dom() =~= s0.dom());
        }
    }

}

proof fn lemma_insert_fresh_node(v: StorageView, n: NodeKey, nv: NodeView)
    requires
        consistent(v),
        !v.nodes.contains_key(n),
        nv.containing_ways.len() == 0,
        nv.containing_relations.len() == 0,
    ensures
        consistent(StorageView { nodes: v.nodes.insert(n, nv), ..v }),
{
    let v2 = StorageView { nodes: v.nodes.insert(n, nv), ..v };
    assert forall|o: ObjectKey| object_present(v, o) implies object_present(v2, o)
        && containing_relations_of(v2, o) == containing_relations_of(v, o) by {}
    assert forall|w: WayKey| #[trigger] v.ways.contains_key(w) implies v.ways[w].nodes.to_multiset().count(n) == 0 by {
        if v.ways[w].nodes.to_multiset().count(n) > 0 {
            assert(v.ways[w].nodes.contains(n));
        }
    }
    assert forall|r: RelationKey| #[trigger] v.relations.contains_key(r) implies member_objects(
        v.relations[r].members,
    ).to_multiset().count(ObjectKey::Node(n)) == 0 by {
        if member_objects(v.relations[r].members).to_multiset().count(ObjectKey::Node(n)) > 0 {
            assert(member_objects(v.relations[r].members).contains(ObjectKey::Node(n)));
        }
    }
    assert(references_present(v2)) by {
        assert forall|o: ObjectKey, r: RelationKey|
            object_present(v2, o) && containing_relations_of(v2, o).contains(r) implies v2.relations.contains_key(r) by {
            if o != ObjectKey::Node(n) {
                assert(object_present(v, o));
            }
        }
    }
    assert(node_way_counts_agree(v2));
    assert(relation_counts_agree(v2)) by {
        assert forall|o: ObjectKey, r: RelationKey|
            object_present(v2, o) && v2.relations.contains_key(r) implies containing_relations_of(v2, o).to_multiset().count(r)
            == member_objects(v2.relations[r].members).to_multiset().count(o) by {
            if o != ObjectKey::Node(n) {
                assert(object_present(v, o));
            }
        }
    }
}

impl Storage {
    pub fn insert_node(&mut self, node: Node) -> (r: NodeKey)
        requires
            old(self).wf(),
            old(self).object_count() + 1 < u32::MAX,
            node@.containing_ways.len() == 0,
            node@.containing_relations.len() == 0,
        ensures
            final(self).wf(),
            final(self).object_count() == old(self).object_count() + 1,
            !old(self)@.nodes.contains_key(r),
            final(self)@ == (StorageView { nodes: old(self)@.nodes.insert(r, node@), ..old(self)@ }),
    {
        let ghost s0 = self.slots();
        let ghost v0 = self@;
        let ghost nv = node@;
        let k = slots_insert(&mut self.objects, StoredObject::Node(node));
        let r = NodeKey(k);
        proof {
            lemma_view_put(s0, k, StoredObject::Node(node));
            lemma_insert_fresh_node(v0, r, nv);
            assert(self.slots().dom() =~= s0.dom().insert(k));
        }
        r
    }

    pub fn create_node(&mut self, location: Location) -> (r: NodeKey)
        requires
            old(self).wf(),
            old(self).object_count() + 1 < u32::MAX,
        ensures
            final(self).wf(),
            final(self).object_count() == old(self).object_count() + 1,
            !old(self)@.nodes.contains_key(r),
            final(self)@ == (StorageView {
                nodes: old(self)@.nodes.insert(
                    r,
                    NodeView {
                        osm_id: None,
                        location,
                        tags: Map::empty(),
                        containing_ways: Seq::empty(),
                        containing_relations: Seq::empty(),
                    },
                ),
                ..old(self)@
            }),
    {
        let node = Node::new(None, location);
        proof {
            assert(node@ =~= NodeView {
                osm_id: None,
                location,
                tags: Map::empty(),
                containing_ways: Seq::empty(),
                containing_relations: Seq::empty(),
            });
        }
        self.insert_node(node)
    }
}

proof fn lemma_remove_unreferenced_node(v: StorageView, n: NodeKey)
    requires
        consistent(v),
        v.nodes.contains_key(n),
        v.nodes[n].containing_ways.len() == 0,
        v.nodes[n].containing_relations.len() == 0,
    ensures
        consistent(StorageView { nodes: v.nodes.remove(n), ..v }),
{
    let v2 = StorageView { nodes: v.nodes.remove(n), ..v };
    assert forall|w: WayKey| #[trigger] v.ways.contains_key(w) implies !v.ways[w].nodes.contains(n) by {
        assert(v.nodes[n].containing_ways.to_multiset().count(w) == 0);
        if v.ways[w].nodes.contains(n) {
            assert(v.ways[w].nodes.to_multiset().count(n) > 0);
        }
    }
    assert forall|r: RelationKey| #[trigger] v.relations.contains_key(r) implies !member_objects(
        v.relations[r].members,
    ).contains(ObjectKey::Node(n)) by {
        assert(containing_relations_of(v, ObjectKey::Node(n)).to_multiset().count(r) == 0);
        if member_objects(v.relations[r].members).contains(ObjectKey::Node(n)) {
            assert(member_objects(v.relations[r].members).to_multiset().count(ObjectKey::Node(n)) > 0);
        }
    }
    assert forall|o: ObjectKey| object_present(v2, o) implies object_present(v, o)
        && containing_relations_of(v2, o) == containing_relations_of(v, o) by {}
    assert(references_present(v2)) by {
        assert forall|r: RelationKey, o: ObjectKey|
            v2.relations.contains_key(r) && member_objects(v2.relations[r].members).contains(o) implies object_present(
            v2,
            o,
        ) by {
            assert(object_present(v, o));
        }
    }
    assert(node_way_counts_agree(v2));
    assert(relation_counts_agree(v2));
}

impl Storage {
    pub fn delete_node(&mut self, key: NodeKey) -> (r: Result<Node, ObjectDeleteError>)
        requires
            old(self).wf(),
        ensures
            final(self).wf(),
            !old(self)@.nodes.contains_key(key) ==> r == Err::<Node, ObjectDeleteError>(ObjectDeleteError::NotPresent),
            old(self)@.nodes.contains_key(key) && old(self)@.nodes[key].containing_ways.len() > 0 ==> r == Err::<
                Node,
                ObjectDeleteError,
            >(ObjectDeleteError::ContainedInWay),
            old(self)@.nodes.contains_key(key) && old(self)@.nodes[key].containing_ways.len() == 0
                && old(self)@.nodes[key].containing_relations.len() > 0 ==> r == Err::<Node, ObjectDeleteError>(
                ObjectDeleteError::ContainedInRelation,
            ),
            old(self)@.nodes.contains_key(key) && old(self)@.nodes[key].containing_ways.len() == 0
                && old(self)@.nodes[key].containing_relations.len() == 0 ==> r is Ok,
            r is Err ==> final(self)@ == old(self)@ && final(self).object_count() == old(self).object_count(),
            r is Ok ==> old(self)@.nodes.contains_key(key) && old(self)@.nodes[key].containing_ways.len() == 0
                && old(self)@.nodes[key].containing_relations.len() == 0 && r->Ok_0@ == old(self)@.nodes[key]
                && final(self)@ == (StorageView { nodes: old(self)@.nodes.remove(key), ..old(self)@ })
                && final(self).object_count() + 1 == old(self).object_count(),
    {
        if !self.contains_node(key) {
            return Err(ObjectDeleteError::NotPresent);
        }
        let node = self.node(key);
        if node.containing_ways().len() != 0 {
            return Err(ObjectDeleteError::ContainedInWay);
        }
        if crate::object::Object::containing_relations(node).len() != 0 {
            return Err(ObjectDeleteError::ContainedInRelation);
        }
        proof {
            use_type_invariant(key);
        }
        let ghost s0 = self.slots();
        let ghost v0 = self@;
        let removed = slots_remove(&mut self.objects, key.0);
        proof {
            lemma_view_take(s0, key.0);
            lemma_remove_unreferenced_node(v0, key);
            assert(self.slots().dom() =~= s0.dom().remove(key.0));
        }
        match removed {
            Some(StoredObject::Node(n)) => Ok(n),
            _ => vstd::pervasive::unreached(),
        }
    }
}

/// The node and way lists of `v2` differ from those of `v` only in one more
/// (or one fewer) occurrence of `w` in node `n` and of `n` in way `w`.
proof fn lemma_node_way_link(v: StorageView, n: NodeKey, w: WayKey, c2: Seq<WayKey>, l2: Seq<NodeKey>, adding: bool)
    requires
        consistent(v),
        v.nodes.contains_key(n),
        v.ways.contains_key(w),
        adding ==> c2.to_multiset() == v.nodes[n].containing_ways.to_multiset().insert(w)
            && l2.to_multiset() == v.ways[w].nodes.to_multiset().insert(n),
        !adding ==> c2.to_multiset() == v.nodes[n].containing_ways.to_multiset().remove(w)
            && l2.to_multiset() == v.ways[w].nodes.to_multiset().remove(n) && v.nodes[n].containing_ways.contains(w),
    ensures
        consistent(
            StorageView {
                nodes: v.nodes.insert(n, NodeView { containing_ways: c2, ..v.nodes[n] }),
                ways: v.ways.insert(w, WayView { nodes: l2, ..v.ways[w] }),
                ..v
            },
        ),
{
    let v2 = StorageView {
        nodes: v.nodes.insert(n, NodeView { containing_ways: c2, ..v.nodes[n] }),
        ways: v.ways.insert(w, WayView { nodes: l2, ..v.ways[w] }),
        ..v
    };
    if !adding {
        assert(v.nodes[n].containing_ways.to_multiset().count(w) > 0);
        assert(v.ways[w].nodes.to_multiset().count(n) > 0);
    }
    assert forall|o: ObjectKey| #[trigger] object_present(v2, o) == object_present(v, o)
        && containing_relations_of(v2, o) == containing_relations_of(v, o) by {}
    assert(references_present(v2)) by {
        assert forall|m: NodeKey, x: WayKey|
            v2.nodes.contains_key(m) && v2.nodes[m].containing_ways.contains(x) implies v2.ways.contains_key(x) by {
            if m == n {
                assert(c2.to_multiset().count(x) > 0);
                if x != w {
                    assert(v.nodes[n].containing_ways.to_multiset().count(x) > 0);
                }
            }
        }
        assert forall|y: WayKey, m: NodeKey|
            v2.ways.contains_key(y) && v2.ways[y].nodes.contains(m) implies v2.nodes.contains_key(m) by {
            if y == w {
                assert(l2.to_multiset().count(m) > 0);
                if m != n {
                    assert(v.ways[w].nodes.to_multiset().count(m) > 0);
                }
            }
        }
        assert forall|o: ObjectKey, r: RelationKey|
            object_present(v2, o) && containing_relations_of(v2, o).contains(r) implies v2.relations.contains_key(r) by {
            assert(object_present(v, o));
        }
        assert forall|r: RelationKey, o: ObjectKey|
            v2.relations.contains_key(r) && member_objects(v2.relations[r].members).contains(o) implies object_present(
            v2,
            o,
        ) by {
            assert(object_present(v, o));
        }
    }
    assert(node_way_counts_agree(v2)) by {
        assert forall|m: NodeKey, x: WayKey| v2.nodes.contains_key(m) && v2.ways.contains_key(x) implies #[trigger] v2.nodes[m].containing_ways.to_multiset().count(x)
            == v2.ways[x].nodes.to_multiset().count(m) by {
            assert(v.nodes[m].containing_ways.to_multiset().count(x) == v.ways[x].nodes.to_multiset().count(m));
        }
    }
    assert(way_area_counts_agree(v2)) by {
        assert forall|x: WayKey, a: AreaKey| v2.ways.contains_key(x) && v2.areas.contains_key(a) implies #[trigger] v2.ways[x].formed_areas.to_multiset().count(a)
            == ring_ways(v2.areas[a].rings).to_multiset().count(x) by {
            assert(v.ways[x].formed_areas.to_multiset().count(a) == ring_ways(v.areas[a].rings).to_multiset().count(x));
        }
    }
    assert(relation_counts_agree(v2)) by {
        assert forall|o: ObjectKey, r: RelationKey|
            object_present(v2, o) && v2.relations.contains_key(r) implies #[trigger] containing_relations_of(v2, o).to_multiset().count(r)
            == member_objects(v2.relations[r].members).to_multiset().count(o) by {
            assert(object_present(v, o));
        }
    }
}

impl Storage {
    pub fn append_node_to_way(&mut self, way_key: WayKey, node_key: NodeKey)
        requires
            old(self).wf(),
            old(self)@.ways.contains_key(way_key),
            old(self)@.nodes.contains_key(node_key),
        ensures
            final(self).wf(),
            final(self).object_count() == old(self).object_count(),
            final(self)@ == (StorageView {
                nodes: old(self)@.nodes.insert(
                    node_key,
                    NodeView {
                        containing_ways: old(self)@.nodes[node_key].containing_ways.push(way_key),
                        ..old(self)@.nodes[node_key]
                    },
                ),
                ways: old(self)@.ways.insert(
                    way_key,
                    WayView { nodes: old(self)@.ways[way_key].nodes.push(node_key), ..old(self)@.ways[way_key] },
                ),
                ..old(self)@
            }),
    {
        let ghost v0 = self@;
        self.way_push_node(way_key, node_key);
        self.node_add_containing_way(node_key, way_key);
        proof {
            lemma_node_way_link(
                v0,
                node_key,
                way_key,
                v0.nodes[node_key].containing_ways.push(way_key),
                v0.ways[way_key].nodes.push(node_key),
                true,
            );
        }
    }

    pub fn insert_node_to_way(&mut self, way_key: WayKey, node_key: NodeKey, index: usize)
        requires
            old(self).wf(),
            old(self)@.ways.contains_key(way_key),
            old(self)@.nodes.contains_key(node_key),
            index <= old(self)@.ways[way_key].nodes.len(),
        ensures
            final(self).wf(),
            final(self).object_count() == old(self).object_count(),
            final(self)@ == (StorageView {
                nodes: old(self)@.nodes.insert(
                    node_key,
                    NodeView {
                        containing_ways: old(self)@.nodes[node_key].containing_ways.push(way_key),
                        ..old(self)@.nodes[node_key]
                    },
                ),
                ways: old(self)@.ways.insert(
                    way_key,
                    WayView {
                        nodes: old(self)@.ways[way_key].nodes.insert(index as int, node_key),
                        ..old(self)@.ways[way_key]
                    },
                ),
                ..old(self)@
            }),
    {
        let ghost v0 = self@;
        self.way_insert_node(way_key, index, node_key);
        self.node_add_containing_way(node_key, way_key);
        proof {
            crate::seqs::lemma_insert_multiset(v0.ways[way_key].nodes, index as int, node_key);
            lemma_node_way_link(
                v0,
                node_key,
                way_key,
                v0.nodes[node_key].containing_ways.push(way_key),
                v0.ways[way_key].nodes.insert(index as int, node_key),
                true,
            );
        }
    }

    pub fn remove_node_from_way(&mut self, way_key: WayKey, node_index: usize)
        requires
            old(self).wf(),
            old(self)@.ways.contains_key(way_key),
            node_index < old(self)@.ways[way_key].nodes.len(),
        ensures
            final(self).wf(),
            final(self).object_count() == old(self).object_count(),
            ({
                let n = old(self)@.ways[way_key].nodes[node_index as int];
                &&& final(self)@.ways == old(self)@.ways.insert(
                    way_key,
                    WayView {
                        nodes: old(self)@.ways[way_key].nodes.remove(node_index as int),
                        ..old(self)@.ways[way_key]
                    },
                )
                &&& final(self)@.nodes == old(self)@.nodes.insert(
                    n,
                    NodeView { containing_ways: final(self)@.nodes[n].containing_ways, ..old(self)@.nodes[n] },
                )
                &&& final(self)@.nodes[n].containing_ways.to_multiset() == old(
                    self,
                )@.nodes[n].containing_ways.to_multiset().remove(way_key)
                &&& final(self)@.nodes[n].containing_ways == crate::object::swap_removed(
                    old(self)@.nodes[n].containing_ways,
                    way_key,
                )
                &&& final(self)@.areas == old(self)@.areas
                &&& final(self)@.relations == old(self)@.relations
            }),
    {
        let ghost v0 = self@;
        let node_key = self.way_remove_node(way_key, node_index);
        proof {
            assert(v0.ways[way_key].nodes.contains(node_key));
            assert(v0.nodes.contains_key(node_key));
            assert(v0.ways[way_key].nodes.to_multiset().count(node_key) > 0);
            assert(v0.nodes[node_key].containing_ways.to_multiset().count(way_key) > 0);
        }
        self.node_remove_containing_way(node_key, way_key);
        proof {
            lemma_node_way_link(
                v0,
                node_key,
                way_key,
                self@.nodes[node_key].containing_ways,
                v0.ways[way_key].nodes.remove(node_index as int),
                false,
            );
        }
    }
}

/// The nodes of `v` are those of `v0`, except that each node `m` lists way
/// `w` as many more times (`adding`) or fewer times as `l` lists `m`.
pub open spec fn nodes_changed_by(v0: StorageView, v: StorageView, w: WayKey, l: Seq<NodeKey>, adding: bool) -> bool {
    &&& v.nodes.dom() == v0.nodes.dom()
    &&& forall|m: NodeKey| #[trigger]
        v0.nodes.contains_key(m) ==> v.nodes[m] == (NodeView {
            containing_ways: v.nodes[m].containing_ways,
            ..v0.nodes[m]
        })
    &&& forall|m: NodeKey, x: WayKey|
        #![trigger v.nodes[m].containing_ways.to_multiset().count(x)]
        v0.nodes.contains_key(m) ==> v.nodes[m].containing_ways.to_multiset().count(x) as int == if x != w {
            v0.nodes[m].containing_ways.to_multiset().count(x) as int
        } else if adding {
            v0.nodes[m].containing_ways.to_multiset().count(x) + l.to_multiset().count(m) as int
        } else {
            v0.nodes[m].containing_ways.to_multiset().count(x) - l.to_multiset().count(m)
        }
}

/// `n` copies of `x`.
pub open spec fn repeated<T>(x: T, n: nat) -> Seq<T> {
    Seq::new(n, |_i: int| x)
}

proof fn lemma_repeated_push<T>(s: Seq<T>, x: T, n: nat)
    ensures
        (s + repeated(x, n)).push(x) == s + repeated(x, n + 1),
{
    assert((s + repeated(x, n)).push(x) =~= s + repeated(x, n + 1));
}

/// Each node `m` of `v0` lists, after the ways it listed in `v0`, way `w`
/// once for each time `l` lists `m`.
pub open spec fn way_appended_to_nodes(v0: StorageView, v: StorageView, w: WayKey, l: Seq<NodeKey>) -> bool {
    forall|m: NodeKey| #[trigger]
        v0.nodes.contains_key(m) ==> v.nodes[m].containing_ways == v0.nodes[m].containing_ways + repeated(
            w,
            l.to_multiset().count(m),
        )
}

/// Each node `m` of `v0` has way `w` taken out of its ways once for each
/// time `l` lists `m`, each time as `swap_removed` takes it out.
pub open spec fn way_removed_from_nodes(v0: StorageView, v: StorageView, w: WayKey, l: Seq<NodeKey>) -> bool {
    forall|m: NodeKey| #[trigger]
        v0.nodes.contains_key(m) ==> v.nodes[m].containing_ways == crate::object::swap_removed_times(
            v0.nodes[m].containing_ways,
            w,
            l.to_multiset().count(m),
        )
}

proof fn lemma_insert_way_done(v0: StorageView, r: WayKey, wv: WayView, v: StorageView)
    requires
        consistent(v0),
        !v0.ways.contains_key(r),
        wv.formed_areas.len() == 0,
        wv.containing_relations.len() == 0,
        forall|i: int| 0 <= i < wv.nodes.len() ==> v0.nodes.contains_key(#[trigger] wv.nodes[i]),
        v.ways == v0.ways.insert(r, wv),
        v.areas == v0.areas,
        v.relations == v0.relations,
        nodes_changed_by(v0, v, r, wv.nodes, true),
    ensures
        consistent(v),
{
    assert forall|m: NodeKey| #[trigger] v0.nodes.contains_key(m) implies v0.nodes[m].containing_ways.to_multiset().count(r) == 0 by {
        if v0.nodes[m].containing_ways.to_multiset().count(r) > 0 {
            assert(v0.nodes[m].containing_ways.contains(r));
        }
    }
    assert forall|a: AreaKey| #[trigger] v0.areas.contains_key(a) implies ring_ways(v0.areas[a].rings).to_multiset().count(r) == 0 by {
        if ring_ways(v0.areas[a].rings).to_multiset().count(r) > 0 {
            assert(ring_ways(v0.areas[a].rings).contains(r));
        }
    }
    assert forall|q: RelationKey| #[trigger] v0.relations.contains_key(q) implies member_objects(
        v0.relations[q].members,
    ).to_multiset().count(ObjectKey::Way(r)) == 0 by {
        if member_objects(v0.relations[q].members).to_multiset().count(ObjectKey::Way(r)) > 0 {
            assert(member_objects(v0.relations[q].members).contains(ObjectKey::Way(r)));
        }
    }
    assert forall|o: ObjectKey| o != ObjectKey::Way(r) implies #[trigger] object_present(v, o) == object_present(v0, o)
        && (object_present(v0, o) ==> containing_relations_of(v, o) == containing_relations_of(v0, o)) by {}
    assert(references_present(v)) by {
        assert forall|m: NodeKey, x: WayKey|
            v.nodes.contains_key(m) && v.nodes[m].containing_ways.contains(x) implies v.ways.contains_key(x) by {
            assert(v.nodes[m].containing_ways.to_multiset().count(x) > 0);
            if x != r {
                assert(v0.nodes[m].containing_ways.to_multiset().count(x) > 0);
                assert(v0.nodes[m].containing_ways.contains(x));
            }
        }
        assert forall|y: WayKey, m: NodeKey| v.ways.contains_key(y) && v.ways[y].nodes.contains(m) implies v.nodes.contains_key(
            m,
        ) by {
            if y == r {
                let i = choose|i: int| 0 <= i < wv.nodes.len() && wv.nodes[i] == m;
                assert(v0.nodes.contains_key(wv.nodes[i]));
            }
        }
        assert forall|o: ObjectKey, q: RelationKey|
            object_present(v, o) && containing_relations_of(v, o).contains(q) implies v.relations.contains_key(q) by {
            if o != ObjectKey::Way(r) {
                assert(object_present(v0, o));
            }
        }
        assert forall|q: RelationKey, o: ObjectKey|
            v.relations.contains_key(q) && member_objects(v.relations[q].members).contains(o) implies object_present(
            v,
            o,
        ) by {
            assert(object_present(v0, o));
        }
        assert forall|a: AreaKey, x: WayKey| v.areas.contains_key(a) && ring_ways(v.areas[a].rings).contains(x) implies v.ways.contains_key(x) by {
            assert(v0.ways.contains_key(x));
        }
    }
    assert(node_way_counts_agree(v)) by {
        assert forall|m: NodeKey, x: WayKey| v.nodes.contains_key(m) && v.ways.contains_key(x) implies #[trigger] v.nodes[m].containing_ways.to_multiset().count(x)
            == v.ways[x].nodes.to_multiset().count(m) by {
            if x != r {
                assert(v0.nodes[m].containing_ways.to_multiset().count(x) == v0.ways[x].nodes.to_multiset().count(m));
            }
        }
    }
    assert(way_area_counts_agree(v)) by {
        assert forall|x: WayKey, a: AreaKey| v.ways.contains_key(x) && v.areas.contains_key(a) implies #[trigger] v.ways[x].formed_areas.to_multiset().count(a)
            == ring_ways(v.areas[a].rings).to_multiset().count(x) by {
            if x != r {
                assert(v0.ways[x].formed_areas.to_multiset().count(a) == ring_ways(v0.areas[a].rings).to_multiset().count(x));
            }
        }
    }
    assert(relation_counts_agree(v)) by {
        assert forall|o: ObjectKey, q: RelationKey|
            object_present(v, o) && v.relations.contains_key(q) implies #[trigger] containing_relations_of(v, o).to_multiset().count(q)
            == member_objects(v.relations[q].members).to_multiset().count(o) by {
            if o != ObjectKey::Way(r) {
                assert(object_present(v0, o));
                assert(containing_relations_of(v0, o).to_multiset().count(q) == member_objects(v0.relations[q].members).to_multiset().count(o));
            }
        }
    }
}

proof fn lemma_delete_way_done(v0: StorageView, k: WayKey, v: StorageView)
    requires
        consistent(v0),
        v0.ways.contains_key(k),
        v0.ways[k].formed_areas.len() == 0,
        v0.ways[k].containing_relations.len() == 0,
        v.ways == v0.ways.remove(k),
        v.areas == v0.areas,
        v.relations == v0.relations,
        nodes_changed_by(v0, v, k, v0.ways[k].nodes, false),
    ensures
        consistent(v),
{
    let wv = v0.ways[k];
    assert forall|m: NodeKey| #[trigger] v0.nodes.contains_key(m) implies v.nodes[m].containing_ways.to_multiset().count(k) == 0 by {
        assert(v0.nodes[m].containing_ways.to_multiset().count(k) == v0.ways[k].nodes.to_multiset().count(m));
    }
    assert forall|a: AreaKey| #[trigger] v0.areas.contains_key(a) implies ring_ways(v0.areas[a].rings).to_multiset().count(k) == 0 by {
        assert(v0.ways[k].formed_areas.to_multiset().count(a) == ring_ways(v0.areas[a].rings).to_multiset().count(k));
    }
    assert forall|q: RelationKey| #[trigger] v0.relations.contains_key(q) implies member_objects(
        v0.relations[q].members,
    ).to_multiset().count(ObjectKey::Way(k)) == 0 by {
        assert(containing_relations_of(v0, ObjectKey::Way(k)).to_multiset().count(q) == member_objects(
            v0.relations[q].members,
        ).to_multiset().count(ObjectKey::Way(k)));
    }
    assert forall|o: ObjectKey| #[trigger] object_present(v, o) implies object_present(v0, o)
        && containing_relations_of(v, o) == containing_relations_of(v0, o) && o != ObjectKey::Way(k) by {}
    assert(references_present(v)) by {
        assert forall|m: NodeKey, x: WayKey|
            v.nodes.contains_key(m) && v.nodes[m].containing_ways.contains(x) implies v.ways.contains_key(x) by {
            assert(v.nodes[m].containing_ways.to_multiset().count(x) > 0);
            assert(x != k);
            assert(v0.nodes[m].containing_ways.to_multiset().count(x) > 0);
            assert(v0.nodes[m].containing_ways.contains(x));
        }
        assert forall|a: AreaKey, x: WayKey| v.areas.contains_key(a) && ring_ways(v.areas[a].rings).contains(x) implies v.ways.contains_key(x) by {
            assert(v0.ways.contains_key(x));
            if x == k {
                assert(ring_ways(v0.areas[a].rings).to_multiset().count(k) > 0);
            }
        }
        assert forall|q: RelationKey, o: ObjectKey|
            v.relations.contains_key(q) && member_objects(v.relations[q].members).contains(o) implies object_present(
            v,
            o,
        ) by {
            assert(object_present(v0, o));
            if o == ObjectKey::Way(k) {
                assert(member_objects(v0.relations[q].members).to_multiset().count(o) > 0);
            }
        }
    }
    assert(node_way_counts_agree(v)) by {
        assert forall|m: NodeKey, x: WayKey| v.nodes.contains_key(m) && v.ways.contains_key(x) implies #[trigger] v.nodes[m].containing_ways.to_multiset().count(x)
            == v.ways[x].nodes.to_multiset().count(m) by {
            assert(v0.nodes[m].containing_ways.to_multiset().count(x) == v0.ways[x].nodes.to_multiset().count(m));
        }
    }
    assert(way_area_counts_agree(v)) by {
        assert forall|x: WayKey, a: AreaKey| v.ways.contains_key(x) && v.areas.contains_key(a) implies #[trigger] v.ways[x].formed_areas.to_multiset().count(a)
            == ring_ways(v.areas[a].rings).to_multiset().count(x) by {
            assert(v0.ways[x].formed_areas.to_multiset().count(a) == ring_ways(v0.areas[a].rings).to_multiset().count(x));
        }
    }
    assert(relation_counts_agree(v)) by {
        assert forall|o: ObjectKey, q: RelationKey|
            object_present(v, o) && v.relations.contains_key(q) implies #[trigger] containing_relations_of(v, o).to_multiset().count(q)
            == member_objects(v.relations[q].members).to_multiset().count(o) by {
            assert(object_present(v0, o));
            assert(containing_relations_of(v0, o).to_multiset().count(q) == member_objects(v0.relations[q].members).to_multiset().count(o));
        }
    }
}

/// A copy of the keys.
fn copy_node_keys(keys: &[NodeKey]) -> (r: Vec<NodeKey>)
    ensures
        r@ == keys@,
{
    let mut r: Vec<NodeKey> = Vec::new();
    let mut i: usize = 0;
    while i < keys.len()
        invariant
            i <= keys@.len(),
            r@ == keys@.take(i as int),
        decreases keys@.len() - i,
    {
        r.push(keys[i]);
        i = i + 1;
        proof {
            assert(r@ =~= keys@.take(i as int));
        }
    }
    proof {
        assert(r@ =~= keys@);
    }
    r
}

impl Storage {
    pub fn insert_way(&mut self, way: Way) -> (r: WayKey)
        requires
            old(self).wf(),
            old(self).object_count() + 1 < u32::MAX,
            way@.formed_areas.len() == 0,
            way@.containing_relations.len() == 0,
            forall|i: int| 0 <= i < way@.nodes.len() ==> old(self)@.nodes.contains_key(#[trigger] way@.nodes[i]),
        ensures
            final(self).wf(),
            final(self).object_count() == old(self).object_count() + 1,
            !old(self)@.ways.contains_key(r),
            final(self)@.ways == old(self)@.ways.insert(r, way@),
            final(self)@.areas == old(self)@.areas,
            final(self)@.relations == old(self)@.relations,
            nodes_changed_by(old(self)@, final(self)@, r, way@.nodes, true),
            way_appended_to_nodes(old(self)@, final(self)@, r, way@.nodes),
    {
        let ghost s0 = self.slots();
        let ghost v0 = self@;
        let ghost wv = way@;
        let nodes = copy_node_keys(way.nodes());
        let k = slots_insert(&mut self.objects, StoredObject::Way(way));
        let r = WayKey(k);
        proof {
            lemma_view_put(s0, k, StoredObject::Way(way));
            assert(self.slots().dom() =~= s0.dom().insert(k));
        }
        let mut i: usize = 0;
        while i < nodes.len()
            invariant
                i <= nodes@.len(),
                nodes@ == wv.nodes,
                !v0.ways.contains_key(r),
                forall|j: int| 0 <= j < wv.nodes.len() ==> v0.nodes.contains_key(#[trigger] wv.nodes[j]),
                self.slots_ok(),
                self.object_count() == s0.len() + 1,
                self@.ways == v0.ways.insert(r, wv),
                self@.areas == v0.areas,
                self@.relations == v0.relations,
                nodes_changed_by(v0, self@, r, wv.nodes.take(i as int), true),
                way_appended_to_nodes(v0, self@, r, wv.nodes.take(i as int)),
            decreases nodes@.len() - i,
        {
            let m = nodes[i];
            let ghost before = self@;
            proof {
                assert(v0.nodes.contains_key(wv.nodes[i as int]));
            }
            self.node_add_containing_way(m, r);
            proof {
                assert(wv.nodes.take(i + 1) =~= wv.nodes.take(i as int).push(m));
                assert(self@.nodes.dom() =~= v0.nodes.dom());
                assert forall|m2: NodeKey| #[trigger] v0.nodes.contains_key(m2) implies self@.nodes[m2].containing_ways
                    == v0.nodes[m2].containing_ways + repeated(r, wv.nodes.take(i + 1).to_multiset().count(m2)) by {
                    assert(before.nodes[m2].containing_ways == v0.nodes[m2].containing_ways + repeated(
                        r,
                        wv.nodes.take(i as int).to_multiset().count(m2),
                    ));
                    if m2 == m {
                        lemma_repeated_push(v0.nodes[m].containing_ways, r, wv.nodes.take(i as int).to_multiset().count(m));
                    }
                }
            }
            i = i + 1;
        }
        proof {
            assert(wv.nodes.take(i as int) =~= wv.nodes);
            lemma_insert_way_done(v0, r, wv, self@);
        }
        r
    }
}

/// A prefix lists an element no more often than the whole sequence.
proof fn lemma_prefix_count<T>(s: Seq<T>, i: int, x: T)
    requires
        0 <= i <= s.len(),
    ensures
        s.take(i).to_multiset().count(x) <= s.to_multiset().count(x),
{
    assert(s =~= s.take(i) + s.skip(i));
    vstd::seq_lib::lemma_multiset_commutative(s.take(i), s.skip(i));
}

impl Storage {
    pub fn create_way(&mut self, nodes: Vec<NodeKey>) -> (r: WayKey)
        requires
            old(self).wf(),
            old(self).object_count() + 1 < u32::MAX,
            forall|i: int| 0 <= i < nodes@.len() ==> old(self)@.nodes.contains_key(#[trigger] nodes@[i]),
        ensures
            final(self).wf(),
            final(self).object_count() == old(self).object_count() + 1,
            !old(self)@.ways.contains_key(r),
            final(self)@.ways == old(self)@.ways.insert(
                r,
                WayView {
                    osm_id: None,
                    tags: Map::empty(),
                    nodes: nodes@,
                    formed_areas: Seq::empty(),
                    containing_relations: Seq::empty(),
                },
            ),
            final(self)@.areas == old(self)@.areas,
            final(self)@.relations == old(self)@.relations,
            nodes_changed_by(old(self)@, final(self)@, r, nodes@, true),
            way_appended_to_nodes(old(self)@, final(self)@, r, nodes@),
    {
        let ghost l = nodes@;
        let way = Way::new(None, nodes);
        proof {
            assert(way@ =~= WayView {
                osm_id: None,
                tags: Map::empty(),
                nodes: l,
                formed_areas: Seq::empty(),
                containing_relations: Seq::empty(),
            });
        }
        self.insert_way(way)
    }

    pub fn delete_way(&mut self, key: WayKey) -> (r: Result<Way, ObjectDeleteError>)
        requires
            old(self).wf(),
        ensures
            final(self).wf(),
            !old(self)@.ways.contains_key(key) ==> r == Err::<Way, ObjectDeleteError>(ObjectDeleteError::NotPresent),
            old(self)@.ways.contains_key(key) && old(self)@.ways[key].formed_areas.len() > 0 ==> r == Err::<
                Way,
                ObjectDeleteError,
            >(ObjectDeleteError::ContainedInArea),
            old(self)@.ways.contains_key(key) && old(self)@.ways[key].formed_areas.len() == 0
                && old(self)@.ways[key].containing_relations.len() > 0 ==> r == Err::<Way, ObjectDeleteError>(
                ObjectDeleteError::ContainedInRelation,
            ),
            old(self)@.ways.contains_key(key) && old(self)@.ways[key].formed_areas.len() == 0
                && old(self)@.ways[key].containing_relations.len() == 0 ==> r is Ok,
            r is Err ==> final(self)@ == old(self)@ && final(self).object_count() == old(self).object_count(),
            r is Ok ==> {
                &&& old(self)@.ways.contains_key(key)
                &&& old(self)@.ways[key].formed_areas.len() == 0
                &&& old(self)@.ways[key].containing_relations.len() == 0
                &&& r->Ok_0@ == old(self)@.ways[key]
                &&& final(self)@.ways == old(self)@.ways.remove(key)
                &&& final(self)@.areas == old(self)@.areas
                &&& final(self)@.relations == old(self)@.relations
                &&& nodes_changed_by(old(self)@, final(self)@, key, old(self)@.ways[key].nodes, false)
                &&& way_removed_from_nodes(old(self)@, final(self)@, key, old(self)@.ways[key].nodes)
                &&& final(self).object_count() + 1 == old(self).object_count()
            },
    {
        if !self.contains_way(key) {
            return Err(ObjectDeleteError::NotPresent);
        }
        let way = self.way(key);
        if way.formed_areas().len() != 0 {
            return Err(ObjectDeleteError::ContainedInArea);
        }
        if crate::object::Object::containing_relations(way).len() != 0 {
            return Err(ObjectDeleteError::ContainedInRelation);
        }
        let nodes = copy_node_keys(way.nodes());
        let ghost v0 = self@;
        let ghost s0 = self.slots();
        let ghost wv = v0.ways[key];
        proof {
            assert(nodes_changed_by(v0, self@, key, wv.nodes.take(0), false)) by {
                assert(wv.nodes.take(0) =~= Seq::<NodeKey>::empty());
            }
        }
        let mut i: usize = 0;
        while i < nodes.len()
            invariant
                i <= nodes@.len(),
                nodes@ == wv.nodes,
                consistent(v0),
                v0.ways.contains_key(key),
                wv == v0.ways[key],
                self.slots_ok(),
                self.object_count() == s0.len(),
                self@.ways == v0.ways,
                self@.areas == v0.areas,
                self@.relations == v0.relations,
                nodes_changed_by(v0, self@, key, wv.nodes.take(i as int), false),
                way_removed_from_nodes(v0, self@, key, wv.nodes.take(i as int)),
            decreases nodes@.len() - i,
        {
            let m = nodes[i];
            let ghost before = self@;
            proof {
                assert(wv.nodes.contains(m));
                assert(v0.nodes.contains_key(m));
                assert(wv.nodes.take(i + 1) =~= wv.nodes.take(i as int).push(m));
                lemma_prefix_count(wv.nodes, i + 1, m);
                assert(v0.nodes[m].containing_ways.to_multiset().count(key) == wv.nodes.to_multiset().count(m));
                assert(self@.nodes[m].containing_ways.to_multiset().count(key) > 0);
            }
            self.node_remove_containing_way(m, key);
            proof {
                assert(self@.nodes.dom() =~= v0.nodes.dom());
                assert forall|m2: NodeKey| #[trigger] v0.nodes.contains_key(m2) implies self@.nodes[m2].containing_ways
                    == crate::object::swap_removed_times(
                    v0.nodes[m2].containing_ways,
                    key,
                    wv.nodes.take(i + 1).to_multiset().count(m2),
                ) by {
                    assert(before.nodes[m2].containing_ways == crate::object::swap_removed_times(
                        v0.nodes[m2].containing_ways,
                        key,
                        wv.nodes.take(i as int).to_multiset().count(m2),
                    ));
                }
            }
            i = i + 1;
        }
        proof {
            assert(wv.nodes.take(i as int) =~= wv.nodes);
            use_type_invariant(key);
        }
        let ghost s1 = self.slots();
        let ghost v1 = self@;
        let removed = slots_remove(&mut self.objects, key.0);
        proof {
            lemma_view_take(s1, key.0);
            assert(self.slots().dom() =~= s1.dom().remove(key.0));
            lemma_delete_way_done(v0, key, self@);
        }
        match removed {
            Some(StoredObject::Way(w)) => Ok(w),
            _ => vstd::pervasive::unreached(),
        }
    }
}

/// The ways of `v` are those of `v0`, except that each way `w` lists area
/// `a` as many more times (`adding`) or fewer times as `l` lists `w`.
pub open spec fn ways_changed_by(v0: StorageView, v: StorageView, a: AreaKey, l: Seq<WayKey>, adding: bool) -> bool {
    &&& v.ways.dom() == v0.ways.dom()
    &&& forall|w: WayKey| #[trigger]
        v0.ways.contains_key(w) ==> v.ways[w] == (WayView { formed_areas: v.ways[w].formed_areas, ..v0.ways[w] })
    &&& forall|w: WayKey, x: AreaKey|
        #![trigger v.ways[w].formed_areas.to_multiset().count(x)]
        v0.ways.contains_key(w) ==> v.ways[w].formed_areas.to_multiset().count(x) as int == if x != a {
            v0.ways[w].formed_areas.to_multiset().count(x) as int
        } else if adding {
            v0.ways[w].formed_areas.to_multiset().count(x) + l.to_multiset().count(w) as int
        } else {
            v0.ways[w].formed_areas.to_multiset().count(x) - l.to_multiset().count(w)
        }
}

/// Each way `w` of `v0` lists, after the areas it formed in `v0`, area `a`
/// once for each time `l` lists `w`.
pub open spec fn area_appended_to_ways(v0: StorageView, v: StorageView, a: AreaKey, l: Seq<WayKey>) -> bool {
    forall|w: WayKey| #[trigger]
        v0.ways.contains_key(w) ==> v.ways[w].formed_areas == v0.ways[w].formed_areas + repeated(
            a,
            l.to_multiset().count(w),
        )
}

/// Each way `w` of `v0` has area `a` taken out of its formed areas once for
/// each time `l` lists `w`, each time as `swap_removed` takes it out.
pub open spec fn area_removed_from_ways(v0: StorageView, v: StorageView, a: AreaKey, l: Seq<WayKey>) -> bool {
    forall|w: WayKey| #[trigger]
        v0.ways.contains_key(w) ==> v.ways[w].formed_areas == crate::object::swap_removed_times(
            v0.ways[w].formed_areas,
            a,
            l.to_multiset().count(w),
        )
}

proof fn lemma_ring_ways_push(rings: Seq<Ring>, ring: Ring)
    ensures
        ring_ways(rings.push(ring)) == ring_ways(rings) + ring.ways@,
{
    let f = |r: Ring| r.ways@;
    assert(rings.push(ring).map_values(f) =~= rings.map_values(f).push(ring.ways@));
    rings.map_values(f).lemma_flatten_push(ring.ways@);
}

proof fn lemma_ring_ways_remove(rings: Seq<Ring>, i: int)
    requires
        0 <= i < rings.len(),
    ensures
        ring_ways(rings).to_multiset() == ring_ways(rings.remove(i)).to_multiset().add(rings[i].ways@.to_multiset()),
{
    let f = |r: Ring| r.ways@;
    let m = rings.map_values(f);
    let pre = m.take(i);
    let post = m.skip(i + 1);
    assert(m =~= pre + (seq![m[i]] + post));
    assert(rings.remove(i).map_values(f) =~= pre + post);
    vstd::seq_lib::lemma_flatten_concat(pre, seq![m[i]] + post);
    vstd::seq_lib::lemma_flatten_concat(seq![m[i]], post);
    vstd::seq_lib::lemma_flatten_concat(pre, post);
    seq![m[i]].lemma_flatten_one_element();
    vstd::seq_lib::lemma_multiset_commutative(pre.flatten(), m[i] + post.flatten());
    vstd::seq_lib::lemma_multiset_commutative(m[i], post.flatten());
    vstd::seq_lib::lemma_multiset_commutative(pre.flatten(), post.flatten());
    assert(ring_ways(rings).to_multiset() =~= ring_ways(rings.remove(i)).to_multiset().add(rings[i].ways@.to_multiset()));
}

/// The ways of all rings, ring after ring.
fn flat_ring_ways(rings: &[Ring]) -> (r: Vec<WayKey>)
    ensures
        r@ == ring_ways(rings@),
{
    let mut r: Vec<WayKey> = Vec::new();
    let mut i: usize = 0;
    proof {
        assert(rings@.take(0) =~= Seq::<Ring>::empty());
        assert(ring_ways(Seq::<Ring>::empty()) =~= Seq::<WayKey>::empty());
    }
    while i < rings.len()
        invariant
            i <= rings@.len(),
            r@ == ring_ways(rings@.take(i as int)),
        decreases rings@.len() - i,
    {
        let ghost before = r@;
        let ways = &rings[i].ways;
        let mut j: usize = 0;
        while j < ways.len()
            invariant
                j <= ways@.len(),
                ways@ == rings@[i as int].ways@,
                r@ == before + ways@.take(j as int),
            decreases ways@.len() - j,
        {
            r.push(ways[j]);
            j = j + 1;
            proof {
                assert(r@ =~= before + ways@.take(j as int));
            }
        }
        proof {
            assert(ways@.take(j as int) =~= ways@);
            assert(rings@.take(i + 1) =~= rings@.take(i as int).push(rings@[i as int]));
            lemma_ring_ways_push(rings@.take(i as int), rings@[i as int]);
        }
        i = i + 1;
    }
    proof {
        assert(rings@.take(i as int) =~= rings@);
    }
    r
}

proof fn lemma_area_rings_done(
    v0: StorageView,
    a: AreaKey,
    rings1: Seq<Ring>,
    l: Seq<WayKey>,
    adding: bool,
    v: StorageView,
)
    requires
        consistent(v0),
        v0.areas.contains_key(a),
        adding ==> ring_ways(rings1).to_multiset() == ring_ways(v0.areas[a].rings).to_multiset().add(l.to_multiset()),
        adding ==> forall|i: int| 0 <= i < l.len() ==> v0.ways.contains_key(#[trigger] l[i]),
        !adding ==> ring_ways(rings1).to_multiset().add(l.to_multiset()) == ring_ways(v0.areas[a].rings).to_multiset(),
        v.areas == v0.areas.insert(a, AreaView { rings: rings1, ..v0.areas[a] }),
        v.nodes == v0.nodes,
        v.relations == v0.relations,
        ways_changed_by(v0, v, a, l, adding),
    ensures
        consistent(v),
{
    assert forall|o: ObjectKey| #[trigger] object_present(v, o) == object_present(v0, o)
        && (object_present(v0, o) ==> containing_relations_of(v, o) == containing_relations_of(v0, o)) by {}
    assert(references_present(v)) by {
        assert forall|y: WayKey, x: AreaKey|
            v.ways.contains_key(y) && v.ways[y].formed_areas.contains(x) implies v.areas.contains_key(x) by {
            assert(v.ways[y].formed_areas.to_multiset().count(x) > 0);
            if x != a {
                assert(v0.ways[y].formed_areas.to_multiset().count(x) > 0);
                assert(v0.ways[y].formed_areas.contains(x));
            }
        }
        assert forall|b: AreaKey, x: WayKey| v.areas.contains_key(b) && ring_ways(v.areas[b].rings).contains(x) implies v.ways.contains_key(x) by {
            if b == a {
                assert(ring_ways(rings1).to_multiset().count(x) > 0);
                if adding {
                    if ring_ways(v0.areas[a].rings).to_multiset().count(x) > 0 {
                        assert(ring_ways(v0.areas[a].rings).contains(x));
                    } else {
                        assert(l.to_multiset().count(x) > 0);
                        assert(l.contains(x));
                        let i = choose|i: int| 0 <= i < l.len() && l[i] == x;
                        assert(v0.ways.contains_key(l[i]));
                    }
                } else {
                    assert(ring_ways(v0.areas[a].rings).to_multiset().count(x) > 0);
                    assert(ring_ways(v0.areas[a].rings).contains(x));
                }
            }
        }
        assert forall|y: WayKey, n: NodeKey| v.ways.contains_key(y) && v.ways[y].nodes.contains(n) implies v.nodes.contains_key(n) by {
            assert(v0.ways[y].nodes.contains(n));
        }
        assert forall|n: NodeKey, x: WayKey|
            v.nodes.contains_key(n) && v.nodes[n].containing_ways.contains(x) implies v.ways.contains_key(x) by {
            assert(v0.nodes[n].containing_ways.contains(x));
        }
        assert forall|o: ObjectKey, q: RelationKey|
            object_present(v, o) && containing_relations_of(v, o).contains(q) implies v.relations.contains_key(q) by {
            assert(object_present(v0, o));
        }
        assert forall|q: RelationKey, o: ObjectKey|
            v.relations.contains_key(q) && member_objects(v.relations[q].members).contains(o) implies object_present(
            v,
            o,
        ) by {
            assert(object_present(v0, o));
        }
    }
    assert(node_way_counts_agree(v)) by {
        assert forall|n: NodeKey, x: WayKey| v.nodes.contains_key(n) && v.ways.contains_key(x) implies #[trigger] v.nodes[n].containing_ways.to_multiset().count(x)
            == v.ways[x].nodes.to_multiset().count(n) by {
            assert(v0.nodes[n].containing_ways.to_multiset().count(x) == v0.ways[x].nodes.to_multiset().count(n));
        }
    }
    assert(way_area_counts_agree(v)) by {
        assert forall|x: WayKey, b: AreaKey| v.ways.contains_key(x) && v.areas.contains_key(b) implies #[trigger] v.ways[x].formed_areas.to_multiset().count(b)
            == ring_ways(v.areas[b].rings).to_multiset().count(x) by {
            assert(v0.ways[x].formed_areas.to_multiset().count(b) == ring_ways(v0.areas[b].rings).to_multiset().count(x));
        }
    }
    assert(relation_counts_agree(v)) by {
        assert forall|o: ObjectKey, q: RelationKey|
            object_present(v, o) && v.relations.contains_key(q) implies #[trigger] containing_relations_of(v, o).to_multiset().count(q)
            == member_objects(v.relations[q].members).to_multiset().count(o) by {
            assert(object_present(v0, o));
            assert(containing_relations_of(v0, o).to_multiset().count(q) == member_objects(v0.relations[q].members).to_multiset().count(o));
        }
    }
}

proof fn lemma_insert_area_done(v0: StorageView, r: AreaKey, av: AreaView, v: StorageView)
    requires
        consistent(v0),
        !v0.areas.contains_key(r),
        av.containing_relations.len() == 0,
        forall|i: int| 0 <= i < ring_ways(av.rings).len() ==> v0.ways.contains_key(#[trigger] ring_ways(av.rings)[i]),
        v.areas == v0.areas.insert(r, av),
        v.nodes == v0.nodes,
        v.relations == v0.relations,
        ways_changed_by(v0, v, r, ring_ways(av.rings), true),
    ensures
        consistent(v),
{
    let l = ring_ways(av.rings);
    assert forall|w: WayKey| #[trigger] v0.ways.contains_key(w) implies v0.ways[w].formed_areas.to_multiset().count(r) == 0 by {
        if v0.ways[w].formed_areas.to_multiset().count(r) > 0 {
            assert(v0.ways[w].formed_areas.contains(r));
        }
    }
    assert forall|q: RelationKey| #[trigger] v0.relations.contains_key(q) implies member_objects(
        v0.relations[q].members,
    ).to_multiset().count(ObjectKey::Area(r)) == 0 by {
        if member_objects(v0.relations[q].members).to_multiset().count(ObjectKey::Area(r)) > 0 {
            assert(member_objects(v0.relations[q].members).contains(ObjectKey::Area(r)));
        }
    }
    assert forall|o: ObjectKey| o != ObjectKey::Area(r) implies #[trigger] object_present(v, o) == object_present(v0, o)
        && (object_present(v0, o) ==> containing_relations_of(v, o) == containing_relations_of(v0, o)) by {}
    assert(references_present(v)) by {
        assert forall|y: WayKey, x: AreaKey|
            v.ways.contains_key(y) && v.ways[y].formed_areas.contains(x) implies v.areas.contains_key(x) by {
            assert(v.ways[y].formed_areas.to_multiset().count(x) > 0);
            if x != r {
                assert(v0.ways[y].formed_areas.to_multiset().count(x) > 0);
                assert(v0.ways[y].formed_areas.contains(x));
            }
        }
        assert forall|b: AreaKey, x: WayKey| v.areas.contains_key(b) && ring_ways(v.areas[b].rings).contains(x) implies v.ways.contains_key(x) by {
            if b == r {
                let i = choose|i: int| 0 <= i < l.len() && l[i] == x;
                assert(v0.ways.contains_key(l[i]));
            } else {
                assert(v0.ways.contains_key(x));
            }
        }
        assert forall|y: WayKey, n: NodeKey| v.ways.contains_key(y) && v.ways[y].nodes.contains(n) implies v.nodes.contains_key(n) by {
            assert(v0.ways[y].nodes.contains(n));
        }
        assert forall|n: NodeKey, x: WayKey|
            v.nodes.contains_key(n) && v.nodes[n].containing_ways.contains(x) implies v.ways.contains_key(x) by {
            assert(v0.nodes[n].containing_ways.contains(x));
        }
        assert forall|o: ObjectKey, q: RelationKey|
            object_present(v, o) && containing_relations_of(v, o).contains(q) implies v.relations.contains_key(q) by {
            if o != ObjectKey::Area(r) {
                assert(object_present(v0, o));
            }
        }
        assert forall|q: RelationKey, o: ObjectKey|
            v.relations.contains_key(q) && member_objects(v.relations[q].members).contains(o) implies object_present(
            v,
            o,
        ) by {
            assert(object_present(v0, o));
        }
    }
    assert(node_way_counts_agree(v)) by {
        assert forall|n: NodeKey, x: WayKey| v.nodes.contains_key(n) && v.ways.contains_key(x) implies #[trigger] v.nodes[n].containing_ways.to_multiset().count(x)
            == v.ways[x].nodes.to_multiset().count(n) by {
            assert(v0.nodes[n].containing_ways.to_multiset().count(x) == v0.ways[x].nodes.to_multiset().count(n));
        }
    }
    assert(way_area_counts_agree(v)) by {
        assert forall|x: WayKey, b: AreaKey| v.ways.contains_key(x) && v.areas.contains_key(b) implies #[trigger] v.ways[x].formed_areas.to_multiset().count(b)
            == ring_ways(v.areas[b].rings).to_multiset().count(x) by {
            if b != r {
                assert(v0.ways[x].formed_areas.to_multiset().count(b) == ring_ways(v0.areas[b].rings).to_multiset().count(x));
            }
        }
    }
    assert(relation_counts_agree(v)) by {
        assert forall|o: ObjectKey, q: RelationKey|
            object_present(v, o) && v.relations.contains_key(q) implies #[trigger] containing_relations_of(v, o).to_multiset().count(q)
            == member_objects(v.relations[q].members).to_multiset().count(o) by {
            if o != ObjectKey::Area(r) {
                assert(object_present(v0, o));
                assert(containing_relations_of(v0, o).to_multiset().count(q) == member_objects(v0.relations[q].members).to_multiset().count(o));
            }
        }
    }
}

proof fn lemma_delete_area_done(v0: StorageView, k: AreaKey, v: StorageView)
    requires
        consistent(v0),
        v0.areas.contains_key(k),
        v0.areas[k].containing_relations.len() == 0,
        v.areas == v0.areas.remove(k),
        v.nodes == v0.nodes,
        v.relations == v0.relations,
        ways_changed_by(v0, v, k, ring_ways(v0.areas[k].rings), false),
    ensures
        consistent(v),
{
    assert forall|w: WayKey| #[trigger] v0.ways.contains_key(w) implies v.ways[w].formed_areas.to_multiset().count(k) == 0 by {
        assert(v0.ways[w].formed_areas.to_multiset().count(k) == ring_ways(v0.areas[k].rings).to_multiset().count(w));
    }
    assert forall|q: RelationKey| #[trigger] v0.relations.contains_key(q) implies member_objects(
        v0.relations[q].members,
    ).to_multiset().count(ObjectKey::Area(k)) == 0 by {
        assert(containing_relations_of(v0, ObjectKey::Area(k)).to_multiset().count(q) == member_objects(
            v0.relations[q].members,
        ).to_multiset().count(ObjectKey::Area(k)));
    }
    assert forall|o: ObjectKey| #[trigger] object_present(v, o) implies object_present(v0, o)
        && containing_relations_of(v, o) == containing_relations_of(v0, o) && o != ObjectKey::Area(k) by {}
    assert(references_present(v)) by {
        assert forall|y: WayKey, x: AreaKey|
            v.ways.contains_key(y) && v.ways[y].formed_areas.contains(x) implies v.areas.contains_key(x) by {
            assert(v.ways[y].formed_areas.to_multiset().count(x) > 0);
            assert(x != k);
            assert(v0.ways[y].formed_areas.to_multiset().count(x) > 0);
            assert(v0.ways[y].formed_areas.contains(x));
        }
        assert forall|y: WayKey, n: NodeKey| v.ways.contains_key(y) && v.ways[y].nodes.contains(n) implies v.nodes.contains_key(n) by {
            assert(v0.ways[y].nodes.contains(n));
        }
        assert forall|n: NodeKey, x: WayKey|
            v.nodes.contains_key(n) && v.nodes[n].containing_ways.contains(x) implies v.ways.contains_key(x) by {
            assert(v0.nodes[n].containing_ways.contains(x));
        }
        assert forall|b: AreaKey, x: WayKey| v.areas.contains_key(b) && ring_ways(v.areas[b].rings).contains(x) implies v.ways.contains_key(x) by {
            assert(v0.ways.contains_key(x));
        }
        assert forall|q: RelationKey, o: ObjectKey|
            v.relations.contains_key(q) && member_objects(v.relations[q].members).contains(o) implies object_present(
            v,
            o,
        ) by {
            assert(object_present(v0, o));
            if o == ObjectKey::Area(k) {
                assert(member_objects(v0.relations[q].members).to_multiset().count(o) > 0);
            }
        }
        assert forall|o: ObjectKey, q: RelationKey|
            object_present(v, o) && containing_relations_of(v, o).contains(q) implies v.relations.contains_key(q) by {
            assert(object_present(v0, o));
        }
    }
    assert(node_way_counts_agree(v)) by {
        assert forall|n: NodeKey, x: WayKey| v.nodes.contains_key(n) && v.ways.contains_key(x) implies #[trigger] v.nodes[n].containing_ways.to_multiset().count(x)
            == v.ways[x].nodes.to_multiset().count(n) by {
            assert(v0.nodes[n].containing_ways.to_multiset().count(x) == v0.ways[x].nodes.to_multiset().count(n));
        }
    }
    assert(way_area_counts_agree(v)) by {
        assert forall|x: WayKey, b: AreaKey| v.ways.contains_key(x) && v.areas.contains_key(b) implies #[trigger] v.ways[x].formed_areas.to_multiset().count(b)
            == ring_ways(v.areas[b].rings).to_multiset().count(x) by {
            assert(v0.ways[x].formed_areas.to_multiset().count(b) == ring_ways(v0.areas[b].rings).to_multiset().count(x));
        }
    }
    assert(relation_counts_agree(v)) by {
        assert forall|o: ObjectKey, q: RelationKey|
            object_present(v, o) && v.relations.contains_key(q) implies #[trigger] containing_relations_of(v, o).to_multiset().count(q)
            == member_objects(v.relations[q].members).to_multiset().count(o) by {
            assert(object_present(v0, o));
            assert(containing_relations_of(v0, o).to_multiset().count(q) == member_objects(v0.relations[q].members).to_multiset().count(o));
        }
    }
}

/// A copy of the keys.
fn copy_way_keys(keys: &[WayKey]) -> (r: Vec<WayKey>)
    ensures
        r@ == keys@,
{
    let mut r: Vec<WayKey> = Vec::new();
    let mut i: usize = 0;
    while i < keys.len()
        invariant
            i <= keys@.len(),
            r@ == keys@.take(i as int),
        decreases keys@.len() - i,
    {
        r.push(keys[i]);
        i = i + 1;
        proof {
            assert(r@ =~= keys@.take(i as int));
        }
    }
    proof {
        assert(r@ =~= keys@);
    }
    r
}

impl Storage {
    /// Adds area `a` to the formed areas of each way of `ways`, once per occurrence.
    fn link_ways_to_area(&mut self, ways: &Vec<WayKey>, a: AreaKey)
        requires
            old(self).slots_ok(),
            forall|i: int| 0 <= i < ways@.len() ==> old(self)@.ways.contains_key(#[trigger] ways@[i]),
        ensures
            final(self).slots_ok(),
            final(self).object_count() == old(self).object_count(),
            final(self)@.nodes == old(self)@.nodes,
            final(self)@.areas == old(self)@.areas,
            final(self)@.relations == old(self)@.relations,
            ways_changed_by(old(self)@, final(self)@, a, ways@, true),
            area_appended_to_ways(old(self)@, final(self)@, a, ways@),
    {
        let ghost v0 = self@;
        let ghost c0 = self.object_count();
        proof {
            assert(ways@.take(0) =~= Seq::<WayKey>::empty());
        }
        let mut i: usize = 0;
        while i < ways.len()
            invariant
                i <= ways@.len(),
                forall|j: int| 0 <= j < ways@.len() ==> v0.ways.contains_key(#[trigger] ways@[j]),
                self.slots_ok(),
                self.object_count() == c0,
                self@.nodes == v0.nodes,
                self@.areas == v0.areas,
                self@.relations == v0.relations,
                ways_changed_by(v0, self@, a, ways@.take(i as int), true),
                area_appended_to_ways(v0, self@, a, ways@.take(i as int)),
            decreases ways@.len() - i,
        {
            let w = ways[i];
            let ghost before = self@;
            proof {
                assert(v0.ways.contains_key(ways@[i as int]));
                assert(ways@.take(i + 1) =~= ways@.take(i as int).push(w));
            }
            self.way_add_formed_area(w, a);
            proof {
                assert(self@.ways.dom() =~= v0.ways.dom());
                assert forall|w2: WayKey| #[trigger] v0.ways.contains_key(w2) implies self@.ways[w2].formed_areas
                    == v0.ways[w2].formed_areas + repeated(a, ways@.take(i + 1).to_multiset().count(w2)) by {
                    assert(before.ways[w2].formed_areas == v0.ways[w2].formed_areas + repeated(
                        a,
                        ways@.take(i as int).to_multiset().count(w2),
                    ));
                    if w2 == w {
                        lemma_repeated_push(v0.ways[w].formed_areas, a, ways@.take(i as int).to_multiset().count(w));
                    }
                }
            }
            i = i + 1;
        }
        proof {
            assert(ways@.take(i as int) =~= ways@);
        }
    }

    /// Takes area `a` out of the formed areas of each way of `ways`, once per occurrence.
    fn unlink_ways_from_area(&mut self, ways: &Vec<WayKey>, a: AreaKey)
        requires
            old(self).slots_ok(),
            forall|i: int| 0 <= i < ways@.len() ==> old(self)@.ways.contains_key(#[trigger] ways@[i]),
            forall|w: WayKey|
                #![trigger ways@.to_multiset().count(w)]
                old(self)@.ways.contains_key(w) ==> ways@.to_multiset().count(w) <= old(
                    self,
                )@.ways[w].formed_areas.to_multiset().count(a),
        ensures
            final(self).slots_ok(),
            final(self).object_count() == old(self).object_count(),
            final(self)@.nodes == old(self)@.nodes,
            final(self)@.areas == old(self)@.areas,
            final(self)@.relations == old(self)@.relations,
            ways_changed_by(old(self)@, final(self)@, a, ways@, false),
            area_removed_from_ways(old(self)@, final(self)@, a, ways@),
    {
        let ghost v0 = self@;
        let ghost c0 = self.object_count();
        proof {
            assert(ways@.take(0) =~= Seq::<WayKey>::empty());
        }
        let mut i: usize = 0;
        while i < ways.len()
            invariant
                i <= ways@.len(),
                forall|j: int| 0 <= j < ways@.len() ==> v0.ways.contains_key(#[trigger] ways@[j]),
                forall|w: WayKey|
                    #![trigger ways@.to_multiset().count(w)]
                    v0.ways.contains_key(w) ==> ways@.to_multiset().count(w) <= v0.ways[w].formed_areas.to_multiset().count(a),
                self.slots_ok(),
                self.object_count() == c0,
                self@.nodes == v0.nodes,
                self@.areas == v0.areas,
                self@.relations == v0.relations,
                ways_changed_by(v0, self@, a, ways@.take(i as int), false),
                area_removed_from_ways(v0, self@, a, ways@.take(i as int)),
            decreases ways@.len() - i,
        {
            let w = ways[i];
            let ghost before = self@;
            proof {
                assert(v0.ways.contains_key(ways@[i as int]));
                assert(ways@.take(i + 1) =~= ways@.take(i as int).push(w));
                lemma_prefix_count(ways@, i + 1, w);
                assert(ways@.to_multiset().count(w) <= v0.ways[w].formed_areas.to_multiset().count(a));
                assert(self@.ways[w].formed_areas.to_multiset().count(a) > 0);
            }
            self.way_remove_formed_area(w, a);
            proof {
                assert(self@.ways.dom() =~= v0.ways.dom());
                assert forall|w2: WayKey| #[trigger] v0.ways.contains_key(w2) implies self@.ways[w2].formed_areas
                    == crate::object::swap_removed_times(
                    v0.ways[w2].formed_areas,
                    a,
                    ways@.take(i + 1).to_multiset().count(w2),
                ) by {
                    assert(before.ways[w2].formed_areas == crate::object::swap_removed_times(
                        v0.ways[w2].formed_areas,
                        a,
                        ways@.take(i as int).to_multiset().count(w2),
                    ));
                }
            }
            i = i + 1;
        }
        proof {
            assert(ways@.take(i as int) =~= ways@);
        }
    }

    pub fn add_ring_to_area(&mut self, area_key: AreaKey, ring: Ring)
        requires
            old(self).wf(),
            old(self)@.areas.contains_key(area_key),
            forall|i: int| 0 <= i < ring.ways@.len() ==> old(self)@.ways.contains_key(#[trigger] ring.ways@[i]),
        ensures
            final(self).wf(),
            final(self).object_count() == old(self).object_count(),
            final(self)@.areas == old(self)@.areas.insert(
                area_key,
                AreaView { rings: old(self)@.areas[area_key].rings.push(ring), ..old(self)@.areas[area_key] },
            ),
            final(self)@.nodes == old(self)@.nodes,
            final(self)@.relations == old(self)@.relations,
            ways_changed_by(old(self)@, final(self)@, area_key, ring.ways@, true),
            area_appended_to_ways(old(self)@, final(self)@, area_key, ring.ways@),
    {
        let ghost v0 = self@;
        let ghost ring0 = ring;
        let ways = copy_way_keys(ring.ways.as_slice());
        self.link_ways_to_area(&ways, area_key);
        self.area_push_ring(area_key, ring);
        proof {
            lemma_ring_ways_push(v0.areas[area_key].rings, ring0);
            vstd::seq_lib::lemma_multiset_commutative(ring_ways(v0.areas[area_key].rings), ring0.ways@);
            lemma_area_rings_done(v0, area_key, v0.areas[area_key].rings.push(ring0), ring0.ways@, true, self@);
        }
    }

    pub fn remove_ring_from_area(&mut self, area_key: AreaKey, ring_index: usize) -> (r: Ring)
        requires
            old(self).wf(),
            old(self)@.areas.contains_key(area_key),
            ring_index < old(self)@.areas[area_key].rings.len(),
        ensures
            final(self).wf(),
            final(self).object_count() == old(self).object_count(),
            r == old(self)@.areas[area_key].rings[ring_index as int],
            final(self)@.areas == old(self)@.areas.insert(
                area_key,
                AreaView {
                    rings: old(self)@.areas[area_key].rings.remove(ring_index as int),
                    ..old(self)@.areas[area_key]
                },
            ),
            final(self)@.nodes == old(self)@.nodes,
            final(self)@.relations == old(self)@.relations,
            ways_changed_by(old(self)@, final(self)@, area_key, r.ways@, false),
            area_removed_from_ways(old(self)@, final(self)@, area_key, r.ways@),
    {
        let ghost v0 = self@;
        let ghost rings0 = v0.areas[area_key].rings;
        let ring = self.area_remove_ring(area_key, ring_index);
        let ways = copy_way_keys(ring.ways.as_slice());
        proof {
            lemma_ring_ways_remove(rings0, ring_index as int);
            assert forall|i: int| 0 <= i < ways@.len() implies self@.ways.contains_key(#[trigger] ways@[i]) by {
                let w = ways@[i];
                assert(ways@.to_multiset().count(w) > 0);
                assert(ring_ways(rings0).to_multiset().count(w) > 0);
                assert(ring_ways(rings0).contains(w));
            }
            assert forall|w: WayKey| #[trigger] self@.ways.contains_key(w) implies ways@.to_multiset().count(w)
                <= self@.ways[w].formed_areas.to_multiset().count(area_key) by {
                assert(v0.ways[w].formed_areas.to_multiset().count(area_key) == ring_ways(rings0).to_multiset().count(w));
            }
        }
        let ghost v1 = self@;
        self.unlink_ways_from_area(&ways, area_key);
        proof {
            assert(ways_changed_by(v0, self@, area_key, ways@, false)) by {
                assert(self@.ways.dom() =~= v0.ways.dom());
            }
            assert(ring_ways(rings0.remove(ring_index as int)).to_multiset().add(ways@.to_multiset()) =~= ring_ways(
                rings0,
            ).to_multiset());
            lemma_area_rings_done(v0, area_key, rings0.remove(ring_index as int), ways@, false, self@);
        }
        ring
    }
}

impl Storage {
    pub fn insert_area(&mut self, area: Area) -> (r: AreaKey)
        requires
            old(self).wf(),
            old(self).object_count() + 1 < u32::MAX,
            area@.containing_relations.len() == 0,
            forall|i: int|
                0 <= i < ring_ways(area@.rings).len() ==> old(self)@.ways.contains_key(#[trigger] ring_ways(area@.rings)[i]),
        ensures
            final(self).wf(),
            final(self).object_count() == old(self).object_count() + 1,
            !old(self)@.areas.contains_key(r),
            final(self)@.areas == old(self)@.areas.insert(r, area@),
            final(self)@.nodes == old(self)@.nodes,
            final(self)@.relations == old(self)@.relations,
            ways_changed_by(old(self)@, final(self)@, r, ring_ways(area@.rings), true),
            area_appended_to_ways(old(self)@, final(self)@, r, ring_ways(area@.rings)),
    {
        let ghost s0 = self.slots();
        let ghost v0 = self@;
        let ghost av = area@;
        let ways = flat_ring_ways(area.rings());
        let k = slots_insert(&mut self.objects, StoredObject::Area(area));
        let r = AreaKey(k);
        proof {
            lemma_view_put(s0, k, StoredObject::Area(area));
            assert(self.slots().dom() =~= s0.dom().insert(k));
        }
        let ghost v1 = self@;
        self.link_ways_to_area(&ways, r);
        proof {
            assert(ways_changed_by(v0, self@, r, ways@, true)) by {
                assert(self@.ways.dom() =~= v0.ways.dom());
            }
            lemma_insert_area_done(v0, r, av, self@);
        }
        r
    }

    pub fn create_area(&mut self, rings: Vec<Ring>) -> (r: AreaKey)
        requires
            old(self).wf(),
            old(self).object_count() + 1 < u32::MAX,
            forall|i: int| 0 <= i < ring_ways(rings@).len() ==> old(self)@.ways.contains_key(#[trigger] ring_ways(rings@)[i]),
        ensures
            final(self).wf(),
            final(self).object_count() == old(self).object_count() + 1,
            !old(self)@.areas.contains_key(r),
            final(self)@.areas == old(self)@.areas.insert(
                r,
                AreaView {
                    osm_id: None,
                    source: AreaSource::Unspecified,
                    tags: Map::empty(),
                    rings: rings@,
                    containing_relations: Seq::empty(),
                },
            ),
            final(self)@.nodes == old(self)@.nodes,
            final(self)@.relations == old(self)@.relations,
            ways_changed_by(old(self)@, final(self)@, r, ring_ways(rings@), true),
            area_appended_to_ways(old(self)@, final(self)@, r, ring_ways(rings@)),
    {
        let ghost l = rings@;
        let area = Area::new(None, AreaSource::Unspecified, rings);
        proof {
            assert(area@ =~= AreaView {
                osm_id: None,
                source: AreaSource::Unspecified,
                tags: Map::empty(),
                rings: l,
                containing_relations: Seq::empty(),
            });
        }
        self.insert_area(area)
    }

    pub fn delete_area(&mut self, key: AreaKey) -> (r: Result<Area, ObjectDeleteError>)
        requires
            old(self).wf(),
        ensures
            final(self).wf(),
            !old(self)@.areas.contains_key(key) ==> r == Err::<Area, ObjectDeleteError>(ObjectDeleteError::NotPresent),
            old(self)@.areas.contains_key(key) && old(self)@.areas[key].containing_relations.len() > 0 ==> r == Err::<
                Area,
                ObjectDeleteError,
            >(ObjectDeleteError::ContainedInRelation),
            old(self)@.areas.contains_key(key) && old(self)@.areas[key].containing_relations.len() == 0 ==> r is Ok,
            r is Err ==> final(self)@ == old(self)@ && final(self).object_count() == old(self).object_count(),
            r is Ok ==> {
                &&& old(self)@.areas.contains_key(key)
                &&& old(self)@.areas[key].containing_relations.len() == 0
                &&& r->Ok_0@ == old(self)@.areas[key]
                &&& final(self)@.areas == old(self)@.areas.remove(key)
                &&& final(self)@.nodes == old(self)@.nodes
                &&& final(self)@.relations == old(self)@.relations
                &&& ways_changed_by(old(self)@, final(self)@, key, ring_ways(old(self)@.areas[key].rings), false)
                &&& area_removed_from_ways(old(self)@, final(self)@, key, ring_ways(old(self)@.areas[key].rings))
                &&& final(self).object_count() + 1 == old(self).object_count()
            },
    {
        if !self.contains_area(key) {
            return Err(ObjectDeleteError::NotPresent);
        }
        let area = self.area(key);
        if crate::object::Object::containing_relations(area).len() != 0 {
            return Err(ObjectDeleteError::ContainedInRelation);
        }
        let ways = flat_ring_ways(area.rings());
        let ghost v0 = self@;
        proof {
            assert forall|i: int| 0 <= i < ways@.len() implies self@.ways.contains_key(#[trigger] ways@[i]) by {
                assert(ring_ways(v0.areas[key].rings).contains(ways@[i]));
            }
            assert forall|w: WayKey| #[trigger] self@.ways.contains_key(w) implies ways@.to_multiset().count(w)
                <= self@.ways[w].formed_areas.to_multiset().count(key) by {
                assert(v0.ways[w].formed_areas.to_multiset().count(key) == ring_ways(v0.areas[key].rings).to_multiset().count(w));
            }
        }
        self.unlink_ways_from_area(&ways, key);
        proof {
            use_type_invariant(key);
        }
        let ghost s1 = self.slots();
        let removed = slots_remove(&mut self.objects, key.0);
        proof {
            lemma_view_take(s1, key.0);
            assert(self.slots().dom() =~= s1.dom().remove(key.0));
            assert(ways_changed_by(v0, self@, key, ring_ways(v0.areas[key].rings), false)) by {
                assert(self@.ways.dom() =~= v0.ways.dom());
            }
            lemma_delete_area_done(v0, key, self@);
        }
        match removed {
            Some(StoredObject::Area(a)) => Ok(a),
            _ => vstd::pervasive::unreached(),
        }
    }
}


/// The objects of `v` are those of `v0`, except that each object `o` lists
/// relation `r` as many more times (`adding`) or fewer times as `l` lists `o`.
pub open spec fn relations_changed_by(
    v0: StorageView,
    v: StorageView,
    r: RelationKey,
    l: Seq<ObjectKey>,
    adding: bool,
) -> bool {
    &&& v.nodes.dom() == v0.nodes.dom()
    &&& v.ways.dom() == v0.ways.dom()
    &&& v.areas.dom() == v0.areas.dom()
    &&& v.relations.dom() == v0.relations.dom()
    &&& forall|k: NodeKey| #[trigger]
        v0.nodes.contains_key(k) ==> v.nodes[k] == (NodeView { containing_relations: v.nodes[k].containing_relations, ..v0.nodes[k] })
    &&& forall|k: WayKey| #[trigger]
        v0.ways.contains_key(k) ==> v.ways[k] == (WayView { containing_relations: v.ways[k].containing_relations, ..v0.ways[k] })
    &&& forall|k: AreaKey| #[trigger]
        v0.areas.contains_key(k) ==> v.areas[k] == (AreaView { containing_relations: v.areas[k].containing_relations, ..v0.areas[k] })
    &&& forall|k: RelationKey| #[trigger]
        v0.relations.contains_key(k) ==> v.relations[k] == (RelationView {
            containing_relations: v.relations[k].containing_relations,
            ..v0.relations[k]
        })
    &&& forall|o: ObjectKey, x: RelationKey|
        #![trigger containing_relations_of(v, o).to_multiset().count(x)]
        object_present(v0, o) ==> containing_relations_of(v, o).to_multiset().count(x) as int == if x != r {
            containing_relations_of(v0, o).to_multiset().count(x) as int
        } else if adding {
            containing_relations_of(v0, o).to_multiset().count(x) + l.to_multiset().count(o) as int
        } else {
            containing_relations_of(v0, o).to_multiset().count(x) - l.to_multiset().count(o)
        }
}

/// Each object `o` present in `v0` lists, after the relations that held it
/// in `v0`, relation `r` once for each time `l` lists `o`.
pub open spec fn relation_appended_to_objects(v0: StorageView, v: StorageView, r: RelationKey, l: Seq<ObjectKey>) -> bool {
    forall|o: ObjectKey| #[trigger]
        object_present(v0, o) ==> containing_relations_of(v, o) == containing_relations_of(v0, o) + repeated(
            r,
            l.to_multiset().count(o),
        )
}

/// Each object `o` present in `v0` has relation `r` taken out of the
/// relations that hold it once for each time `l` lists `o`, each time as
/// `swap_removed` takes it out.
pub open spec fn relation_removed_from_objects(v0: StorageView, v: StorageView, r: RelationKey, l: Seq<ObjectKey>) -> bool {
    forall|o: ObjectKey| #[trigger]
        object_present(v0, o) ==> containing_relations_of(v, o) == crate::object::swap_removed_times(
            containing_relations_of(v0, o),
            r,
            l.to_multiset().count(o),
        )
}

proof fn lemma_relations_unchanged(v0: StorageView, r: RelationKey, adding: bool)
    ensures
        relations_changed_by(v0, v0, r, Seq::empty(), adding),
{
    assert(v0.nodes.dom() =~= v0.nodes.dom());
}

proof fn lemma_relations_step(
    v0: StorageView,
    s: StorageView,
    s2: StorageView,
    r: RelationKey,
    l: Seq<ObjectKey>,
    o: ObjectKey,
    c: Seq<RelationKey>,
    adding: bool,
)
    requires
        relations_changed_by(v0, s, r, l, adding),
        object_present(s, o),
        adding ==> c == containing_relations_of(s, o).push(r),
        !adding ==> containing_relations_of(s, o).contains(r),
        !adding ==> c.to_multiset() == containing_relations_of(s, o).to_multiset().remove(r),
        s2 == with_containing_relations(s, o, c),
    ensures
        relations_changed_by(v0, s2, r, l.push(o), adding),
{
    assert(s2.nodes.dom() =~= s.nodes.dom());
    assert(s2.ways.dom() =~= s.ways.dom());
    assert(s2.areas.dom() =~= s.areas.dom());
    assert(s2.relations.dom() =~= s.relations.dom());
    assert(object_present(v0, o));
    assert forall|p: ObjectKey| #[trigger] object_present(v0, p) implies object_present(s2, p)
        && containing_relations_of(s2, p) == (if p == o { c } else { containing_relations_of(s, p) }) by {}
    if !adding {
        assert(containing_relations_of(s, o).to_multiset().count(r) > 0);
    }
    assert forall|p: ObjectKey, x: RelationKey| object_present(v0, p) implies #[trigger] containing_relations_of(
        s2,
        p,
    ).to_multiset().count(x) as int == if x != r {
        containing_relations_of(v0, p).to_multiset().count(x) as int
    } else if adding {
        containing_relations_of(v0, p).to_multiset().count(x) + l.push(o).to_multiset().count(p) as int
    } else {
        containing_relations_of(v0, p).to_multiset().count(x) - l.push(o).to_multiset().count(p)
    } by {
        assert(containing_relations_of(s, p).to_multiset().count(x) as int == if x != r {
            containing_relations_of(v0, p).to_multiset().count(x) as int
        } else if adding {
            containing_relations_of(v0, p).to_multiset().count(x) + l.to_multiset().count(p) as int
        } else {
            containing_relations_of(v0, p).to_multiset().count(x) - l.to_multiset().count(p)
        });
    }
}

/// Relation `rk` of `v0` with its members replaced by `members`.
pub open spec fn with_members(v0: StorageView, rk: RelationKey, members: Seq<RelationMember>) -> StorageView {
    StorageView {
        relations: v0.relations.insert(rk, RelationView { members: members, ..v0.relations[rk] }),
        ..v0
    }
}

proof fn lemma_relation_members_done(
    v0: StorageView,
    rk: RelationKey,
    members1: Seq<RelationMember>,
    l: Seq<ObjectKey>,
    adding: bool,
    v: StorageView,
)
    requires
        consistent(v0),
        v0.relations.contains_key(rk),
        adding ==> member_objects(members1).to_multiset() == member_objects(v0.relations[rk].members).to_multiset().add(
            l.to_multiset(),
        ),
        adding ==> forall|i: int| 0 <= i < l.len() ==> object_present(v0, #[trigger] l[i]),
        !adding ==> member_objects(members1).to_multiset().add(l.to_multiset()) == member_objects(
            v0.relations[rk].members,
        ).to_multiset(),
        relations_changed_by(with_members(v0, rk, members1), v, rk, l, adding),
    ensures
        consistent(v),
{
    let v1 = with_members(v0, rk, members1);
    assert forall|o: ObjectKey| #[trigger] object_present(v1, o) == object_present(v0, o) && (object_present(v0, o)
        ==> containing_relations_of(v1, o) == containing_relations_of(v0, o)) && object_present(v, o) == object_present(
        v0,
        o,
    ) by {}
    assert(references_present(v)) by {
        assert forall|y: WayKey, x: AreaKey|
            v.ways.contains_key(y) && v.ways[y].formed_areas.contains(x) implies v.areas.contains_key(x) by {
            assert(v0.ways[y].formed_areas.contains(x));
        }
        assert forall|b: AreaKey, x: WayKey| v.areas.contains_key(b) && ring_ways(v.areas[b].rings).contains(x) implies v.ways.contains_key(x) by {
            assert(ring_ways(v0.areas[b].rings).contains(x));
        }
        assert forall|y: WayKey, n: NodeKey| v.ways.contains_key(y) && v.ways[y].nodes.contains(n) implies v.nodes.contains_key(n) by {
            assert(v0.ways[y].nodes.contains(n));
        }
        assert forall|n: NodeKey, x: WayKey|
            v.nodes.contains_key(n) && v.nodes[n].containing_ways.contains(x) implies v.ways.contains_key(x) by {
            assert(v0.nodes[n].containing_ways.contains(x));
        }
        assert forall|o: ObjectKey, q: RelationKey|
            object_present(v, o) && containing_relations_of(v, o).contains(q) implies v.relations.contains_key(q) by {
            assert(containing_relations_of(v, o).to_multiset().count(q) > 0);
            if q != rk {
                assert(containing_relations_of(v0, o).to_multiset().count(q) > 0);
                assert(containing_relations_of(v0, o).contains(q));
            }
        }
        assert forall|q: RelationKey, o: ObjectKey|
            v.relations.contains_key(q) && member_objects(v.relations[q].members).contains(o) implies object_present(
            v,
            o,
        ) by {
            if q == rk {
                assert(member_objects(members1).to_multiset().count(o) > 0);
                if member_objects(v0.relations[rk].members).to_multiset().count(o) > 0 {
                    assert(member_objects(v0.relations[rk].members).contains(o));
                } else {
                    assert(adding);
                    assert(l.to_multiset().count(o) > 0);
                    assert(l.contains(o));
                    let i = choose|i: int| 0 <= i < l.len() && l[i] == o;
                    assert(object_present(v0, l[i]));
                }
            } else {
                assert(member_objects(v0.relations[q].members).contains(o));
            }
        }
    }
    assert(node_way_counts_agree(v)) by {
        assert forall|n: NodeKey, x: WayKey| v.nodes.contains_key(n) && v.ways.contains_key(x) implies #[trigger] v.nodes[n].containing_ways.to_multiset().count(x)
            == v.ways[x].nodes.to_multiset().count(n) by {
            assert(v0.nodes[n].containing_ways.to_multiset().count(x) == v0.ways[x].nodes.to_multiset().count(n));
        }
    }
    assert(way_area_counts_agree(v)) by {
        assert forall|x: WayKey, b: AreaKey| v.ways.contains_key(x) && v.areas.contains_key(b) implies #[trigger] v.ways[x].formed_areas.to_multiset().count(b)
            == ring_ways(v.areas[b].rings).to_multiset().count(x) by {
            assert(v0.ways[x].formed_areas.to_multiset().count(b) == ring_ways(v0.areas[b].rings).to_multiset().count(x));
        }
    }
    assert(relation_counts_agree(v)) by {
        assert forall|o: ObjectKey, q: RelationKey|
            object_present(v, o) && v.relations.contains_key(q) implies #[trigger] containing_relations_of(v, o).to_multiset().count(q)
            == member_objects(v.relations[q].members).to_multiset().count(o) by {
            assert(containing_relations_of(v0, o).to_multiset().count(q) == member_objects(v0.relations[q].members).to_multiset().count(o));
        }
    }
}

proof fn lemma_insert_relation_done(v0: StorageView, r: RelationKey, rv: RelationView, v: StorageView)
    requires
        consistent(v0),
        !v0.relations.contains_key(r),
        rv.containing_relations.len() == 0,
        forall|i: int| 0 <= i < member_objects(rv.members).len() ==> object_present(v0, #[trigger] member_objects(rv.members)[i]),
        relations_changed_by(StorageView { relations: v0.relations.insert(r, rv), ..v0 }, v, r, member_objects(rv.members), true),
    ensures
        consistent(v),
{
    let v1 = StorageView { relations: v0.relations.insert(r, rv), ..v0 };
    let l = member_objects(rv.members);
    assert forall|o: ObjectKey| #[trigger] object_present(v0, o) implies containing_relations_of(v0, o).to_multiset().count(r) == 0 by {
        if containing_relations_of(v0, o).to_multiset().count(r) > 0 {
            assert(containing_relations_of(v0, o).contains(r));
        }
    }
    assert forall|q: RelationKey| #[trigger] v0.relations.contains_key(q) implies member_objects(
        v0.relations[q].members,
    ).to_multiset().count(ObjectKey::Relation(r)) == 0 by {
        if member_objects(v0.relations[q].members).to_multiset().count(ObjectKey::Relation(r)) > 0 {
            assert(member_objects(v0.relations[q].members).contains(ObjectKey::Relation(r)));
        }
    }
    assert(l.to_multiset().count(ObjectKey::Relation(r)) == 0) by {
        if l.to_multiset().count(ObjectKey::Relation(r)) > 0 {
            assert(l.contains(ObjectKey::Relation(r)));
            let i = choose|i: int| 0 <= i < l.len() && l[i] == ObjectKey::Relation(r);
            assert(object_present(v0, l[i]));
        }
    }
    assert forall|o: ObjectKey| #[trigger] object_present(v, o) == object_present(v1, o) && (o != ObjectKey::Relation(r)
        ==> object_present(v1, o) == object_present(v0, o) && (object_present(v0, o) ==> containing_relations_of(
        v1,
        o,
    ) == containing_relations_of(v0, o))) by {}
    assert(references_present(v)) by {
        assert forall|y: WayKey, x: AreaKey|
            v.ways.contains_key(y) && v.ways[y].formed_areas.contains(x) implies v.areas.contains_key(x) by {
            assert(v0.ways[y].formed_areas.contains(x));
        }
        assert forall|b: AreaKey, x: WayKey| v.areas.contains_key(b) && ring_ways(v.areas[b].rings).contains(x) implies v.ways.contains_key(x) by {
            assert(ring_ways(v0.areas[b].rings).contains(x));
        }
        assert forall|y: WayKey, n: NodeKey| v.ways.contains_key(y) && v.ways[y].nodes.contains(n) implies v.nodes.contains_key(n) by {
            assert(v0.ways[y].nodes.contains(n));
        }
        assert forall|n: NodeKey, x: WayKey|
            v.nodes.contains_key(n) && v.nodes[n].containing_ways.contains(x) implies v.ways.contains_key(x) by {
            assert(v0.nodes[n].containing_ways.contains(x));
        }
        assert forall|o: ObjectKey, q: RelationKey|
            object_present(v, o) && containing_relations_of(v, o).contains(q) implies v.relations.contains_key(q) by {
            assert(containing_relations_of(v, o).to_multiset().count(q) > 0);
            if q != r {
                assert(containing_relations_of(v1, o).to_multiset().count(q) > 0);
                assert(containing_relations_of(v1, o).contains(q));
                if o != ObjectKey::Relation(r) {
                    assert(containing_relations_of(v0, o).contains(q));
                }
            }
        }
        assert forall|q: RelationKey, o: ObjectKey|
            v.relations.contains_key(q) && member_objects(v.relations[q].members).contains(o) implies object_present(
            v,
            o,
        ) by {
            if q == r {
                let i = choose|i: int| 0 <= i < l.len() && l[i] == o;
                assert(object_present(v0, l[i]));
            } else {
                assert(member_objects(v0.relations[q].members).contains(o));
            }
        }
    }
    assert(node_way_counts_agree(v)) by {
        assert forall|n: NodeKey, x: WayKey| v.nodes.contains_key(n) && v.ways.contains_key(x) implies #[trigger] v.nodes[n].containing_ways.to_multiset().count(x)
            == v.ways[x].nodes.to_multiset().count(n) by {
            assert(v0.nodes[n].containing_ways.to_multiset().count(x) == v0.ways[x].nodes.to_multiset().count(n));
        }
    }
    assert(way_area_counts_agree(v)) by {
        assert forall|x: WayKey, b: AreaKey| v.ways.contains_key(x) && v.areas.contains_key(b) implies #[trigger] v.ways[x].formed_areas.to_multiset().count(b)
            == ring_ways(v.areas[b].rings).to_multiset().count(x) by {
            assert(v0.ways[x].formed_areas.to_multiset().count(b) == ring_ways(v0.areas[b].rings).to_multiset().count(x));
        }
    }
    assert(relation_counts_agree(v)) by {
        assert forall|o: ObjectKey, q: RelationKey|
            object_present(v, o) && v.relations.contains_key(q) implies #[trigger] containing_relations_of(v, o).to_multiset().count(q)
            == member_objects(v.relations[q].members).to_multiset().count(o) by {
            if o == ObjectKey::Relation(r) {
                assert(containing_relations_of(v1, o) =~= Seq::<RelationKey>::empty());
                if q != r {
                    assert(member_objects(v0.relations[q].members).to_multiset().count(o) == 0);
                }
            } else if q != r {
                assert(containing_relations_of(v0, o).to_multiset().count(q) == member_objects(v0.relations[q].members).to_multiset().count(o));
            }
        }
    }
}

proof fn lemma_delete_relation_done(v0: StorageView, k: RelationKey, v: StorageView)
    requires
        consistent(v0),
        v0.relations.contains_key(k),
        v0.relations[k].containing_relations.len() == 0,
        !v.relations.contains_key(k),
        relations_changed_by(
            v0,
            StorageView { relations: v.relations.insert(k, v0.relations[k]), ..v },
            k,
            member_objects(v0.relations[k].members),
            false,
        ),
    ensures
        consistent(v),
{
    let vm = StorageView { relations: v.relations.insert(k, v0.relations[k]), ..v };
    assert(v.relations =~= vm.relations.remove(k));
    assert forall|o: ObjectKey| #[trigger] object_present(v0, o) implies containing_relations_of(vm, o).to_multiset().count(k) == 0 by {
        assert(containing_relations_of(v0, o).to_multiset().count(k) == member_objects(v0.relations[k].members).to_multiset().count(o));
    }
    assert forall|q: RelationKey| #[trigger] v0.relations.contains_key(q) implies member_objects(
        v0.relations[q].members,
    ).to_multiset().count(ObjectKey::Relation(k)) == 0 by {
        assert(containing_relations_of(v0, ObjectKey::Relation(k)).to_multiset().count(q) == member_objects(
            v0.relations[q].members,
        ).to_multiset().count(ObjectKey::Relation(k)));
    }
    assert forall|o: ObjectKey| #[trigger] object_present(v, o) implies object_present(v0, o) && object_present(vm, o)
        && containing_relations_of(v, o) == containing_relations_of(vm, o) && o != ObjectKey::Relation(k) by {}
    assert(references_present(v)) by {
        assert forall|y: WayKey, x: AreaKey|
            v.ways.contains_key(y) && v.ways[y].formed_areas.contains(x) implies v.areas.contains_key(x) by {
            assert(v0.ways[y].formed_areas.contains(x));
        }
        assert forall|b: AreaKey, x: WayKey| v.areas.contains_key(b) && ring_ways(v.areas[b].rings).contains(x) implies v.ways.contains_key(x) by {
            assert(ring_ways(v0.areas[b].rings).contains(x));
        }
        assert forall|y: WayKey, n: NodeKey| v.ways.contains_key(y) && v.ways[y].nodes.contains(n) implies v.nodes.contains_key(n) by {
            assert(v0.ways[y].nodes.contains(n));
        }
        assert forall|n: NodeKey, x: WayKey|
            v.nodes.contains_key(n) && v.nodes[n].containing_ways.contains(x) implies v.ways.contains_key(x) by {
            assert(v0.nodes[n].containing_ways.contains(x));
        }
        assert forall|o: ObjectKey, q: RelationKey|
            object_present(v, o) && containing_relations_of(v, o).contains(q) implies v.relations.contains_key(q) by {
            assert(containing_relations_of(vm, o).to_multiset().count(q) > 0);
            assert(q != k);
            assert(containing_relations_of(v0, o).to_multiset().count(q) > 0);
            assert(containing_relations_of(v0, o).contains(q));
        }
        assert forall|q: RelationKey, o: ObjectKey|
            v.relations.contains_key(q) && member_objects(v.relations[q].members).contains(o) implies object_present(
            v,
            o,
        ) by {
            assert(member_objects(v0.relations[q].members).contains(o));
            assert(object_present(v0, o));
            if o == ObjectKey::Relation(k) {
                assert(member_objects(v0.relations[q].members).to_multiset().count(o) > 0);
            }
        }
    }
    assert(node_way_counts_agree(v)) by {
        assert forall|n: NodeKey, x: WayKey| v.nodes.contains_key(n) && v.ways.contains_key(x) implies #[trigger] v.nodes[n].containing_ways.to_multiset().count(x)
            == v.ways[x].nodes.to_multiset().count(n) by {
            assert(v0.nodes[n].containing_ways.to_multiset().count(x) == v0.ways[x].nodes.to_multiset().count(n));
        }
    }
    assert(way_area_counts_agree(v)) by {
        assert forall|x: WayKey, b: AreaKey| v.ways.contains_key(x) && v.areas.contains_key(b) implies #[trigger] v.ways[x].formed_areas.to_multiset().count(b)
            == ring_ways(v.areas[b].rings).to_multiset().count(x) by {
            assert(v0.ways[x].formed_areas.to_multiset().count(b) == ring_ways(v0.areas[b].rings).to_multiset().count(x));
        }
    }
    assert(relation_counts_agree(v)) by {
        assert forall|o: ObjectKey, q: RelationKey|
            object_present(v, o) && v.relations.contains_key(q) implies #[trigger] containing_relations_of(v, o).to_multiset().count(q)
            == member_objects(v.relations[q].members).to_multiset().count(o) by {
            assert(containing_relations_of(v0, o).to_multiset().count(q) == member_objects(v0.relations[q].members).to_multiset().count(o));
        }
    }
}

/// The objects of the members, in order.
fn member_object_keys(members: &[RelationMember]) -> (r: Vec<ObjectKey>)
    ensures
        r@ == member_objects(members@),
{
    let mut r: Vec<ObjectKey> = Vec::new();
    let mut i: usize = 0;
    while i < members.len()
        invariant
            i <= members@.len(),
            r@ == member_objects(members@.take(i as int)),
        decreases members@.len() - i,
    {
        r.push(members[i].object);
        i = i + 1;
        proof {
            assert(member_objects(members@.take(i as int)) =~= member_objects(members@.take(i - 1)).push(
                members@[i - 1].object,
            ));
        }
    }
    proof {
        assert(members@.take(i as int) =~= members@);
    }
    r
}

impl Storage {
    /// Adds relation `rk` to the containing relations of each object of `objs`, once per occurrence.
    fn link_objects_to_relation(&mut self, objs: &Vec<ObjectKey>, rk: RelationKey)
        requires
            old(self).slots_ok(),
            forall|i: int| 0 <= i < objs@.len() ==> object_present(old(self)@, #[trigger] objs@[i]),
        ensures
            final(self).slots_ok(),
            final(self).object_count() == old(self).object_count(),
            relations_changed_by(old(self)@, final(self)@, rk, objs@, true),
            relation_appended_to_objects(old(self)@, final(self)@, rk, objs@),
    {
        let ghost v0 = self@;
        let ghost c0 = self.object_count();
        proof {
            lemma_relations_unchanged(v0, rk, true);
            assert(objs@.take(0) =~= Seq::<ObjectKey>::empty());
        }
        let mut i: usize = 0;
        while i < objs.len()
            invariant
                i <= objs@.len(),
                forall|j: int| 0 <= j < objs@.len() ==> object_present(v0, #[trigger] objs@[j]),
                self.slots_ok(),
                self.object_count() == c0,
                relations_changed_by(v0, self@, rk, objs@.take(i as int), true),
                relation_appended_to_objects(v0, self@, rk, objs@.take(i as int)),
            decreases objs@.len() - i,
        {
            let o = objs[i];
            let ghost s = self@;
            proof {
                assert(object_present(v0, objs@[i as int]));
                assert(objs@.take(i + 1) =~= objs@.take(i as int).push(o));
            }
            self.object_add_containing_relation(o, rk);
            proof {
                lemma_relations_step(v0, s, self@, rk, objs@.take(i as int), o, containing_relations_of(s, o).push(rk), true);
                assert forall|p: ObjectKey| #[trigger] object_present(v0, p) implies containing_relations_of(self@, p)
                    == containing_relations_of(v0, p) + repeated(rk, objs@.take(i + 1).to_multiset().count(p)) by {
                    assert(containing_relations_of(s, p) == containing_relations_of(v0, p) + repeated(
                        rk,
                        objs@.take(i as int).to_multiset().count(p),
                    ));
                    if p == o {
                        lemma_repeated_push(containing_relations_of(v0, o), rk, objs@.take(i as int).to_multiset().count(o));
                    }
                }
            }
            i = i + 1;
        }
        proof {
            assert(objs@.take(i as int) =~= objs@);
        }
    }

    /// Takes relation `rk` out of the containing relations of each object of `objs`, once per occurrence.
    fn unlink_objects_from_relation(&mut self, objs: &Vec<ObjectKey>, rk: RelationKey)
        requires
            old(self).slots_ok(),
            forall|i: int| 0 <= i < objs@.len() ==> object_present(old(self)@, #[trigger] objs@[i]),
            forall|o: ObjectKey|
                #![trigger objs@.to_multiset().count(o)]
                object_present(old(self)@, o) ==> objs@.to_multiset().count(o) <= containing_relations_of(
                    old(self)@,
                    o,
                ).to_multiset().count(rk),
        ensures
            final(self).slots_ok(),
            final(self).object_count() == old(self).object_count(),
            relations_changed_by(old(self)@, final(self)@, rk, objs@, false),
            relation_removed_from_objects(old(self)@, final(self)@, rk, objs@),
    {
        let ghost v0 = self@;
        let ghost c0 = self.object_count();
        proof {
            lemma_relations_unchanged(v0, rk, false);
            assert(objs@.take(0) =~= Seq::<ObjectKey>::empty());
        }
        let mut i: usize = 0;
        while i < objs.len()
            invariant
                i <= objs@.len(),
                forall|j: int| 0 <= j < objs@.len() ==> object_present(v0, #[trigger] objs@[j]),
                forall|o: ObjectKey|
                    #![trigger objs@.to_multiset().count(o)]
                    object_present(v0, o) ==> objs@.to_multiset().count(o) <= containing_relations_of(
                        v0,
                        o,
                    ).to_multiset().count(rk),
                self.slots_ok(),
                self.object_count() == c0,
                relations_changed_by(v0, self@, rk, objs@.take(i as int), false),
                relation_removed_from_objects(v0, self@, rk, objs@.take(i as int)),
            decreases objs@.len() - i,
        {
            let o = objs[i];
            let ghost s = self@;
            proof {
                assert(object_present(v0, objs@[i as int]));
                assert(objs@.take(i + 1) =~= objs@.take(i as int).push(o));
                lemma_prefix_count(objs@, i + 1, o);
                assert(objs@.to_multiset().count(o) <= containing_relations_of(v0, o).to_multiset().count(rk));
                assert(containing_relations_of(s, o).to_multiset().count(rk) > 0);
                assert(containing_relations_of(s, o).contains(rk));
            }
            self.object_remove_containing_relation(o, rk);
            proof {
                lemma_relations_step(v0, s, self@, rk, objs@.take(i as int), o, containing_relations_of(self@, o), false);
                assert forall|p: ObjectKey| #[trigger] object_present(v0, p) implies containing_relations_of(self@, p)
                    == crate::object::swap_removed_times(
                    containing_relations_of(v0, p),
                    rk,
                    objs@.take(i + 1).to_multiset().count(p),
                ) by {
                    assert(containing_relations_of(s, p) == crate::object::swap_removed_times(
                        containing_relations_of(v0, p),
                        rk,
                        objs@.take(i as int).to_multiset().count(p),
                    ));
                }
            }
            i = i + 1;
        }
        proof {
            assert(objs@.take(i as int) =~= objs@);
        }
    }

    pub fn insert_relation(&mut self, relation: Relation) -> (r: RelationKey)
        requires
            old(self).wf(),
            old(self).object_count() + 1 < u32::MAX,
            relation@.containing_relations.len() == 0,
            forall|i: int|
                0 <= i < relation@.members.len() ==> object_present(old(self)@, #[trigger] relation@.members[i].object),
        ensures
            final(self).wf(),
            final(self).object_count() == old(self).object_count() + 1,
            !old(self)@.relations.contains_key(r),
            relations_changed_by(
                StorageView { relations: old(self)@.relations.insert(r, relation@), ..old(self)@ },
                final(self)@,
                r,
                member_objects(relation@.members),
                true,
            ),
            relation_appended_to_objects(
                StorageView { relations: old(self)@.relations.insert(r, relation@), ..old(self)@ },
                final(self)@,
                r,
                member_objects(relation@.members),
            ),
    {
        let ghost s0 = self.slots();
        let ghost v0 = self@;
        let ghost rv = relation@;
        let objs = member_object_keys(relation.members());
        let k = slots_insert(&mut self.objects, StoredObject::Relation(relation));
        let r = RelationKey(k);
        proof {
            lemma_view_put(s0, k, StoredObject::Relation(relation));
            assert(self.slots().dom() =~= s0.dom().insert(k));
            assert forall|i: int| 0 <= i < objs@.len() implies object_present(self@, #[trigger] objs@[i]) by {
                assert(object_present(v0, rv.members[i].object));
            }
        }
        self.link_objects_to_relation(&objs, r);
        proof {
            assert forall|i: int| 0 <= i < member_objects(rv.members).len() implies object_present(
                v0,
                #[trigger] member_objects(rv.members)[i],
            ) by {
                assert(object_present(v0, rv.members[i].object));
            }
            lemma_insert_relation_done(v0, r, rv, self@);
        }
        r
    }

    pub fn create_relation(&mut self, members: Vec<RelationMember>) -> (r: RelationKey)
        requires
            old(self).wf(),
            old(self).object_count() + 1 < u32::MAX,
            forall|i: int| 0 <= i < members@.len() ==> object_present(old(self)@, #[trigger] members@[i].object),
        ensures
            final(self).wf(),
            final(self).object_count() == old(self).object_count() + 1,
            !old(self)@.relations.contains_key(r),
            relations_changed_by(
                StorageView {
                    relations: old(self)@.relations.insert(
                        r,
                        RelationView {
                            osm_id: None,
                            tags: Map::empty(),
                            members: members@,
                            containing_relations: Seq::empty(),
                        },
                    ),
                    ..old(self)@
                },
                final(self)@,
                r,
                member_objects(members@),
                true,
            ),
            relation_appended_to_objects(
                StorageView {
                    relations: old(self)@.relations.insert(
                        r,
                        RelationView {
                            osm_id: None,
                            tags: Map::empty(),
                            members: members@,
                            containing_relations: Seq::empty(),
                        },
                    ),
                    ..old(self)@
                },
                final(self)@,
                r,
                member_objects(members@),
            ),
    {
        let ghost l = members@;
        let relation = Relation::new(None, members);
        proof {
            assert(relation@ =~= RelationView {
                osm_id: None,
                tags: Map::empty(),
                members: l,
                containing_relations: Seq::empty(),
            });
        }
        self.insert_relation(relation)
    }

    pub fn append_member_to_relation(&mut self, relation_key: RelationKey, member: RelationMember)
        requires
            old(self).wf(),
            old(self)@.relations.contains_key(relation_key),
            object_present(old(self)@, member.object),
        ensures
            final(self).wf(),
            final(self).object_count() == old(self).object_count(),
            final(self)@ == with_containing_relations(
                with_members(old(self)@, relation_key, old(self)@.relations[relation_key].members.push(member)),
                member.object,
                containing_relations_of(old(self)@, member.object).push(relation_key),
            ),
    {
        let ghost v0 = self@;
        let ghost m = member;
        let o = member.object;
        self.relation_push_member(relation_key, member);
        let ghost v1 = self@;
        proof {
            assert(v1 == with_members(v0, relation_key, v0.relations[relation_key].members.push(m)));
        }
        self.object_add_containing_relation(o, relation_key);
        proof {
            lemma_relations_unchanged(v1, relation_key, true);
            lemma_relations_step(v1, v1, self@, relation_key, Seq::empty(), o, containing_relations_of(v1, o).push(relation_key), true);
            assert(Seq::<ObjectKey>::empty().push(o) =~= seq![o]);
            let members0 = v0.relations[relation_key].members;
            assert(member_objects(members0.push(m)) =~= member_objects(members0).push(o));
            vstd::seq_lib::lemma_multiset_commutative(member_objects(members0), seq![o]);
            assert(member_objects(members0) + seq![o] =~= member_objects(members0).push(o));
            lemma_relation_members_done(v0, relation_key, members0.push(m), seq![o], true, self@);
        }
    }

    pub fn insert_member_to_relation(&mut self, relation_key: RelationKey, member: RelationMember, index: usize)
        requires
            old(self).wf(),
            old(self)@.relations.contains_key(relation_key),
            index <= old(self)@.relations[relation_key].members.len(),
            object_present(old(self)@, member.object),
        ensures
            final(self).wf(),
            final(self).object_count() == old(self).object_count(),
            final(self)@ == with_containing_relations(
                with_members(
                    old(self)@,
                    relation_key,
                    old(self)@.relations[relation_key].members.insert(index as int, member),
                ),
                member.object,
                containing_relations_of(old(self)@, member.object).push(relation_key),
            ),
    {
        let ghost v0 = self@;
        let ghost m = member;
        let o = member.object;
        self.relation_insert_member(relation_key, index, member);
        let ghost v1 = self@;
        self.object_add_containing_relation(o, relation_key);
        proof {
            lemma_relations_unchanged(v1, relation_key, true);
            lemma_relations_step(v1, v1, self@, relation_key, Seq::empty(), o, containing_relations_of(v1, o).push(relation_key), true);
            assert(Seq::<ObjectKey>::empty().push(o) =~= seq![o]);
            let members0 = v0.relations[relation_key].members;
            let objs0 = member_objects(members0);
            assert(member_objects(members0.insert(index as int, m)) =~= objs0.insert(index as int, o));
            vstd::seq_lib::lemma_seq_union_to_multiset_commutative(objs0, seq![o]);
            assert(objs0.insert(index as int, o) =~= objs0.take(index as int) + (seq![o] + objs0.skip(index as int)));
            assert(objs0 =~= objs0.take(index as int) + objs0.skip(index as int));
            vstd::seq_lib::lemma_multiset_commutative(objs0.take(index as int), seq![o] + objs0.skip(index as int));
            vstd::seq_lib::lemma_multiset_commutative(seq![o], objs0.skip(index as int));
            vstd::seq_lib::lemma_multiset_commutative(objs0.take(index as int), objs0.skip(index as int));
            assert(objs0.insert(index as int, o).to_multiset() =~= objs0.to_multiset().add(seq![o].to_multiset()));
            lemma_relation_members_done(v0, relation_key, members0.insert(index as int, m), seq![o], true, self@);
        }
    }

    pub fn remove_member_from_relation(&mut self, relation_key: RelationKey, member_index: usize) -> (r: RelationMember)
        requires
            old(self).wf(),
            old(self)@.relations.contains_key(relation_key),
            member_index < old(self)@.relations[relation_key].members.len(),
        ensures
            final(self).wf(),
            final(self).object_count() == old(self).object_count(),
            r == old(self)@.relations[relation_key].members[member_index as int],
            final(self)@ == with_containing_relations(
                with_members(
                    old(self)@,
                    relation_key,
                    old(self)@.relations[relation_key].members.remove(member_index as int),
                ),
                r.object,
                containing_relations_of(final(self)@, r.object),
            ),
            containing_relations_of(final(self)@, r.object).to_multiset() == containing_relations_of(
                old(self)@,
                r.object,
            ).to_multiset().remove(relation_key),
            containing_relations_of(final(self)@, r.object) == crate::object::swap_removed(
                containing_relations_of(old(self)@, r.object),
                relation_key,
            ),
    {
        let ghost v0 = self@;
        let members0 = Ghost(v0.relations[relation_key].members);
        let member = self.relation_remove_member(relation_key, member_index);
        let o = member.object;
        let ghost v1 = self@;
        proof {
            let objs0 = member_objects(members0@);
            assert(objs0[member_index as int] == o);
            assert(objs0.contains(o));
            assert(objs0.to_multiset().count(o) > 0);
            assert(containing_relations_of(v0, o).to_multiset().count(relation_key) == objs0.to_multiset().count(o));
            assert(containing_relations_of(v1, o) == containing_relations_of(v0, o));
            assert(containing_relations_of(v1, o).contains(relation_key));
        }
        self.object_remove_containing_relation(o, relation_key);
        proof {
            lemma_relations_unchanged(v1, relation_key, false);
            lemma_relations_step(v1, v1, self@, relation_key, Seq::empty(), o, containing_relations_of(self@, o), false);
            assert(Seq::<ObjectKey>::empty().push(o) =~= seq![o]);
            let objs0 = member_objects(members0@);
            let i = member_index as int;
            assert(member_objects(members0@.remove(i)) =~= objs0.remove(i));
            assert(objs0 =~= objs0.take(i) + (seq![o] + objs0.skip(i + 1)));
            assert(objs0.remove(i) =~= objs0.take(i) + objs0.skip(i + 1));
            vstd::seq_lib::lemma_multiset_commutative(objs0.take(i), seq![o] + objs0.skip(i + 1));
            vstd::seq_lib::lemma_multiset_commutative(seq![o], objs0.skip(i + 1));
            vstd::seq_lib::lemma_multiset_commutative(objs0.take(i), objs0.skip(i + 1));
            assert(objs0.remove(i).to_multiset().add(seq![o].to_multiset()) =~= objs0.to_multiset());
            lemma_relation_members_done(v0, relation_key, members0@.remove(i), seq![o], false, self@);
        }
        member
    }

    pub fn delete_relation(&mut self, key: RelationKey) -> (r: Result<Relation, ObjectDeleteError>)
        requires
            old(self).wf(),
        ensures
            final(self).wf(),
            !old(self)@.relations.contains_key(key) ==> r == Err::<Relation, ObjectDeleteError>(
                ObjectDeleteError::NotPresent,
            ),
            old(self)@.relations.contains_key(key) && old(self)@.relations[key].containing_relations.len() > 0 ==> r
                == Err::<Relation, ObjectDeleteError>(ObjectDeleteError::ContainedInRelation),
            old(self)@.relations.contains_key(key) && old(self)@.relations[key].containing_relations.len() == 0 ==> r is Ok,
            r is Err ==> final(self)@ == old(self)@ && final(self).object_count() == old(self).object_count(),
            r is Ok ==> {
                &&& old(self)@.relations.contains_key(key)
                &&& old(self)@.relations[key].containing_relations.len() == 0
                &&& r->Ok_0@ == old(self)@.relations[key]
                &&& !final(self)@.relations.contains_key(key)
                &&& relations_changed_by(
                    old(self)@,
                    StorageView { relations: final(self)@.relations.insert(key, old(self)@.relations[key]), ..final(self)@ },
                    key,
                    member_objects(old(self)@.relations[key].members),
                    false,
                )
                &&& relation_removed_from_objects(
                    old(self)@,
                    StorageView { relations: final(self)@.relations.insert(key, old(self)@.relations[key]), ..final(self)@ },
                    key,
                    member_objects(old(self)@.relations[key].members),
                )
                &&& final(self).object_count() + 1 == old(self).object_count()
            },
    {
        if !self.contains_relation(key) {
            return Err(ObjectDeleteError::NotPresent);
        }
        let relation = self.relation(key);
        if crate::object::Object::containing_relations(relation).len() != 0 {
            return Err(ObjectDeleteError::ContainedInRelation);
        }
        let objs = member_object_keys(relation.members());
        let ghost v0 = self@;
        proof {
            assert forall|i: int| 0 <= i < objs@.len() implies object_present(self@, #[trigger] objs@[i]) by {
                assert(member_objects(v0.relations[key].members).contains(objs@[i]));
            }
            assert forall|o: ObjectKey| #[trigger] object_present(self@, o) implies objs@.to_multiset().count(o)
                <= containing_relations_of(self@, o).to_multiset().count(key) by {
                assert(containing_relations_of(v0, o).to_multiset().count(key) == member_objects(
                    v0.relations[key].members,
                ).to_multiset().count(o));
            }
        }
        self.unlink_objects_from_relation(&objs, key);
        let ghost vm = self@;
        proof {
            use_type_invariant(key);
            assert(vm.relations[key] == v0.relations[key]) by {
                assert(containing_relations_of(v0, ObjectKey::Relation(key)).to_multiset().count(key) == 0);
                assert(objs@.to_multiset().count(ObjectKey::Relation(key)) == 0) by {
                    assert(containing_relations_of(v0, ObjectKey::Relation(key)).to_multiset().count(key)
                        == member_objects(v0.relations[key].members).to_multiset().count(ObjectKey::Relation(key)));
                }
                assert forall|x: RelationKey| #[trigger] vm.relations[key].containing_relations.to_multiset().count(x) == 0 by {
                    assert(containing_relations_of(vm, ObjectKey::Relation(key)).to_multiset().count(x) as int
                        == containing_relations_of(v0, ObjectKey::Relation(key)).to_multiset().count(x) as int);
                    assert(v0.relations[key].containing_relations =~= Seq::<RelationKey>::empty());
                }
                let c = vm.relations[key].containing_relations;
                if c.len() > 0 {
                    assert(c.contains(c[0]));
                    assert(c.to_multiset().count(c[0]) > 0);
                }
                assert(vm.relations[key].containing_relations =~= v0.relations[key].containing_relations);
            }
        }
        let ghost s1 = self.slots();
        let removed = slots_remove(&mut self.objects, key.0);
        proof {
            lemma_view_take(s1, key.0);
            assert(self.slots().dom() =~= s1.dom().remove(key.0));
            assert(StorageView { relations: self@.relations.insert(key, v0.relations[key]), ..self@ } == vm) by {
                assert(self@.relations.insert(key, v0.relations[key]) =~= vm.relations);
            }
            lemma_delete_relation_done(v0, key, self@);
        }
        match removed {
            Some(StoredObject::Relation(rel)) => Ok(rel),
            _ => vstd::pervasive::unreached(),
        }
    }
}


/// The stored object `o` is the one under `key` in `v`.
pub open spec fn object_view_is(o: StoredObject, v: StorageView, key: ObjectKey) -> bool {
    match (o, key) {
        (StoredObject::Node(x), ObjectKey::Node(k)) => v.nodes.contains_key(k) && x@ == v.nodes[k],
        (StoredObject::Way(x), ObjectKey::Way(k)) => v.ways.contains_key(k) && x@ == v.ways[k],
        (StoredObject::Area(x), ObjectKey::Area(k)) => v.areas.contains_key(k) && x@ == v.areas[k],
        (StoredObject::Relation(x), ObjectKey::Relation(k)) => v.relations.contains_key(k) && x@ == v.relations[k],
        _ => false,
    }
}

/// `v` and `v0` hold the same objects with the same links between them;
/// tags and node locations may differ.
pub open spec fn links_equal(v0: StorageView, v: StorageView) -> bool {
    &&& v.nodes.dom() == v0.nodes.dom()
    &&& v.ways.dom() == v0.ways.dom()
    &&& v.areas.dom() == v0.areas.dom()
    &&& v.relations.dom() == v0.relations.dom()
    &&& forall|k: NodeKey| #[trigger] v0.nodes.contains_key(k) ==> v.nodes[k].containing_ways == v0.nodes[k].containing_ways
        && v.nodes[k].containing_relations == v0.nodes[k].containing_relations
    &&& forall|k: WayKey| #[trigger] v0.ways.contains_key(k) ==> v.ways[k].nodes == v0.ways[k].nodes
        && v.ways[k].formed_areas == v0.ways[k].formed_areas && v.ways[k].containing_relations
        == v0.ways[k].containing_relations
    &&& forall|k: AreaKey| #[trigger] v0.areas.contains_key(k) ==> v.areas[k].rings == v0.areas[k].rings
        && v.areas[k].containing_relations == v0.areas[k].containing_relations
    &&& forall|k: RelationKey| #[trigger] v0.relations.contains_key(k) ==> v.relations[k].members
        == v0.relations[k].members && v.relations[k].containing_relations == v0.relations[k].containing_relations
}

proof fn lemma_links_equal_consistent(v0: StorageView, v: StorageView)
    requires
        consistent(v0),
        links_equal(v0, v),
    ensures
        consistent(v),
{
    assert forall|o: ObjectKey| #[trigger] object_present(v, o) == object_present(v0, o) && (object_present(v0, o)
        ==> containing_relations_of(v, o) == containing_relations_of(v0, o)) by {}
    assert(references_present(v)) by {
        assert forall|y: WayKey, x: AreaKey|
            v.ways.contains_key(y) && v.ways[y].formed_areas.contains(x) implies v.areas.contains_key(x) by {
            assert(v0.ways[y].formed_areas.contains(x));
        }
        assert forall|b: AreaKey, x: WayKey| v.areas.contains_key(b) && ring_ways(v.areas[b].rings).contains(x) implies v.ways.contains_key(x) by {
            assert(ring_ways(v0.areas[b].rings).contains(x));
        }
        assert forall|y: WayKey, n: NodeKey| v.ways.contains_key(y) && v.ways[y].nodes.contains(n) implies v.nodes.contains_key(n) by {
            assert(v0.ways[y].nodes.contains(n));
        }
        assert forall|n: NodeKey, x: WayKey|
            v.nodes.contains_key(n) && v.nodes[n].containing_ways.contains(x) implies v.ways.contains_key(x) by {
            assert(v0.nodes[n].containing_ways.contains(x));
        }
        assert forall|o: ObjectKey, q: RelationKey|
            object_present(v, o) && containing_relations_of(v, o).contains(q) implies v.relations.contains_key(q) by {
            assert(containing_relations_of(v0, o).contains(q));
        }
        assert forall|q: RelationKey, o: ObjectKey|
            v.relations.contains_key(q) && member_objects(v.relations[q].members).contains(o) implies object_present(
            v,
            o,
        ) by {
            assert(member_objects(v0.relations[q].members).contains(o));
        }
    }
    assert(node_way_counts_agree(v)) by {
        assert forall|n: NodeKey, x: WayKey| v.nodes.contains_key(n) && v.ways.contains_key(x) implies #[trigger] v.nodes[n].containing_ways.to_multiset().count(x)
            == v.ways[x].nodes.to_multiset().count(n) by {
            assert(v0.nodes[n].containing_ways.to_multiset().count(x) == v0.ways[x].nodes.to_multiset().count(n));
        }
    }
    assert(way_area_counts_agree(v)) by {
        assert forall|x: WayKey, b: AreaKey| v.ways.contains_key(x) && v.areas.contains_key(b) implies #[trigger] v.ways[x].formed_areas.to_multiset().count(b)
            == ring_ways(v.areas[b].rings).to_multiset().count(x) by {
            assert(v0.ways[x].formed_areas.to_multiset().count(b) == ring_ways(v0.areas[b].rings).to_multiset().count(x));
        }
    }
    assert(relation_counts_agree(v)) by {
        assert forall|o: ObjectKey, q: RelationKey|
            object_present(v, o) && v.relations.contains_key(q) implies #[trigger] containing_relations_of(v, o).to_multiset().count(q)
            == member_objects(v.relations[q].members).to_multiset().count(o) by {
            assert(containing_relations_of(v0, o).to_multiset().count(q) == member_objects(v0.relations[q].members).to_multiset().count(o));
        }
    }
}

impl Storage {
    /// The object under the key, whatever its kind.
    pub fn object(&self, key: ObjectKey) -> (r: &StoredObject)
        requires
            self.wf(),
            object_present(self@, key),
        ensures
            object_view_is(*r, self@, key),
    {
        match key {
            ObjectKey::Node(k) => {
                proof {
                    use_type_invariant(k);
                }
                slots_get(&self.objects, k.0)
            },
            ObjectKey::Way(k) => {
                proof {
                    use_type_invariant(k);
                }
                slots_get(&self.objects, k.0)
            },
            ObjectKey::Area(k) => {
                proof {
                    use_type_invariant(k);
                }
                slots_get(&self.objects, k.0)
            },
            ObjectKey::Relation(k) => {
                proof {
                    use_type_invariant(k);
                }
                slots_get(&self.objects, k.0)
            },
        }
    }

    /// Moves a node; nothing else changes.
    pub fn set_node_location(&mut self, key: NodeKey, location: Location)
        requires
            old(self).wf(),
            old(self)@.nodes.contains_key(key),
        ensures
            final(self).wf(),
            final(self).object_count() == old(self).object_count(),
            final(self)@ == (StorageView {
                nodes: old(self)@.nodes.insert(key, NodeView { location, ..old(self)@.nodes[key] }),
                ..old(self)@
            }),
    {
        let ghost v0 = self@;
        self.node_set_location(key, location);
        proof {
            assert(self@.nodes.dom() =~= v0.nodes.dom());
            lemma_links_equal_consistent(v0, self@);
        }
    }

    /// Sets a tag of an object; nothing else changes.
    pub fn set_tag(&mut self, key: ObjectKey, tag: String, value: String)
        requires
            old(self).wf(),
            object_present(old(self)@, key),
        ensures
            final(self).wf(),
            final(self).object_count() == old(self).object_count(),
            final(self)@ == with_tags(old(self)@, key, tags_of(old(self)@, key).insert(tag@, value@)),
    {
        let ghost v0 = self@;
        self.object_set_tag(key, tag, value);
        proof {
            assert(self@.nodes.dom() =~= v0.nodes.dom());
            assert(self@.ways.dom() =~= v0.ways.dom());
            assert(self@.areas.dom() =~= v0.areas.dom());
            assert(self@.relations.dom() =~= v0.relations.dom());
            lemma_links_equal_consistent(v0, self@);
        }
    }

    /// Removes a tag of an object, if it has it; nothing else changes.
    pub fn remove_tag(&mut self, key: ObjectKey, tag: &str)
        requires
            old(self).wf(),
            object_present(old(self)@, key),
        ensures
            final(self).wf(),
            final(self).object_count() == old(self).object_count(),
            final(self)@ == with_tags(old(self)@, key, tags_of(old(self)@, key).remove(tag@)),
    {
        let ghost v0 = self@;
        self.object_remove_tag(key, tag);
        proof {
            assert(self@.nodes.dom() =~= v0.nodes.dom());
            assert(self@.ways.dom() =~= v0.ways.dom());
            assert(self@.areas.dom() =~= v0.areas.dom());
            assert(self@.relations.dom() =~= v0.relations.dom());
            lemma_links_equal_consistent(v0, self@);
        }
    }

    /// Every node with its key, each once, in the order of the underlying slot map.
    pub fn iter_nodes(&self) -> (r: Vec<(NodeKey, &Node)>)
        requires
            self.wf(),
        ensures
            forall|i: int|
                0 <= i < r@.len() ==> self@.nodes.contains_key(#[trigger] r@[i].0) && r@[i].1@ == self@.nodes[r@[i].0],
            forall|i: int, j: int| 0 <= i < r@.len() && 0 <= j < r@.len() && i != j ==> #[trigger] r@[i].0 != #[trigger] r@[j].0,
            forall|k: NodeKey| self@.nodes.contains_key(k) ==> exists|i: int| 0 <= i < r@.len() && #[trigger] r@[i].0 == k,
    {
        let all = slots_iter(&self.objects);
        let mut r: Vec<(NodeKey, &Node)> = Vec::new();
        let mut i: usize = 0;
        while i < all.len()
            invariant
                i <= all@.len(),
                self.wf(),
                forall|m: int|
                    0 <= m < all@.len() ==> ffi_key(#[trigger] all@[m].0) && self.slots().contains_key(all@[m].0)
                        && *all@[m].1 == self.slots()[all@[m].0],
                forall|m: int, n: int|
                    0 <= m < all@.len() && 0 <= n < all@.len() && m != n ==> #[trigger] all@[m].0 != #[trigger] all@[n].0,
                forall|j: int|
                    0 <= j < r@.len() ==> self@.nodes.contains_key(#[trigger] r@[j].0) && r@[j].1@ == self@.nodes[r@[j].0]
                        && exists|m: int| 0 <= m < i && #[trigger] all@[m].0 == r@[j].0.0,
                forall|j: int, n: int| 0 <= j < r@.len() && 0 <= n < r@.len() && j != n ==> #[trigger] r@[j].0 != #[trigger] r@[n].0,
                forall|m: int|
                    0 <= m < i && #[trigger] all@[m].1 is Node ==> exists|j: int| 0 <= j < r@.len() && #[trigger] r@[j].0.0 == all@[m].0,
            decreases all@.len() - i,
        {
            let entry = all[i];
            let k = entry.0;
            let ghost r0 = r@;
            match entry.1 {
                StoredObject::Node(x) => {
                    let key = NodeKey(k);
                    proof {
                        assert forall|j: int| 0 <= j < r@.len() implies r@[j].0 != key by {
                            let m = choose|m: int| 0 <= m < i && #[trigger] all@[m].0 == r@[j].0.0;
                            assert(all@[m].0 != all@[i as int].0);
                        }
                    }
                    r.push((key, x));
                    proof {
                        assert(all@[i as int].0 == r@[r@.len() - 1].0.0);
                    }
                },
                _ => {},
            }
            proof {
                assert forall|m: int| 0 <= m < i + 1 && #[trigger] all@[m].1 is Node implies exists|j: int|
                    0 <= j < r@.len() && #[trigger] r@[j].0.0 == all@[m].0 by {
                    if m < i {
                        let j = choose|j: int| 0 <= j < r0.len() && #[trigger] r0[j].0.0 == all@[m].0;
                        assert(r@[j] == r0[j]);
                    } else {
                        assert(r@[r@.len() - 1].0.0 == all@[m].0);
                    }
                }
            }
            i = i + 1;
        }
        proof {
            assert forall|k: NodeKey| self@.nodes.contains_key(k) implies exists|j: int| 0 <= j < r@.len() && #[trigger] r@[j].0 == k by {
                let m = choose|m: int| 0 <= m < all@.len() && #[trigger] all@[m].0 == k.0;
                assert(all@[m].1 is Node);
                let j = choose|j: int| 0 <= j < r@.len() && #[trigger] r@[j].0.0 == all@[m].0;
                assert(r@[j].0 == k);
            }
        }
        r
    }

    /// Every way with its key, each once, in the order of the underlying slot map.
    pub fn iter_ways(&self) -> (r: Vec<(WayKey, &Way)>)
        requires
            self.wf(),
        ensures
            forall|i: int|
                0 <= i < r@.len() ==> self@.ways.contains_key(#[trigger] r@[i].0) && r@[i].1@ == self@.ways[r@[i].0],
            forall|i: int, j: int| 0 <= i < r@.len() && 0 <= j < r@.len() && i != j ==> #[trigger] r@[i].0 != #[trigger] r@[j].0,
            forall|k: WayKey| self@.ways.contains_key(k) ==> exists|i: int| 0 <= i < r@.len() && #[trigger] r@[i].0 == k,
    {
        let all = slots_iter(&self.objects);
        let mut r: Vec<(WayKey, &Way)> = Vec::new();
        let mut i: usize = 0;
        while i < all.len()
            invariant
                i <= all@.len(),
                self.wf(),
                forall|m: int|
                    0 <= m < all@.len() ==> ffi_key(#[trigger] all@[m].0) && self.slots().contains_key(all@[m].0)
                        && *all@[m].1 == self.slots()[all@[m].0],
                forall|m: int, n: int|
                    0 <= m < all@.len() && 0 <= n < all@.len() && m != n ==> #[trigger] all@[m].0 != #[trigger] all@[n].0,
                forall|j: int|
                    0 <= j < r@.len() ==> self@.ways.contains_key(#[trigger] r@[j].0) && r@[j].1@ == self@.ways[r@[j].0]
                        && exists|m: int| 0 <= m < i && #[trigger] all@[m].0 == r@[j].0.0,
                forall|j: int, n: int| 0 <= j < r@.len() && 0 <= n < r@.len() && j != n ==> #[trigger] r@[j].0 != #[trigger] r@[n].0,
                forall|m: int|
                    0 <= m < i && #[trigger] all@[m].1 is Way ==> exists|j: int| 0 <= j < r@.len() && #[trigger] r@[j].0.0 == all@[m].0,
            decreases all@.len() - i,
        {
            let entry = all[i];
            let k = entry.0;
            let ghost r0 = r@;
            match entry.1 {
                StoredObject::Way(x) => {
                    let key = WayKey(k);
                    proof {
                        assert forall|j: int| 0 <= j < r@.len() implies r@[j].0 != key by {
                            let m = choose|m: int| 0 <= m < i && #[trigger] all@[m].0 == r@[j].0.0;
                            assert(all@[m].0 != all@[i as int].0);
                        }
                    }
                    r.push((key, x));
                    proof {
                        assert(all@[i as int].0 == r@[r@.len() - 1].0.0);
                    }
                },
                _ => {},
            }
            proof {
                assert forall|m: int| 0 <= m < i + 1 && #[trigger] all@[m].1 is Way implies exists|j: int|
                    0 <= j < r@.len() && #[trigger] r@[j].0.0 == all@[m].0 by {
                    if m < i {
                        let j = choose|j: int| 0 <= j < r0.len() && #[trigger] r0[j].0.0 == all@[m].0;
                        assert(r@[j] == r0[j]);
                    } else {
                        assert(r@[r@.len() - 1].0.0 == all@[m].0);
                    }
                }
            }
            i = i + 1;
        }
        proof {
            assert forall|k: WayKey| self@.ways.contains_key(k) implies exists|j: int| 0 <= j < r@.len() && #[trigger] r@[j].0 == k by {
                let m = choose|m: int| 0 <= m < all@.len() && #[trigger] all@[m].0 == k.0;
                assert(all@[m].1 is Way);
                let j = choose|j: int| 0 <= j < r@.len() && #[trigger] r@[j].0.0 == all@[m].0;
                assert(r@[j].0 == k);
            }
        }
        r
    }

    /// Every area with its key, each once, in the order of the underlying slot map.
    pub fn iter_areas(&self) -> (r: Vec<(AreaKey, &Area)>)
        requires
            self.wf(),
        ensures
            forall|i: int|
                0 <= i < r@.len() ==> self@.areas.contains_key(#[trigger] r@[i].0) && r@[i].1@ == self@.areas[r@[i].0],
            forall|i: int, j: int| 0 <= i < r@.len() && 0 <= j < r@.len() && i != j ==> #[trigger] r@[i].0 != #[trigger] r@[j].0,
            forall|k: AreaKey| self@.areas.contains_key(k) ==> exists|i: int| 0 <= i < r@.len() && #[trigger] r@[i].0 == k,
    {
        let all = slots_iter(&self.objects);
        let mut r: Vec<(AreaKey, &Area)> = Vec::new();
        let mut i: usize = 0;
        while i < all.len()
            invariant
                i <= all@.len(),
                self.wf(),
                forall|m: int|
                    0 <= m < all@.len() ==> ffi_key(#[trigger] all@[m].0) && self.slots().contains_key(all@[m].0)
                        && *all@[m].1 == self.slots()[all@[m].0],
                forall|m: int, n: int|
                    0 <= m < all@.len() && 0 <= n < all@.len() && m != n ==> #[trigger] all@[m].0 != #[trigger] all@[n].0,
                forall|j: int|
                    0 <= j < r@.len() ==> self@.areas.contains_key(#[trigger] r@[j].0) && r@[j].1@ == self@.areas[r@[j].0]
                        && exists|m: int| 0 <= m < i && #[trigger] all@[m].0 == r@[j].0.0,
                forall|j: int, n: int| 0 <= j < r@.len() && 0 <= n < r@.len() && j != n ==> #[trigger] r@[j].0 != #[trigger] r@[n].0,
                forall|m: int|
                    0 <= m < i && #[trigger] all@[m].1 is Area ==> exists|j: int| 0 <= j < r@.len() && #[trigger] r@[j].0.0 == all@[m].0,
            decreases all@.len() - i,
        {
            let entry = all[i];
            let k = entry.0;
            let ghost r0 = r@;
            match entry.1 {
                StoredObject::Area(x) => {
                    let key = AreaKey(k);
                    proof {
                        assert forall|j: int| 0 <= j < r@.len() implies r@[j].0 != key by {
                            let m = choose|m: int| 0 <= m < i && #[trigger] all@[m].0 == r@[j].0.0;
                            assert(all@[m].0 != all@[i as int].0);
                        }
                    }
                    r.push((key, x));
                    proof {
                        assert(all@[i as int].0 == r@[r@.len() - 1].0.0);
                    }
                },
                _ => {},
            }
            proof {
                assert forall|m: int| 0 <= m < i + 1 && #[trigger] all@[m].1 is Area implies exists|j: int|
                    0 <= j < r@.len() && #[trigger] r@[j].0.0 == all@[m].0 by {
                    if m < i {
                        let j = choose|j: int| 0 <= j < r0.len() && #[trigger] r0[j].0.0 == all@[m].0;
                        assert(r@[j] == r0[j]);
                    } else {
                        assert(r@[r@.len() - 1].0.0 == all@[m].0);
                    }
                }
            }
            i = i + 1;
        }
        proof {
            assert forall|k: AreaKey| self@.areas.contains_key(k) implies exists|j: int| 0 <= j < r@.len() && #[trigger] r@[j].0 == k by {
                let m = choose|m: int| 0 <= m < all@.len() && #[trigger] all@[m].0 == k.0;
                assert(all@[m].1 is Area);
                let j = choose|j: int| 0 <= j < r@.len() && #[trigger] r@[j].0.0 == all@[m].0;
                assert(r@[j].0 == k);
            }
        }
        r
    }

    /// Every relation with its key, each once, in the order of the underlying slot map.
    pub fn iter_relations(&self) -> (r: Vec<(RelationKey, &Relation)>)
        requires
            self.wf(),
        ensures
            forall|i: int|
                0 <= i < r@.len() ==> self@.relations.contains_key(#[trigger] r@[i].0) && r@[i].1@ == self@.relations[r@[i].0],
            forall|i: int, j: int| 0 <= i < r@.len() && 0 <= j < r@.len() && i != j ==> #[trigger] r@[i].0 != #[trigger] r@[j].0,
            forall|k: RelationKey| self@.relations.contains_key(k) ==> exists|i: int| 0 <= i < r@.len() && #[trigger] r@[i].0 == k,
    {
        let all = slots_iter(&self.objects);
        let mut r: Vec<(RelationKey, &Relation)> = Vec::new();
        let mut i: usize = 0;
        while i < all.len()
            invariant
                i <= all@.len(),
                self.wf(),
                forall|m: int|
                    0 <= m < all@.len() ==> ffi_key(#[trigger] all@[m].0) && self.slots().contains_key(all@[m].0)
                        && *all@[m].1 == self.slots()[all@[m].0],
                forall|m: int, n: int|
                    0 <= m < all@.len() && 0 <= n < all@.len() && m != n ==> #[trigger] all@[m].0 != #[trigger] all@[n].0,
                forall|j: int|
                    0 <= j < r@.len() ==> self@.relations.contains_key(#[trigger] r@[j].0) && r@[j].1@ == self@.relations[r@[j].0]
                        && exists|m: int| 0 <= m < i && #[trigger] all@[m].0 == r@[j].0.0,
                forall|j: int, n: int| 0 <= j < r@.len() && 0 <= n < r@.len() && j != n ==> #[trigger] r@[j].0 != #[trigger] r@[n].0,
                forall|m: int|
                    0 <= m < i && #[trigger] all@[m].1 is Relation ==> exists|j: int| 0 <= j < r@.len() && #[trigger] r@[j].0.0 == all@[m].0,
            decreases all@.len() - i,
        {
            let entry = all[i];
            let k = entry.0;
            let ghost r0 = r@;
            match entry.1 {
                StoredObject::Relation(x) => {
                    let key = RelationKey(k);
                    proof {
                        assert forall|j: int| 0 <= j < r@.len() implies r@[j].0 != key by {
                            let m = choose|m: int| 0 <= m < i && #[trigger] all@[m].0 == r@[j].0.0;
                            assert(all@[m].0 != all@[i as int].0);
                        }
                    }
                    r.push((key, x));
                    proof {
                        assert(all@[i as int].0 == r@[r@.len() - 1].0.0);
                    }
                },
                _ => {},
            }
            proof {
                assert forall|m: int| 0 <= m < i + 1 && #[trigger] all@[m].1 is Relation implies exists|j: int|
                    0 <= j < r@.len() && #[trigger] r@[j].0.0 == all@[m].0 by {
                    if m < i {
                        let j = choose|j: int| 0 <= j < r0.len() && #[trigger] r0[j].0.0 == all@[m].0;
                        assert(r@[j] == r0[j]);
                    } else {
                        assert(r@[r@.len() - 1].0.0 == all@[m].0);
                    }
                }
            }
            i = i + 1;
        }
        proof {
            assert forall|k: RelationKey| self@.relations.contains_key(k) implies exists|j: int| 0 <= j < r@.len() && #[trigger] r@[j].0 == k by {
                let m = choose|m: int| 0 <= m < all@.len() && #[trigger] all@[m].0 == k.0;
                assert(all@[m].1 is Relation);
                let j = choose|j: int| 0 <= j < r@.len() && #[trigger] r@[j].0.0 == all@[m].0;
                assert(r@[j].0 == k);
            }
        }
        r
    }

    /// Every object with its key, each once, in the order of the underlying slot map.
    /// Every object with its key, each once: the nodes first, then the ways,
    /// the areas and the relations, each kind in the order of the underlying
    /// slot map.
    pub fn iter_objects(&self) -> (r: Vec<(ObjectKey, &StoredObject)>)
        requires
            self.wf(),
        ensures
            forall|i: int| 0 <= i < r@.len() ==> object_view_is(*r@[i].1, self@, #[trigger] r@[i].0),
            forall|i: int, j: int| 0 <= i < r@.len() && 0 <= j < r@.len() && i != j ==> #[trigger] r@[i].0 != #[trigger] r@[j].0,
            forall|k: ObjectKey| object_present(self@, k) ==> exists|i: int| 0 <= i < r@.len() && #[trigger] r@[i].0 == k,
            forall|i: int, j: int| 0 <= i < j < r@.len() ==> kind_rank(#[trigger] r@[i].0) <= kind_rank(#[trigger] r@[j].0),
    {
        let all = slots_iter(&self.objects);
        let mut r: Vec<(ObjectKey, &StoredObject)> = Vec::new();
        let ghost mut src: Seq<int> = Seq::empty();
        let mut rank: u8 = 0;
        while rank < 4
            invariant
                rank <= 4,
                self.wf(),
                forall|m: int|
                    0 <= m < all@.len() ==> ffi_key(#[trigger] all@[m].0) && self.slots().contains_key(all@[m].0)
                        && *all@[m].1 == self.slots()[all@[m].0],
                forall|m: int, n: int|
                    0 <= m < all@.len() && 0 <= n < all@.len() && m != n ==> #[trigger] all@[m].0 != #[trigger] all@[n].0,
                r@.len() == src.len(),
                forall|j: int| 0 <= j < src.len() ==> 0 <= #[trigger] src[j] < all@.len(),
                forall|j: int|
                    0 <= j < r@.len() ==> #[trigger] r@[j] == (key_of(all@[src[j]].0, *all@[src[j]].1), all@[src[j]].1),
                forall|j: int| 0 <= j < src.len() ==> stored_rank(*all@[#[trigger] src[j]].1) < rank,
                forall|j1: int, j2: int|
                    0 <= j1 < j2 < src.len() ==> stored_rank(*all@[#[trigger] src[j1]].1) < stored_rank(
                        *all@[#[trigger] src[j2]].1,
                    ) || (stored_rank(*all@[src[j1]].1) == stored_rank(*all@[src[j2]].1) && src[j1] < src[j2]),
                forall|m: int|
                    0 <= m < all@.len() && stored_rank(*all@[m].1) < rank ==> exists|j: int|
                        0 <= j < src.len() && #[trigger] src[j] == m,
            decreases 4 - rank,
        {
            let mut i: usize = 0;
            while i < all.len()
                invariant
                    rank < 4,
                    i <= all@.len(),
                    self.wf(),
                    forall|m: int|
                        0 <= m < all@.len() ==> ffi_key(#[trigger] all@[m].0) && self.slots().contains_key(all@[m].0)
                            && *all@[m].1 == self.slots()[all@[m].0],
                    r@.len() == src.len(),
                    forall|j: int| 0 <= j < src.len() ==> 0 <= #[trigger] src[j] < all@.len(),
                    forall|j: int|
                        0 <= j < r@.len() ==> #[trigger] r@[j] == (key_of(all@[src[j]].0, *all@[src[j]].1), all@[src[j]].1),
                    forall|j: int|
                        0 <= j < src.len() ==> stored_rank(*all@[#[trigger] src[j]].1) < rank || (stored_rank(
                            *all@[src[j]].1,
                        ) == rank && src[j] < i),
                    forall|j1: int, j2: int|
                        0 <= j1 < j2 < src.len() ==> stored_rank(*all@[#[trigger] src[j1]].1) < stored_rank(
                            *all@[#[trigger] src[j2]].1,
                        ) || (stored_rank(*all@[src[j1]].1) == stored_rank(*all@[src[j2]].1) && src[j1] < src[j2]),
                    forall|m: int|
                        0 <= m < all@.len() && (stored_rank(*all@[m].1) < rank || (stored_rank(*all@[m].1) == rank
                            && m < i)) ==> exists|j: int| 0 <= j < src.len() && #[trigger] src[j] == m,
                decreases all@.len() - i,
            {
                let entry = all[i];
                let k = entry.0;
                let (key, entry_rank) = match entry.1 {
                    StoredObject::Node(_) => (ObjectKey::Node(NodeKey(k)), 0u8),
                    StoredObject::Way(_) => (ObjectKey::Way(WayKey(k)), 1u8),
                    StoredObject::Area(_) => (ObjectKey::Area(AreaKey(k)), 2u8),
                    StoredObject::Relation(_) => (ObjectKey::Relation(RelationKey(k)), 3u8),
                };
                proof {
                    assert(stored_rank(*all@[i as int].1) == entry_rank as int);
                    assert(key == key_of(all@[i as int].0, *all@[i as int].1));
                }
                if entry_rank == rank {
                    let ghost src0 = src;
                    r.push((key, entry.1));
                    proof {
                        src = src.push(i as int);
                        assert forall|m: int|
                            0 <= m < all@.len() && (stored_rank(*all@[m].1) < rank || (stored_rank(*all@[m].1) == rank
                                && m < i + 1)) implies exists|j: int| 0 <= j < src.len() && #[trigger] src[j] == m by {
                            if m == i {
                                assert(src[src.len() - 1] == m);
                            } else {
                                let j = choose|j: int| 0 <= j < src0.len() && #[trigger] src0[j] == m;
                                assert(src[j] == m);
                            }
                        }
                    }
                } else {
                    proof {
                        assert forall|m: int|
                            0 <= m < all@.len() && (stored_rank(*all@[m].1) < rank || (stored_rank(*all@[m].1) == rank
                                && m < i + 1)) implies exists|j: int| 0 <= j < src.len() && #[trigger] src[j] == m by {
                            if m == i {
                                assert(stored_rank(*all@[m].1) != rank as int);
                            }
                        }
                    }
                }
                i = i + 1;
            }
            rank = rank + 1;
        }
        proof {
            assert forall|j: int| 0 <= j < r@.len() implies object_view_is(*r@[j].1, self@, #[trigger] r@[j].0) by {
                assert(r@[j] == (key_of(all@[src[j]].0, *all@[src[j]].1), all@[src[j]].1));
            }
            assert forall|j: int, n: int| 0 <= j < r@.len() && 0 <= n < r@.len() && j != n implies #[trigger] r@[j].0
                != #[trigger] r@[n].0 by {
                assert(r@[j] == (key_of(all@[src[j]].0, *all@[src[j]].1), all@[src[j]].1));
                assert(r@[n] == (key_of(all@[src[n]].0, *all@[src[n]].1), all@[src[n]].1));
                if j < n {
                    assert(src[j] != src[n]);
                } else {
                    assert(src[n] != src[j]);
                }
                assert(all@[src[j]].0 != all@[src[n]].0);
            }
            assert forall|k: ObjectKey| object_present(self@, k) implies exists|j: int| 0 <= j < r@.len() && #[trigger] r@[j].0 == k by {
                let raw = raw_key(k);
                assert(self.slots().contains_key(raw));
                let m = choose|m: int| 0 <= m < all@.len() && #[trigger] all@[m].0 == raw;
                assert(stored_rank(*all@[m].1) < 4);
                let j = choose|j: int| 0 <= j < src.len() && #[trigger] src[j] == m;
                assert(r@[j] == (key_of(all@[src[j]].0, *all@[src[j]].1), all@[src[j]].1));
                assert(r@[j].0 == k);
            }
            assert forall|i: int, j: int| 0 <= i < j < r@.len() implies kind_rank(#[trigger] r@[i].0) <= kind_rank(
                #[trigger] r@[j].0,
            ) by {
                assert(r@[i] == (key_of(all@[src[i]].0, *all@[src[i]].1), all@[src[i]].1));
                assert(r@[j] == (key_of(all@[src[j]].0, *all@[src[j]].1), all@[src[j]].1));
                assert(stored_rank(*all@[src[i]].1) <= stored_rank(*all@[src[j]].1));
            }
        }
        r
    }
}

/// Where a kind of object comes when all objects are listed: nodes, ways,
/// areas, relations.
pub open spec fn kind_rank(k: ObjectKey) -> int {
    match k {
        ObjectKey::Node(_) => 0,
        ObjectKey::Way(_) => 1,
        ObjectKey::Area(_) => 2,
        ObjectKey::Relation(_) => 3,
    }
}

/// The rank of the kind of a stored object.
spec fn stored_rank(o: StoredObject) -> int {
    match o {
        StoredObject::Node(_) => 0,
        StoredObject::Way(_) => 1,
        StoredObject::Area(_) => 2,
        StoredObject::Relation(_) => 3,
    }
}

/// The integer behind a key of any kind.
spec fn raw_key(k: ObjectKey) -> u64 {
    match k {
        ObjectKey::Node(x) => x.0,
        ObjectKey::Way(x) => x.0,
        ObjectKey::Area(x) => x.0,
        ObjectKey::Relation(x) => x.0,
    }
}

/// The key of the right kind for an object held under integer `k`.
spec fn key_of(k: u64, o: StoredObject) -> ObjectKey {
    match o {
        StoredObject::Node(_) => ObjectKey::Node(NodeKey(k)),
        StoredObject::Way(_) => ObjectKey::Way(WayKey(k)),
        StoredObject::Area(_) => ObjectKey::Area(AreaKey(k)),
        StoredObject::Relation(_) => ObjectKey::Relation(RelationKey(k)),
    }
}

} // verus!
