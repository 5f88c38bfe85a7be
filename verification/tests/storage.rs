use std::fmt::Debug;

use mapcss::area::{Area, AreaSource, Ring, RingRole};
use mapcss::location::Location;
use mapcss::node::Node;
use mapcss::object::{Object, ObjectKey};
use mapcss::relation::{Relation, RelationMember};
use mapcss::span::Span;
use mapcss::storage::{ObjectDeleteError, Storage};
use mapcss::way::Way;

fn location(northing: f64, easting: f64) -> Location {
    Location::new(northing.to_bits(), easting.to_bits())
}

/// The span of Prague, zone 33U.
fn create_storage() -> Storage {
    Storage::new(Span {
        northing_low_bits: 5532939.0f64.to_bits(),
        northing_high_bits: 5558536.0f64.to_bits(),
        easting_low_bits: 442014.0f64.to_bits(),
        easting_high_bits: 480071.0f64.to_bits(),
        utm_zone_number: 33,
        utm_zone_letter: 'U',
    })
}

fn assert_same_elements<T: PartialEq + Debug>(left: &[T], right: &[T]) {
    assert_eq!(left.len(), right.len(), "lengths do not match");
    for left_element in left {
        let left_count = left.iter().filter(|x| *x == left_element).count();
        let right_count = right.iter().filter(|x| *x == left_element).count();
        assert_eq!(left_count, right_count, "counts for element {:?} do not match", left_element);
    }
}

#[test]
fn object_insertion_and_manipulation() {
    let mut storage = create_storage();
    const NODE_COUNT: usize = 4;
    let node_locations = (0..4)
        .map(|i| location(111111.0 * i as f64, 222222.0 * i as f64))
        .collect::<Vec<_>>();
    let node_keys = node_locations
        .iter()
        .enumerate()
        .map(|(i, location)| storage.insert_node(Node::new(Some(i as i64), *location)))
        .collect::<Vec<_>>();
    for i in 0..NODE_COUNT {
        let key = node_keys[i];
        assert!(storage.contains_node(key));
        let node = storage.node(key);
        assert_eq!(node.location(), node_locations[i]);
        assert_eq!(node.osm_id(), Some(i as i64));
    }

    let way0 = Way::new(Some(10), vec![node_keys[0], node_keys[3], node_keys[1], node_keys[2]]);
    let way0_key = storage.insert_way(way0);
    assert!(storage.contains_way(way0_key));
    storage.remove_node_from_way(way0_key, 1);
    assert_eq!(storage.way(way0_key).nodes(), vec![node_keys[0], node_keys[1], node_keys[2]]);

    let way1 = Way::new(Some(11), vec![]);
    let way1_key = storage.insert_way(way1);
    storage.append_node_to_way(way1_key, node_keys[3]);
    storage.insert_node_to_way(way1_key, node_keys[2], 0);
    storage.insert_node_to_way(way1_key, node_keys[0], 2);
    assert_eq!(storage.way(way1_key).nodes(), vec![node_keys[2], node_keys[3], node_keys[0]]);

    let way2 = Way::new(Some(12), vec![node_keys[0], node_keys[1], node_keys[2], node_keys[0]]); // closed way
    let way2_key = storage.insert_way(way2);

    assert_same_elements(
        storage.node(node_keys[0]).containing_ways(),
        &[way0_key, way1_key, way2_key, way2_key],
    );
    assert_same_elements(storage.node(node_keys[1]).containing_ways(), &[way0_key, way2_key]);
    assert_same_elements(
        storage.node(node_keys[2]).containing_ways(),
        &[way0_key, way1_key, way2_key],
    );
    assert_same_elements(storage.node(node_keys[3]).containing_ways(), &[way1_key]);

    let area = Area::new(Some(20), AreaSource::Unspecified, vec![Ring::new_inner(vec![way0_key, way1_key])]);
    let area_key = storage.insert_area(area);
    assert!(storage.contains_area(area_key));

    storage.remove_ring_from_area(area_key, 0);
    storage.add_ring_to_area(area_key, Ring::new_outer(vec![way0_key, way1_key]));
    assert_same_elements(
        storage.area(area_key).rings(),
        &[Ring { role: RingRole::Outer, ways: vec![way0_key, way1_key] }],
    );

    assert_same_elements(storage.way(way0_key).formed_areas(), &[area_key]);
    assert_same_elements(storage.way(way1_key).formed_areas(), &[area_key]);

    let relation = Relation::new(
        Some(30),
        vec![
            RelationMember::new(node_keys[0], Some("first".into())),
            RelationMember::new(way0_key, None),
            RelationMember::new(area_key, Some("area".into())),
        ],
    );
    let relation_key = storage.insert_relation(relation);
    assert!(storage.contains_relation(relation_key));

    storage.insert_member_to_relation(relation_key, RelationMember::new(area_key, Some("also area".into())), 1);
    storage.append_member_to_relation(relation_key, RelationMember::new(relation_key, Some("itself".into())));
    storage.remove_member_from_relation(relation_key, 0);

    assert_eq!(
        storage.relation(relation_key).members(),
        &[
            RelationMember { object: ObjectKey::Area(area_key), role: Some("also area".into()) },
            RelationMember { object: ObjectKey::Way(way0_key), role: None },
            RelationMember { object: ObjectKey::Area(area_key), role: Some("area".into()) },
            RelationMember { object: ObjectKey::Relation(relation_key), role: Some("itself".into()) },
        ],
    );

    assert_same_elements(storage.node(node_keys[0]).containing_relations(), &[]);
    assert_same_elements(storage.way(way0_key).containing_relations(), &[relation_key]);
    assert_same_elements(storage.area(area_key).containing_relations(), &[relation_key, relation_key]);
    assert_same_elements(storage.relation(relation_key).containing_relations(), &[relation_key]);
}

#[test]
fn object_iteration() {
    let mut storage = create_storage();
    let node_key = storage.insert_node(Node::new(Some(1), location(12345.0, 67890.0)));
    let way_key = storage.insert_way(Way::new(Some(2), vec![]));
    let area_key = storage.insert_area(Area::new(Some(3), AreaSource::Unspecified, vec![]));
    let relation_key = storage.insert_relation(Relation::new(Some(4), vec![]));

    assert_same_elements(&storage.iter_nodes(), &[(node_key, storage.node(node_key))]);
    assert_same_elements(&storage.iter_ways(), &[(way_key, storage.way(way_key))]);
    assert_same_elements(&storage.iter_areas(), &[(area_key, storage.area(area_key))]);
    assert_same_elements(&storage.iter_relations(), &[(relation_key, storage.relation(relation_key))]);
    assert_same_elements(
        &storage
            .iter_objects()
            .into_iter()
            .map(|(key, obj)| (key, obj.osm_id()))
            .collect::<Vec<_>>(),
        &[
            (ObjectKey::Node(node_key), Some(1)),
            (ObjectKey::Way(way_key), Some(2)),
            (ObjectKey::Area(area_key), Some(3)),
            (ObjectKey::Relation(relation_key), Some(4)),
        ],
    );
}

#[test]
fn object_deletion() {
    let mut storage = create_storage();
    let node_key = storage.insert_node(Node::new(Some(0), location(12345.0, 67890.0)));
    let way_key = storage.insert_way(Way::new(Some(1), vec![node_key]));
    assert_eq!(storage.delete_node(node_key), Err(ObjectDeleteError::ContainedInWay));
    assert_eq!(storage.delete_way(way_key), Ok(Way::new(Some(1), vec![node_key])));
    assert_eq!(storage.iter_nodes().len(), 1);
    assert!(storage.contains_node(node_key));
    assert_eq!(storage.iter_ways().len(), 0);
    assert!(!storage.contains_way(way_key));
    assert!(storage.node(node_key).containing_ways().is_empty());
}

#[test]
fn deletion_errors_and_success() {
    let mut storage = create_storage();
    let node_key = storage.create_node(location(1.0, 2.0));
    let way_key = storage.create_way(vec![node_key, node_key]);
    let area_key = storage.create_area(vec![Ring::new_outer(vec![way_key])]);
    let relation_key = storage.create_relation(vec![RelationMember::new(area_key, None)]);
    let outer_key = storage.create_relation(vec![RelationMember::new(relation_key, None)]);
    assert_eq!(storage.len(), 5);

    assert_eq!(storage.delete_way(way_key), Err(ObjectDeleteError::ContainedInArea));
    assert_eq!(storage.delete_area(area_key), Err(ObjectDeleteError::ContainedInRelation));
    assert_eq!(storage.delete_relation(relation_key), Err(ObjectDeleteError::ContainedInRelation));
    assert!(ObjectDeleteError::ContainedInRelation.is_contained_in_object());

    let outer = storage.delete_relation(outer_key).unwrap();
    assert_eq!(outer.osm_id(), None);
    assert_eq!(storage.delete_relation(outer_key), Err(ObjectDeleteError::NotPresent));
    assert!(!ObjectDeleteError::NotPresent.is_contained_in_object());
    assert!(storage.relation(relation_key).containing_relations().is_empty());

    storage.delete_relation(relation_key).unwrap();
    assert!(storage.area(area_key).containing_relations().is_empty());
    storage.delete_area(area_key).unwrap();
    assert!(storage.way(way_key).formed_areas().is_empty());
    storage.delete_way(way_key).unwrap();
    assert!(storage.node(node_key).containing_ways().is_empty());
    assert!(storage.delete_node(node_key).is_ok());
    assert_eq!(storage.len(), 0);
}

#[test]
fn tags_and_locations_in_place() {
    let mut storage = create_storage();
    let node_key = storage.create_node(location(1.0, 2.0));
    let key = ObjectKey::Node(node_key);
    storage.set_tag(key, "highway".into(), "bus_stop".into());
    storage.set_tag(key, "name".into(), "Main".into());
    storage.set_tag(key, "name".into(), "Central".into());
    assert_eq!(storage.object(key).get_tag("name"), Some("Central"));
    assert!(storage.node(node_key).has_tag("highway"));
    storage.remove_tag(key, "highway");
    assert!(!storage.node(node_key).has_tag("highway"));
    assert_eq!(storage.node(node_key).get_tag("highway"), None);
    storage.set_node_location(node_key, location(3.0, 4.0));
    assert_eq!(storage.node(node_key).location(), location(3.0, 4.0));
}

#[test]
#[should_panic(expected = "invalid SlotMap key used")]
fn deleted_key_access() {
    let mut storage = create_storage();
    let node_key = storage.create_node(location(111.0, 222.0));
    assert!(storage.delete_node(node_key).is_ok());
    storage.create_node(location(333.0, 444.0));
    let _ = storage.node(node_key);
}

#[test]
fn objects_are_listed_by_kind() {
    let mut storage = create_storage();
    let relation_key = storage.insert_relation(Relation::new(Some(4), vec![]));
    let area_key = storage.insert_area(Area::new(Some(3), AreaSource::Unspecified, vec![]));
    let way_key = storage.insert_way(Way::new(Some(2), vec![]));
    let node_key = storage.insert_node(Node::new(Some(1), location(12345.0, 67890.0)));
    assert_eq!(
        storage
            .iter_objects()
            .into_iter()
            .map(|(key, obj)| (key, obj.osm_id()))
            .collect::<Vec<_>>(),
        vec![
            (ObjectKey::Node(node_key), Some(1)),
            (ObjectKey::Way(way_key), Some(2)),
            (ObjectKey::Area(area_key), Some(3)),
            (ObjectKey::Relation(relation_key), Some(4)),
        ],
    );
}

#[test]
fn removing_a_link_moves_the_last_back_reference_into_its_place() {
    let mut storage = create_storage();
    let node_key = storage.create_node(location(1.0, 2.0));
    let w1 = storage.create_way(vec![node_key]);
    let w2 = storage.create_way(vec![node_key]);
    let w3 = storage.create_way(vec![node_key]);
    assert_eq!(storage.node(node_key).containing_ways(), &[w1, w2, w3]);
    storage.remove_node_from_way(w1, 0);
    assert_eq!(storage.node(node_key).containing_ways(), &[w3, w2]);
}

#[test]
fn inserted_objects_are_appended_to_back_references() {
    let mut storage = create_storage();
    let n0 = storage.create_node(location(1.0, 1.0));
    let n1 = storage.create_node(location(2.0, 2.0));
    let n2 = storage.create_node(location(3.0, 3.0));
    let w1 = storage.create_way(vec![n1]);
    let closed = storage.create_way(vec![n0, n1, n2, n0]);
    assert_eq!(storage.node(n0).containing_ways(), &[closed, closed]);
    assert_eq!(storage.node(n1).containing_ways(), &[w1, closed]);
    assert_eq!(storage.node(n2).containing_ways(), &[closed]);

    let a1 = storage.create_area(vec![Ring::new_outer(vec![w1])]);
    let a2 = storage.create_area(vec![Ring::new_outer(vec![closed]), Ring::new_inner(vec![w1])]);
    assert_eq!(storage.way(w1).formed_areas(), &[a1, a2]);
    storage.add_ring_to_area(a1, Ring::new_inner(vec![w1, closed]));
    assert_eq!(storage.way(w1).formed_areas(), &[a1, a2, a1]);
    assert_eq!(storage.way(closed).formed_areas(), &[a2, a1]);

    let r1 = storage.create_relation(vec![RelationMember::new(n0, None), RelationMember::new(w1, None)]);
    let r2 = storage.create_relation(vec![
        RelationMember::new(w1, None),
        RelationMember::new(w1, Some("again".to_string())),
        RelationMember::new(r1, None),
    ]);
    assert_eq!(storage.object(ObjectKey::Way(w1)).containing_relations(), &[r1, r2, r2]);
    assert_eq!(storage.object(ObjectKey::Node(n0)).containing_relations(), &[r1]);
    assert_eq!(storage.object(ObjectKey::Relation(r1)).containing_relations(), &[r2]);
}

#[test]
fn deleting_an_object_swap_removes_each_of_its_back_references() {
    let mut storage = create_storage();
    let n = storage.create_node(location(1.0, 1.0));
    let w2 = storage.create_way(vec![n, n]);
    let w1 = storage.create_way(vec![n]);
    let w3 = storage.create_way(vec![n]);
    assert_eq!(storage.node(n).containing_ways(), &[w2, w2, w1, w3]);
    assert!(storage.delete_way(w2).is_ok());
    assert_eq!(storage.node(n).containing_ways(), &[w3, w1]);

    let a2 = storage.create_area(vec![Ring::new_outer(vec![w1]), Ring::new_inner(vec![w1])]);
    let a1 = storage.create_area(vec![Ring::new_outer(vec![w1])]);
    let a3 = storage.create_area(vec![Ring::new_outer(vec![w1])]);
    assert_eq!(storage.way(w1).formed_areas(), &[a2, a2, a1, a3]);
    assert!(storage.delete_area(a2).is_ok());
    assert_eq!(storage.way(w1).formed_areas(), &[a3, a1]);

    let r2 = storage.create_relation(vec![RelationMember::new(n, None), RelationMember::new(n, None)]);
    let r1 = storage.create_relation(vec![RelationMember::new(n, None)]);
    let r3 = storage.create_relation(vec![RelationMember::new(n, None)]);
    assert_eq!(storage.object(ObjectKey::Node(n)).containing_relations(), &[r2, r2, r1, r3]);
    assert!(storage.delete_relation(r2).is_ok());
    assert_eq!(storage.object(ObjectKey::Node(n)).containing_relations(), &[r3, r1]);
}
