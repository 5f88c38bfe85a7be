use mapcss::area::{Area, AreaSource, Ring};
use mapcss::ids::{AreaId, IdProvider, NodeId, RelationId, WayId};
use mapcss::location::Location;
use mapcss::node::Node;
use mapcss::object::ObjectKey;
use mapcss::relation::RelationMember;
use mapcss::selector::{BasicSelector, ObjectType, SelectorAlternatives, SelectorChain};
use mapcss::span::Span;
use mapcss::storage::Storage;

fn storage() -> Storage {
    Storage::new(Span {
        northing_low_bits: 0,
        northing_high_bits: 1000.0f64.to_bits(),
        easting_low_bits: 0,
        easting_high_bits: 1000.0f64.to_bits(),
        utm_zone_number: 33,
        utm_zone_letter: 'U',
    })
}

fn chain(types: &[ObjectType]) -> SelectorChain {
    SelectorChain::new(types.iter().map(|t| BasicSelector::new(*t, vec![])).collect())
}

#[test]
fn object_types_match_kinds() {
    let mut storage = storage();
    let node = storage.insert_node(Node::new(None, Location::new(0, 0)));
    let way = storage.create_way(vec![node]);
    let way_area = storage.insert_area(Area::new(None, AreaSource::Way, vec![Ring::new_outer(vec![way])]));
    let relation_area = storage.insert_area(Area::new(None, AreaSource::Relation, vec![]));
    let plain_area = storage.create_area(vec![]);
    let relation = storage.create_relation(vec![]);

    let node = ObjectKey::Node(node);
    let way = ObjectKey::Way(way);
    let way_area = ObjectKey::Area(way_area);
    let relation_area = ObjectKey::Area(relation_area);
    let plain_area = ObjectKey::Area(plain_area);
    let relation = ObjectKey::Relation(relation);

    assert!(ObjectType::Node.matches(node, &storage));
    assert!(!ObjectType::Node.matches(way, &storage));
    assert!(ObjectType::Way.matches(way, &storage));
    assert!(ObjectType::Way.matches(way_area, &storage));
    assert!(!ObjectType::Way.matches(relation_area, &storage));
    assert!(ObjectType::Relation.matches(relation, &storage));
    assert!(ObjectType::Relation.matches(relation_area, &storage));
    assert!(!ObjectType::Relation.matches(plain_area, &storage));
    assert!(ObjectType::Area.matches(plain_area, &storage));
    assert!(!ObjectType::Area.matches(way, &storage));
    assert!(ObjectType::Line.matches(way, &storage));
    assert!(!ObjectType::Line.matches(way_area, &storage));
    for key in [node, way, way_area, relation_area, plain_area, relation] {
        assert!(!ObjectType::Canvas.matches(key, &storage));
        assert!(ObjectType::Any.matches(key, &storage));
    }
}

#[test]
fn chains_match_through_containing_objects() {
    let mut storage = storage();
    let node = storage.create_node(Location::new(0, 0));
    let lonely = storage.create_node(Location::new(0, 0));
    let way = storage.create_way(vec![node]);
    let area = storage.create_area(vec![Ring::new_outer(vec![way])]);
    let relation = storage.create_relation(vec![RelationMember::new(area, None)]);

    let node_key = ObjectKey::Node(node);
    let lonely_key = ObjectKey::Node(lonely);
    let way_key = ObjectKey::Way(way);

    assert!(chain(&[ObjectType::Node]).matches(node_key, &storage));
    assert!(chain(&[ObjectType::Way, ObjectType::Node]).matches(node_key, &storage));
    assert!(!chain(&[ObjectType::Way, ObjectType::Node]).matches(lonely_key, &storage));
    assert!(!chain(&[ObjectType::Relation, ObjectType::Node]).matches(node_key, &storage));
    assert!(chain(&[ObjectType::Area, ObjectType::Way]).matches(way_key, &storage));
    assert!(chain(&[ObjectType::Relation, ObjectType::Area, ObjectType::Way, ObjectType::Node]).matches(node_key, &storage));
    assert!(!chain(&[ObjectType::Area, ObjectType::Node]).matches(node_key, &storage));
    assert!(!chain(&[]).matches(node_key, &storage));

    let alternatives = SelectorAlternatives::new(vec![
        chain(&[ObjectType::Relation, ObjectType::Node]),
        chain(&[ObjectType::Area, ObjectType::Way, ObjectType::Node]),
    ]);
    assert!(alternatives.matches(node_key, &storage));
    assert!(!alternatives.matches(lonely_key, &storage));
    assert!(!SelectorAlternatives::new(vec![]).matches(node_key, &storage));
}

#[test]
fn basic_selectors_without_tests_match_by_type() {
    let mut storage = storage();
    let node = storage.create_node(Location::new(0, 0));
    let selector = BasicSelector::new(ObjectType::Node, vec![]);
    assert!(selector.matches(ObjectKey::Node(node), &storage));
    assert!(selector.tests().is_empty());
    assert_eq!(selector.object_type(), ObjectType::Node);
}

#[test]
fn id_provider_counts_up_across_kinds() {
    let mut ids = IdProvider::new();
    assert_eq!(ids.node(), NodeId::Custom(1));
    assert_eq!(ids.way(), WayId::Custom(2));
    assert_eq!(ids.area(), AreaId::Custom(3));
    assert_eq!(ids.relation(), RelationId::Custom(4));
    assert_eq!(ids.node(), NodeId::Custom(5));
}
