use osmpoi::bbox::BoundingBox;
use osmpoi::element::{Decoded, Element, Node, Relation, Way};
use osmpoi::error::{BuildError, Constraint, DecodeError};
use osmpoi::ingest::dump;
use osmpoi::pipeline::build_pois;
use osmpoi::poi::{refine, Poi, PoiType};
use osmpoi::relations::cal_relations;
use osmpoi::store::{NodeRow, RawStore, RefKind, Reference};
use osmpoi::tags::Tag;
use osmpoi::ways::cal_ways;

fn tags(pairs: &[(&str, &str)]) -> Vec<Tag> {
    pairs.iter().map(|(k, v)| Tag { key: k.to_string(), value: v.to_string() }).collect()
}

fn node(id: i64, lat: i32, lon: i32, t: &[(&str, &str)]) -> Decoded {
    Ok(Element::Node(Node { id, decimicro_lat: lat, decimicro_lon: lon, tags: tags(t) }))
}

fn way(id: i64, nodes: &[i64], t: &[(&str, &str)]) -> Decoded {
    Ok(Element::Way(Way { id, nodes: nodes.to_vec(), tags: tags(t) }))
}

fn rel(id: i64, refs: &[(RefKind, i64)], t: &[(&str, &str)]) -> Decoded {
    let refs = refs.iter().map(|(kind, id)| Reference { id: *id, kind: *kind }).collect();
    Ok(Element::Relation(Relation { id, refs, tags: tags(t) }))
}

fn bb(lat_lb: i32, lon_lb: i32, lat_rt: i32, lon_rt: i32) -> BoundingBox {
    BoundingBox { lat_lb, lon_lb, lat_rt, lon_rt }
}

fn resolved(stream: Vec<Decoded>) -> Result<RawStore, BuildError> {
    cal_relations(cal_ways(dump(stream)?)?)
}

fn sample() -> Vec<Decoded> {
    vec![
        node(1, 10, 100, &[("name", "one")]),
        node(2, 30, 50, &[]),
        node(3, -20, 70, &[("description", "three")]),
        node(4, 5, -300, &[("old_name", "four")]),
        way(10, &[1, 2], &[("name:en", "road")]),
        way(11, &[3, 2, 99], &[("highway", "path")]),
        rel(20, &[(RefKind::Node, 4), (RefKind::Way, 10)], &[("name", "town")]),
        rel(21, &[(RefKind::Relation, 22), (RefKind::Way, 11)], &[("name", "county")]),
        rel(22, &[(RefKind::Relation, 20), (RefKind::Node, 3)], &[("note", "inner")]),
    ]
}

#[test]
fn dump_stores_one_row_per_element_in_order() {
    let store = dump(sample()).unwrap();
    assert_eq!(store.nodes().len(), 4);
    assert_eq!(store.ways().len(), 2);
    assert_eq!(store.relations().len(), 3);
    assert_eq!(
        store.nodes()[0],
        NodeRow {
            node_id: 1,
            lat: 10,
            lon: 100,
            has_name: true,
            tags: "{\"name\":\"one\"}".to_string()
        }
    );
    assert_eq!(store.nodes()[1].tags, "{}");
    assert!(!store.nodes()[1].has_name);
    assert!(!store.nodes()[2].has_name);
    assert!(store.nodes()[3].has_name);
    let w = &store.ways()[1];
    assert_eq!(w.way_id, 11);
    assert_eq!(w.nodes, vec![3, 2, 99]);
    assert_eq!(w.bbox, bb(0, 0, 0, 0));
    assert!(!w.has_name);
    assert_eq!(w.tags, "{\"highway\":\"path\"}");
    let r = &store.relations()[1];
    assert_eq!(r.relation_id, 21);
    assert!(!r.dep);
    assert_eq!(r.bbox, bb(0, 0, 0, 0));
    assert!(r.has_name);
    assert_eq!(
        r.refs,
        vec![
            Reference { id: 22, kind: RefKind::Relation },
            Reference { id: 11, kind: RefKind::Way }
        ]
    );
}

#[test]
fn dump_of_nothing_is_empty() {
    let store = dump(Vec::new()).unwrap();
    assert!(store.nodes().is_empty());
    assert!(store.ways().is_empty());
    assert!(store.relations().is_empty());
}

#[test]
fn dump_aborts_on_decode_error() {
    let mut stream = sample();
    stream.insert(2, Err(DecodeError { message: "truncated".to_string() }));
    stream.push(Err(DecodeError { message: "second".to_string() }));
    assert_eq!(
        dump(stream).unwrap_err(),
        BuildError::Decode(DecodeError { message: "truncated".to_string() })
    );
}

#[test]
fn dump_refuses_negative_identifiers() {
    assert_eq!(
        dump(vec![node(-1, 0, 0, &[])]).unwrap_err(),
        BuildError::SchemaViolation(-1, Constraint::NegativeId)
    );
    assert_eq!(
        dump(vec![way(-2, &[1], &[])]).unwrap_err(),
        BuildError::SchemaViolation(-2, Constraint::NegativeId)
    );
    assert_eq!(
        dump(vec![way(2, &[1, -1], &[])]).unwrap_err(),
        BuildError::SchemaViolation(2, Constraint::NegativeId)
    );
    assert_eq!(
        dump(vec![rel(-3, &[], &[])]).unwrap_err(),
        BuildError::SchemaViolation(-3, Constraint::NegativeId)
    );
    assert_eq!(
        dump(vec![rel(3, &[(RefKind::Way, -7)], &[])]).unwrap_err(),
        BuildError::SchemaViolation(3, Constraint::NegativeId)
    );
}

#[test]
fn dump_refuses_positions_off_the_globe() {
    assert!(dump(vec![node(1, 900_000_000, -1_800_000_000, &[])]).is_ok());
    assert!(dump(vec![node(1, -900_000_000, 1_800_000_000, &[])]).is_ok());
    for (lat, lon) in [
        (900_000_001, 0),
        (-900_000_001, 0),
        (0, 1_800_000_001),
        (0, -1_800_000_001),
    ] {
        assert_eq!(
            dump(vec![node(1, lat, lon, &[])]).unwrap_err(),
            BuildError::SchemaViolation(1, Constraint::CoordinateRange)
        );
    }
}

#[test]
fn dump_refuses_duplicates_within_a_kind_only() {
    assert!(dump(vec![node(1, 0, 0, &[]), way(1, &[1], &[]), rel(1, &[], &[])]).is_ok());
    assert_eq!(
        dump(vec![node(1, 0, 0, &[]), node(2, 0, 0, &[]), node(1, 5, 5, &[])]).unwrap_err(),
        BuildError::SchemaViolation(1, Constraint::DuplicateId)
    );
    assert_eq!(
        dump(vec![way(4, &[], &[]), way(4, &[], &[])]).unwrap_err(),
        BuildError::SchemaViolation(4, Constraint::DuplicateId)
    );
    assert_eq!(
        dump(vec![rel(5, &[], &[]), node(5, 0, 0, &[]), rel(5, &[], &[])]).unwrap_err(),
        BuildError::SchemaViolation(5, Constraint::DuplicateId)
    );
}

#[test]
fn insert_adds_to_the_table_of_the_kind() {
    let store = RawStore::new();
    let store = store
        .insert(Element::Node(Node { id: 7, decimicro_lat: 1, decimicro_lon: 2, tags: Vec::new() }))
        .unwrap();
    assert_eq!(store.nodes().len(), 1);
    assert_eq!(store.nodes()[0].node_id, 7);
    let again =
        store.insert(Element::Node(Node { id: 7, decimicro_lat: 3, decimicro_lon: 4, tags: Vec::new() }));
    assert_eq!(again.unwrap_err(), BuildError::SchemaViolation(7, Constraint::DuplicateId));
}

#[test]
fn way_box_spans_its_member_nodes() {
    let store = cal_ways(dump(sample()).unwrap()).unwrap();
    assert_eq!(store.ways()[0].bbox, bb(10, 50, 30, 100));
    assert_eq!(store.ways()[1].bbox, bb(-20, 50, 30, 70));
    for w in store.ways() {
        for n in store.nodes() {
            if w.nodes.contains(&n.node_id) {
                assert!(w.bbox.lat_lb <= n.lat && n.lat <= w.bbox.lat_rt);
                assert!(w.bbox.lon_lb <= n.lon && n.lon <= w.bbox.lon_rt);
            }
        }
    }
    assert_eq!(store.ways()[0].tags, "{\"name:en\":\"road\"}");
    assert_eq!(store.nodes().len(), 4);
    assert_eq!(store.relations().len(), 3);
}

#[test]
fn way_of_one_node_is_a_point() {
    let store = cal_ways(dump(vec![node(1, -7, 9, &[]), way(2, &[1, 1], &[])]).unwrap()).unwrap();
    assert_eq!(store.ways()[0].bbox, bb(-7, 9, -7, 9));
}

#[test]
fn way_without_known_member_is_degenerate() {
    let stream = vec![
        node(1, 0, 0, &[]),
        way(5, &[1], &[]),
        way(6, &[2, 3], &[]),
        way(7, &[], &[]),
    ];
    assert_eq!(cal_ways(dump(stream).unwrap()).unwrap_err(), BuildError::DegenerateGeometry(6));
    let stream = vec![node(1, 0, 0, &[]), way(7, &[], &[])];
    assert_eq!(cal_ways(dump(stream).unwrap()).unwrap_err(), BuildError::DegenerateGeometry(7));
}

#[test]
fn relation_box_merges_nodes_ways_and_relations() {
    let store = resolved(sample()).unwrap();
    let r = store.relations();
    assert!(r.iter().all(|x| x.dep));
    // node 4 and way 10
    assert_eq!(r[0].bbox, bb(5, -300, 30, 100));
    // relation 22 and way 11
    assert_eq!(r[1].bbox, bb(-20, -300, 30, 100));
    // relation 20 and node 3
    assert_eq!(r[2].bbox, bb(-20, -300, 30, 100));
}

#[test]
fn relation_of_one_kind_of_source() {
    let stream = vec![
        node(1, 1, 2, &[]),
        node(2, 3, -4, &[]),
        way(1, &[1, 2], &[]),
        rel(1, &[(RefKind::Node, 2)], &[]),
        rel(2, &[(RefKind::Way, 1)], &[]),
        rel(3, &[(RefKind::Relation, 1)], &[]),
    ];
    let store = resolved(stream).unwrap();
    assert_eq!(store.relations()[0].bbox, bb(3, -4, 3, -4));
    assert_eq!(store.relations()[1].bbox, bb(1, -4, 3, 2));
    assert_eq!(store.relations()[2].bbox, bb(3, -4, 3, -4));
}

#[test]
fn relations_resolve_through_a_deep_chain() {
    // each relation depends on the one after it: one sweep resolves one
    let mut stream = vec![node(1, 11, 22, &[])];
    for id in 0..6 {
        stream.push(rel(id, &[(RefKind::Relation, id + 1)], &[]));
    }
    stream.push(rel(6, &[(RefKind::Node, 1)], &[]));
    let store = resolved(stream).unwrap();
    assert_eq!(store.relations().len(), 7);
    for r in store.relations() {
        assert!(r.dep);
        assert_eq!(r.bbox, bb(11, 22, 11, 22));
    }
}

#[test]
fn references_to_missing_elements_are_ignored() {
    let stream = vec![
        node(1, 4, 5, &[]),
        rel(
            1,
            &[(RefKind::Relation, 77), (RefKind::Way, 78), (RefKind::Node, 79), (RefKind::Node, 1)],
            &[],
        ),
    ];
    let store = resolved(stream).unwrap();
    assert_eq!(store.relations()[0].bbox, bb(4, 5, 4, 5));
}

#[test]
fn relation_cycle_is_an_unresolved_dependency() {
    let stream = vec![
        node(1, 0, 0, &[]),
        rel(1, &[(RefKind::Relation, 2), (RefKind::Node, 1)], &[]),
        rel(2, &[(RefKind::Relation, 1), (RefKind::Node, 1)], &[]),
    ];
    assert_eq!(resolved(stream).unwrap_err(), BuildError::UnresolvedDependency(vec![1, 2]));
}

#[test]
fn relation_that_refers_to_itself_never_resolves() {
    let stream = vec![node(1, 0, 0, &[]), rel(9, &[(RefKind::Relation, 9)], &[])];
    assert_eq!(resolved(stream).unwrap_err(), BuildError::UnresolvedDependency(vec![9]));
}

#[test]
fn relations_that_wait_for_a_cycle_are_reported_too() {
    let stream = vec![
        node(1, 0, 0, &[]),
        rel(5, &[(RefKind::Node, 1)], &[]),
        rel(4, &[(RefKind::Relation, 3)], &[]),
        rel(3, &[(RefKind::Relation, 2)], &[]),
        rel(2, &[(RefKind::Relation, 3), (RefKind::Relation, 5)], &[]),
    ];
    assert_eq!(resolved(stream).unwrap_err(), BuildError::UnresolvedDependency(vec![4, 3, 2]));
}

#[test]
fn relation_without_sources_is_degenerate() {
    let stream = vec![
        node(1, 0, 0, &[]),
        rel(1, &[(RefKind::Node, 1)], &[]),
        rel(2, &[(RefKind::Node, 5), (RefKind::Way, 5), (RefKind::Relation, 5)], &[]),
        rel(3, &[], &[]),
    ];
    assert_eq!(resolved(stream).unwrap_err(), BuildError::DegenerateGeometry(2));
    let stream = vec![rel(3, &[], &[])];
    assert_eq!(resolved(stream).unwrap_err(), BuildError::DegenerateGeometry(3));
}

#[test]
fn degenerate_relation_is_reported_before_a_cycle() {
    let stream = vec![
        rel(1, &[(RefKind::Relation, 2)], &[]),
        rel(2, &[(RefKind::Relation, 1)], &[]),
        rel(3, &[], &[]),
    ];
    assert_eq!(resolved(stream).unwrap_err(), BuildError::DegenerateGeometry(3));
}

#[test]
fn resolving_twice_changes_nothing() {
    let once = resolved(sample()).unwrap();
    let boxes: Vec<BoundingBox> = once.relations().iter().map(|r| r.bbox).collect();
    let twice = cal_relations(once).unwrap();
    let again: Vec<BoundingBox> = twice.relations().iter().map(|r| r.bbox).collect();
    assert_eq!(boxes, again);
}

#[test]
fn refine_keeps_named_elements_only() {
    let pois = refine(resolved(sample()).unwrap());
    assert_eq!(
        pois,
        vec![
            Poi {
                poi_type: PoiType::Point,
                lat: 10,
                lon: 100,
                d_lat: 0,
                d_lon: 0,
                tags: "{\"name\":\"one\"}".to_string()
            },
            Poi {
                poi_type: PoiType::Point,
                lat: 5,
                lon: -300,
                d_lat: 0,
                d_lon: 0,
                tags: "{\"old_name\":\"four\"}".to_string()
            },
            Poi {
                poi_type: PoiType::Area,
                lat: 20,
                lon: 75,
                d_lat: 10,
                d_lon: 25,
                tags: "{\"name:en\":\"road\"}".to_string()
            },
            Poi {
                poi_type: PoiType::Area,
                lat: 17,
                lon: -100,
                d_lat: 12,
                d_lon: 200,
                tags: "{\"name\":\"town\"}".to_string()
            },
            Poi {
                poi_type: PoiType::Area,
                lat: 5,
                lon: -100,
                d_lat: 25,
                d_lon: 200,
                tags: "{\"name\":\"county\"}".to_string()
            },
        ]
    );
}

#[test]
fn element_with_description_only_is_no_poi() {
    let stream = vec![
        node(1, 1, 1, &[("description", "a place")]),
        node(2, 2, 2, &[("old_name", "Old")]),
        node(3, 3, 3, &[("name:en", "New")]),
    ];
    let store = dump(stream).unwrap();
    assert!(!store.nodes()[0].has_name);
    assert!(store.nodes()[1].has_name);
    assert!(store.nodes()[2].has_name);
    let pois = refine(store);
    assert_eq!(pois.len(), 2);
    assert!(pois.iter().all(|p| !p.tags.contains("description")));
}

#[test]
fn midpoint_rounds_towards_zero() {
    let stream = vec![
        node(1, -3, -8, &[]),
        node(2, 0, 1, &[]),
        node(3, 4, 5, &[]),
        way(1, &[1, 2], &[("name", "w")]),
        way(2, &[2, 3], &[("name", "v")]),
    ];
    let pois = refine(resolved(stream).unwrap());
    // box (-3, -8) .. (0, 1): sums -3 and -7, spans 3 and 9
    assert_eq!((pois[0].lat, pois[0].lon, pois[0].d_lat, pois[0].d_lon), (-1, -3, 1, 4));
    // box (0, 1) .. (4, 5): sums 4 and 6, spans 4 and 4
    assert_eq!((pois[1].lat, pois[1].lon, pois[1].d_lat, pois[1].d_lon), (2, 3, 2, 2));
}

#[test]
fn pois_at_the_edge_of_the_globe() {
    let stream = vec![
        node(1, -900_000_000, -1_800_000_000, &[]),
        node(2, 900_000_000, 1_800_000_000, &[]),
        way(1, &[1, 2], &[("name", "world")]),
    ];
    let pois = refine(resolved(stream).unwrap());
    assert_eq!(pois.len(), 1);
    assert_eq!((pois[0].lat, pois[0].lon), (0, 0));
    assert_eq!((pois[0].d_lat, pois[0].d_lon), (900_000_000, 1_800_000_000));
}

#[test]
fn build_runs_all_stages() {
    let pois = build_pois(sample()).unwrap();
    assert_eq!(pois, refine(resolved(sample()).unwrap()));
    assert_eq!(pois.len(), 5);
}

#[test]
fn build_is_idempotent() {
    let first = build_pois(sample()).unwrap();
    let second = build_pois(sample()).unwrap();
    assert_eq!(first, second);
}

#[test]
fn build_reports_the_failing_stage() {
    assert_eq!(
        build_pois(vec![Err(DecodeError { message: "x".to_string() })]).unwrap_err(),
        BuildError::Decode(DecodeError { message: "x".to_string() })
    );
    assert_eq!(
        build_pois(vec![node(1, 0, 0, &[]), node(1, 0, 0, &[])]).unwrap_err(),
        BuildError::SchemaViolation(1, Constraint::DuplicateId)
    );
    assert_eq!(
        build_pois(vec![way(3, &[1], &[]), rel(1, &[], &[])]).unwrap_err(),
        BuildError::DegenerateGeometry(3)
    );
    assert_eq!(build_pois(vec![rel(1, &[], &[])]).unwrap_err(), BuildError::DegenerateGeometry(1));
    assert_eq!(
        build_pois(vec![rel(1, &[(RefKind::Relation, 1)], &[("name", "loop")])]).unwrap_err(),
        BuildError::UnresolvedDependency(vec![1])
    );
}

#[test]
fn rows_are_found_by_identifier() {
    let store = dump(sample()).unwrap();
    assert_eq!(store.node_at(3), Some(2));
    assert_eq!(store.node_at(10), None);
    assert_eq!(store.way_at(11), Some(1));
    assert_eq!(store.way_at(1), None);
    assert_eq!(store.relation_at(22), Some(2));
    assert_eq!(store.relation_at(10), None);
}
