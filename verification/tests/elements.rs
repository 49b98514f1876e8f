use osmpoi::element::{count, count_osm, Decoded, Element, Node, OsmCount, Relation, Way};
use osmpoi::error::{BuildError, DecodeError};
use osmpoi::path::{has_extract_suffix, sqlite_url_from_path};
use osmpoi::store::{RefKind, Reference};
use osmpoi::tags::{key_has_name, tags_has_name, tags_to_json_string, Tag};

fn tag(key: &str, value: &str) -> Tag {
    Tag { key: key.to_string(), value: value.to_string() }
}

/// create a new empty osm node
fn new_osm_node() -> Node {
    Node { id: 0, decimicro_lat: 0, decimicro_lon: 0, tags: Vec::new() }
}

fn way(id: i64) -> Element {
    Element::Way(Way { id, nodes: vec![1, 2], tags: Vec::new() })
}

fn relation(id: i64) -> Element {
    Element::Relation(Relation {
        id,
        refs: vec![Reference { id: 1, kind: RefKind::Node }],
        tags: Vec::new(),
    })
}

/// whether OsmCount struct add up correctly
#[test]
fn osmcount_incr() {
    let mut count = OsmCount::new();
    let obj = Element::Node(new_osm_node());
    count.incr(&obj);
    assert_eq!(count.node, 1);
}

#[test]
fn osmcount_new_is_zero() {
    assert_eq!(OsmCount::new(), OsmCount { node: 0, way: 0, relation: 0 });
}

#[test]
fn osmcount_incr_by_kind() {
    let mut count = OsmCount::new();
    count.incr(&way(1));
    count.incr(&relation(2));
    count.incr(&relation(3));
    assert_eq!(count, OsmCount { node: 0, way: 1, relation: 2 });
}

#[test]
fn get_pbf_from_file() {
    assert!(!has_extract_suffix("name.mp3"), "mp3 file should not be read");
    assert!(!has_extract_suffix("name.osm"), "osm only file should not be read");
    assert!(!has_extract_suffix("name.pbf"), "pbf only file should not be read");
    assert!(has_extract_suffix("name.osm.pbf"), "osm.pbf file should be read");
}

#[test]
fn extract_suffix_edge_cases() {
    assert!(has_extract_suffix(".osm.pbf"));
    assert!(!has_extract_suffix("osm.pbf"));
    assert!(!has_extract_suffix(""));
    assert!(!has_extract_suffix("name.osm.pbf.bak"));
    assert!(has_extract_suffix("/data/\u{00e9}t\u{00e9}.osm.pbf"));
}

#[test]
fn count_by_kind() {
    let stream: Vec<Decoded> = vec![
        Ok(Element::Node(new_osm_node())),
        Ok(way(1)),
        Ok(Element::Node(new_osm_node())),
        Ok(relation(1)),
        Ok(Element::Node(new_osm_node())),
    ];
    assert_eq!(count(&stream), Ok(OsmCount { node: 3, way: 1, relation: 1 }));
}

#[test]
fn count_of_nothing() {
    assert_eq!(count(&Vec::new()), Ok(OsmCount { node: 0, way: 0, relation: 0 }));
}

#[test]
fn count_stops_at_first_decode_error() {
    let stream: Vec<Decoded> = vec![
        Ok(way(1)),
        Err(DecodeError { message: "bad blob".to_string() }),
        Err(DecodeError { message: "later".to_string() }),
    ];
    assert_eq!(
        count(&stream),
        Err(BuildError::Decode(DecodeError { message: "bad blob".to_string() }))
    );
}

#[test]
fn count_osm_checks_the_path_first() {
    let stream: Vec<Decoded> = vec![Ok(way(1)), Ok(relation(2))];
    assert_eq!(count_osm("planet.osm", &stream), Err(BuildError::Path));
    assert_eq!(
        count_osm("planet.osm.pbf", &stream),
        Ok(OsmCount { node: 0, way: 1, relation: 1 })
    );
    let broken: Vec<Decoded> = vec![Err(DecodeError { message: "eof".to_string() })];
    assert_eq!(count_osm("planet.mp3", &broken), Err(BuildError::Path));
    assert_eq!(
        count_osm("planet.osm.pbf", &broken),
        Err(BuildError::Decode(DecodeError { message: "eof".to_string() }))
    );
}

#[test]
fn sqlite_url() {
    assert_eq!(sqlite_url_from_path("data/x.osm.poi"), "sqlite:///data/x.osm.poi");
    assert_eq!(sqlite_url_from_path(""), "sqlite:///");
}

#[test]
fn name_keys_are_recognised() {
    assert!(key_has_name("name"));
    assert!(key_has_name("old_name"));
    assert!(key_has_name("name:en"));
    assert!(key_has_name("nname"));
    assert!(key_has_name("nanamename"));
    assert!(!key_has_name("description"));
    assert!(!key_has_name("nam"));
    assert!(!key_has_name("n-a-m-e"));
    assert!(!key_has_name("Name"));
    assert!(!key_has_name(""));
    assert!(key_has_name("\u{540d}\u{524d}name"));
}

#[test]
fn tags_with_name_key_have_name() {
    assert!(tags_has_name(&vec![tag("highway", "primary"), tag("old_name", "x")]));
    assert!(tags_has_name(&vec![tag("name:en", "x")]));
    assert!(!tags_has_name(&vec![tag("description", "a name in the value")]));
    assert!(!tags_has_name(&Vec::new()));
}

#[test]
fn tags_become_a_json_object() {
    assert_eq!(tags_to_json_string(&Vec::new()), "{}");
    assert_eq!(tags_to_json_string(&vec![tag("name", "Caf\u{e9}")]), "{\"name\":\"Caf\u{e9}\"}");
    assert_eq!(
        tags_to_json_string(&vec![tag("b", "2"), tag("a", "1")]),
        "{\"a\":\"1\",\"b\":\"2\"}"
    );
    assert_eq!(
        tags_to_json_string(&vec![tag("k", "say \"hi\"\n")]),
        "{\"k\":\"say \\\"hi\\\"\\n\"}"
    );
}

#[test]
fn later_tag_with_same_key_wins() {
    assert_eq!(tags_to_json_string(&vec![tag("k", "1"), tag("k", "2")]), "{\"k\":\"2\"}");
}

#[test]
fn json_text_parses_back_to_the_tags() {
    let text = tags_to_json_string(&vec![tag("name", "A"), tag("amenity", "bar")]);
    let value: serde_json::Value = serde_json::from_str(&text).unwrap();
    let object = value.as_object().unwrap();
    assert_eq!(object.len(), 2);
    assert_eq!(object.get("name").and_then(|v| v.as_str()), Some("A"));
    assert_eq!(object.get("amenity").and_then(|v| v.as_str()), Some("bar"));
}
