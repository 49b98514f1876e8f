//! Ingestion: the decoded stream becomes rows of the raw tables, one element
//! at a time and in order.

use vstd::prelude::*;

use crate::bbox::BoundingBox;
use crate::coord::{lat_in_range, lon_in_range, LAT_LIMIT, LON_LIMIT};
use crate::element::{count_of, is_kind, Decoded, Element, Node, Relation, Way};
use crate::error::{BuildError, Constraint};
use crate::store::{
    find, node_ids, relation_ids, way_ids, NodeRow, RawStore, RefKind, Reference, RelationRow,
    Tables, WayRow,
};
use crate::tags::{has_name_key, json_object_text, tag_members, tags_has_name, tags_to_json_string};

verus! {

broadcast use vstd::std_specs::hash::group_hash_axioms;

/// The identifier of an element.
pub open spec fn element_id(e: Element) -> i64 {
    match e {
        Element::Node(n) => n.id,
        Element::Way(w) => w.id,
        Element::Relation(r) => r.id,
    }
}

/// The kind of an element.
pub open spec fn kind_of(e: Element) -> RefKind {
    match e {
        Element::Node(_) => RefKind::Node,
        Element::Way(_) => RefKind::Way,
        Element::Relation(_) => RefKind::Relation,
    }
}

/// The constraint that an element breaks whatever the tables hold: a negative
/// identifier, its own or of a member, or a position off the globe.
pub open spec fn broken_alone(e: Element) -> Option<Constraint> {
    match e {
        Element::Node(n) => if n.id < 0 {
            Some(Constraint::NegativeId)
        } else if !(lat_in_range(n.decimicro_lat as int) && lon_in_range(n.decimicro_lon as int)) {
            Some(Constraint::CoordinateRange)
        } else {
            None
        },
        Element::Way(w) => if w.id < 0 || exists|k: int|
            0 <= k < w.nodes@.len() && #[trigger] w.nodes@[k] < 0 {
            Some(Constraint::NegativeId)
        } else {
            None
        },
        Element::Relation(r) => if r.id < 0 || exists|k: int|
            0 <= k < r.refs@.len() && (#[trigger] r.refs@[k]).id < 0 {
            Some(Constraint::NegativeId)
        } else {
            None
        },
    }
}

/// The identifiers of the table that holds elements of `kind`.
pub open spec fn ids_of_kind(t: Tables, kind: RefKind) -> Seq<i64> {
    match kind {
        RefKind::Node => node_ids(t.nodes),
        RefKind::Way => way_ids(t.ways),
        RefKind::Relation => relation_ids(t.relations),
    }
}

/// The constraint that inserting `e` into `t` would break, if any.
pub open spec fn violation(t: Tables, e: Element) -> Option<Constraint> {
    match broken_alone(e) {
        Some(c) => Some(c),
        None => if ids_of_kind(t, kind_of(e)).contains(element_id(e)) {
            Some(Constraint::DuplicateId)
        } else {
            None
        },
    }
}

/// `row` is the row that the node `n` is stored as.
pub open spec fn node_row_of(row: NodeRow, n: Node) -> bool {
    &&& row.node_id == n.id
    &&& row.lat == n.decimicro_lat
    &&& row.lon == n.decimicro_lon
    &&& row.has_name == has_name_key(n.tags@)
    &&& row.tags@ == json_object_text(tag_members(n.tags@))
}

/// `row` is the row that the way `w` is stored as: not resolved yet.
pub open spec fn way_row_of(row: WayRow, w: Way) -> bool {
    &&& row.way_id == w.id
    &&& row.bbox == (BoundingBox { lat_lb: 0, lon_lb: 0, lat_rt: 0, lon_rt: 0 })
    &&& row.has_name == has_name_key(w.tags@)
    &&& row.tags@ == json_object_text(tag_members(w.tags@))
    &&& row.nodes@ == w.nodes@
}

/// `row` is the row that the relation `r` is stored as: not resolved yet.
pub open spec fn relation_row_of(row: RelationRow, r: Relation) -> bool {
    &&& row.relation_id == r.id
    &&& row.bbox == (BoundingBox { lat_lb: 0, lon_lb: 0, lat_rt: 0, lon_rt: 0 })
    &&& !row.dep
    &&& row.has_name == has_name_key(r.tags@)
    &&& row.tags@ == json_object_text(tag_members(r.tags@))
    &&& row.refs@ == r.refs@
}

/// `after` is `before` with the row of `e` at the end of the table of its
/// kind.
pub open spec fn added(before: Tables, after: Tables, e: Element) -> bool {
    match e {
        Element::Node(n) => {
            &&& after.nodes.len() == before.nodes.len() + 1
            &&& after.nodes.drop_last() == before.nodes
            &&& node_row_of(after.nodes.last(), n)
            &&& after.ways == before.ways
            &&& after.relations == before.relations
        },
        Element::Way(w) => {
            &&& after.ways.len() == before.ways.len() + 1
            &&& after.ways.drop_last() == before.ways
            &&& way_row_of(after.ways.last(), w)
            &&& after.nodes == before.nodes
            &&& after.relations == before.relations
        },
        Element::Relation(r) => {
            &&& after.relations.len() == before.relations.len() + 1
            &&& after.relations.drop_last() == before.relations
            &&& relation_row_of(after.relations.last(), r)
            &&& after.nodes == before.nodes
            &&& after.ways == before.ways
        },
    }
}

/// Tests whether some identifier of `ids` is negative.
fn any_negative(ids: &Vec<i64>) -> (r: bool)
    ensures
        r == exists|k: int| 0 <= k < ids@.len() && #[trigger] ids@[k] < 0,
{
    let mut k: usize = 0;
    while k < ids.len()
        invariant
            k <= ids.len(),
            forall|m: int| 0 <= m < k ==> #[trigger] ids@[m] >= 0,
        decreases ids.len() - k,
    {
        if ids[k] < 0 {
            return true;
        }
        k += 1;
    }
    false
}

/// Tests whether some reference names a negative identifier.
fn any_negative_ref(refs: &Vec<Reference>) -> (r: bool)
    ensures
        r == exists|k: int| 0 <= k < refs@.len() && (#[trigger] refs@[k]).id < 0,
{
    let mut k: usize = 0;
    while k < refs.len()
        invariant
            k <= refs.len(),
            forall|m: int| 0 <= m < k ==> (#[trigger] refs@[m]).id >= 0,
        decreases refs.len() - k,
    {
        if refs[k].id < 0 {
            return true;
        }
        k += 1;
    }
    false
}

impl RawStore {
    /// Inserts one element as a row of the table of its kind, with
    /// `has_name` set when a tag key holds `name` and with its tags as JSON
    /// text. An element that breaks a constraint of the tables is refused
    /// with `SchemaViolation`.
    pub fn insert(self, e: Element) -> (r: Result<RawStore, BuildError>)
        ensures
            match r {
                Ok(s) => violation(self@, e) is None && added(self@, s@, e) && s@.valid(),
                Err(BuildError::SchemaViolation(id, c)) => violation(self@, e) == Some(c) && id
                    == element_id(e),
                Err(_) => false,
            },
    {
        let ghost t0 = self@;
        let (mut nodes, mut ways, mut relations, mut node_index, mut way_index, mut relation_index) =
            self.into_parts();
        match e {
            Element::Node(n) => {
                if n.id < 0 {
                    return Err(BuildError::SchemaViolation(n.id, Constraint::NegativeId));
                }
                if n.decimicro_lat < -LAT_LIMIT || n.decimicro_lat > LAT_LIMIT || n.decimicro_lon
                    < -LON_LIMIT || n.decimicro_lon > LON_LIMIT {
                    return Err(BuildError::SchemaViolation(n.id, Constraint::CoordinateRange));
                }
                if find(&node_index, n.id, Ghost(node_ids(nodes@))).is_some() {
                    return Err(BuildError::SchemaViolation(n.id, Constraint::DuplicateId));
                }
                let row = NodeRow {
                    node_id: n.id,
                    lat: n.decimicro_lat,
                    lon: n.decimicro_lon,
                    has_name: tags_has_name(&n.tags),
                    tags: tags_to_json_string(&n.tags),
                };
                let at = nodes.len();
                node_index.insert(n.id, at);
                nodes.push(row);
                proof {
                    assert(nodes@.drop_last() =~= t0.nodes);
                    assert(node_ids(nodes@) =~= node_ids(t0.nodes).push(n.id));
                }
            },
            Element::Way(w) => {
                if w.id < 0 || any_negative(&w.nodes) {
                    return Err(BuildError::SchemaViolation(w.id, Constraint::NegativeId));
                }
                if find(&way_index, w.id, Ghost(way_ids(ways@))).is_some() {
                    return Err(BuildError::SchemaViolation(w.id, Constraint::DuplicateId));
                }
                let row = WayRow {
                    way_id: w.id,
                    bbox: BoundingBox::zero(),
                    has_name: tags_has_name(&w.tags),
                    tags: tags_to_json_string(&w.tags),
                    nodes: w.nodes,
                };
                let at = ways.len();
                way_index.insert(w.id, at);
                ways.push(row);
                proof {
                    assert(ways@.drop_last() =~= t0.ways);
                    assert(way_ids(ways@) =~= way_ids(t0.ways).push(w.id));
                }
            },
            Element::Relation(r) => {
                if r.id < 0 || any_negative_ref(&r.refs) {
                    return Err(BuildError::SchemaViolation(r.id, Constraint::NegativeId));
                }
                if find(&relation_index, r.id, Ghost(relation_ids(relations@))).is_some() {
                    return Err(BuildError::SchemaViolation(r.id, Constraint::DuplicateId));
                }
                let row = RelationRow {
                    relation_id: r.id,
                    bbox: BoundingBox::zero(),
                    dep: false,
                    has_name: tags_has_name(&r.tags),
                    tags: tags_to_json_string(&r.tags),
                    refs: r.refs,
                };
                let at = relations.len();
                relation_index.insert(r.id, at);
                relations.push(row);
                proof {
                    assert(relations@.drop_last() =~= t0.relations);
                    assert(relation_ids(relations@) =~= relation_ids(t0.relations).push(r.id));
                }
            },
        }
        Ok(RawStore::from_parts(nodes, ways, relations, node_index, way_index, relation_index))
    }
}

/// An earlier item of the stream is an element of the same kind and
/// identifier as the element at position `i`.
pub open spec fn repeats(stream: Seq<Decoded>, i: int) -> bool {
    exists|j: int|
        0 <= j < i && (#[trigger] stream[j]) is Ok && kind_of(stream[j]->Ok_0) == kind_of(
            stream[i]->Ok_0,
        ) && element_id(stream[j]->Ok_0) == element_id(stream[i]->Ok_0)
}

/// The constraint for which the element at position `i` is refused, if any.
pub open spec fn refusal(stream: Seq<Decoded>, i: int) -> Option<Constraint> {
    match broken_alone(stream[i]->Ok_0) {
        Some(c) => Some(c),
        None => if repeats(stream, i) {
            Some(Constraint::DuplicateId)
        } else {
            None
        },
    }
}

/// The item at position `i` is an element that the tables accept.
pub open spec fn accepted(stream: Seq<Decoded>, i: int) -> bool {
    stream[i] is Ok && refusal(stream, i) is None
}

/// The tables hold the first `upto` items of the stream: each element is the
/// row of its table at the position that is the number of elements of its
/// kind before it.
pub open spec fn holds(t: Tables, stream: Seq<Decoded>, upto: int) -> bool {
    &&& t.nodes.len() == count_of(stream, RefKind::Node, upto)
    &&& t.ways.len() == count_of(stream, RefKind::Way, upto)
    &&& t.relations.len() == count_of(stream, RefKind::Relation, upto)
    &&& forall|i: int|
        0 <= i < upto ==> match #[trigger] stream[i] {
            Ok(Element::Node(n)) => node_row_of(t.nodes[count_of(stream, RefKind::Node, i) as int], n),
            Ok(Element::Way(w)) => way_row_of(t.ways[count_of(stream, RefKind::Way, i) as int], w),
            Ok(Element::Relation(r)) => relation_row_of(
                t.relations[count_of(stream, RefKind::Relation, i) as int],
                r,
            ),
            Err(_) => true,
        }
}

/// An element of `kind` with the identifier `id` is among the first `upto`
/// items.
spec fn has_origin(stream: Seq<Decoded>, upto: int, kind: RefKind, id: i64) -> bool {
    exists|j: int|
        0 <= j < upto && is_kind(#[trigger] stream[j], kind) && element_id(stream[j]->Ok_0) == id
}

/// Every row comes from an element among the first `upto` items.
spec fn rows_have_origin(t: Tables, stream: Seq<Decoded>, upto: int) -> bool {
    forall|kind: RefKind, r: int|
        0 <= r < ids_of_kind(t, kind).len() ==> has_origin(
            stream,
            upto,
            kind,
            #[trigger] ids_of_kind(t, kind)[r],
        )
}

/// The number of elements of a kind grows with the length of the prefix.
proof fn lemma_count_grows(stream: Seq<Decoded>, kind: RefKind, a: int, b: int)
    requires
        a <= b,
    ensures
        count_of(stream, kind, a) <= count_of(stream, kind, b),
        a < b && 0 <= a && is_kind(stream[a], kind) ==> count_of(stream, kind, a) < count_of(
            stream,
            kind,
            b,
        ),
    decreases b - a,
{
    if a < b {
        lemma_count_grows(stream, kind, a, b - 1);
    }
}

/// Adding an element appends its identifier to the identifiers of its kind
/// and leaves the other kinds as they were.
proof fn lemma_added_ids(before: Tables, after: Tables, e: Element, kind: RefKind)
    requires
        added(before, after, e),
    ensures
        ids_of_kind(after, kind) == if kind == kind_of(e) {
            ids_of_kind(before, kind).push(element_id(e))
        } else {
            ids_of_kind(before, kind)
        },
{
}

/// Ingests a decoded stream into fresh raw tables, one row for each element
/// and in the order of the stream.
///
/// The first item that the decoder failed on, or the first element that
/// breaks a constraint of the tables, ends the ingestion with its error, and
/// nothing of the tables is kept.
pub fn dump(stream: Vec<Decoded>) -> (r: Result<RawStore, BuildError>)
    ensures
        match r {
            Ok(s) => {
                &&& forall|i: int| 0 <= i < stream@.len() ==> accepted(stream@, i)
                &&& holds(s@, stream@, stream@.len() as int)
                &&& s@.valid()
            },
            Err(BuildError::Decode(e)) => exists|f: int|
                0 <= f < stream@.len() && stream@[f] == Err::<Element, _>(e) && forall|i: int|
                    0 <= i < f ==> accepted(stream@, i),
            Err(BuildError::SchemaViolation(id, c)) => exists|f: int|
                0 <= f < stream@.len() && stream@[f] is Ok && refusal(stream@, f) == Some(c) && id
                    == element_id(stream@[f]->Ok_0) && forall|i: int|
                    0 <= i < f ==> accepted(stream@, i),
            Err(_) => false,
        },
{
    let ghost items = stream@;
    let mut store = RawStore::new();
    for item in it: stream
        invariant
            it.seq() == items,
            items == stream@,
            forall|i: int| 0 <= i < it.index() ==> accepted(items, i),
            holds(store@, items, it.index() as int),
            rows_have_origin(store@, items, it.index() as int),
            store@.valid(),
    {
        let ghost at = it.index() as int;
        let ghost before = store@;
        match item {
            Err(e) => {
                return Err(BuildError::Decode(e));
            },
            Ok(e) => {
                proof {
                    let k = kind_of(e);
                    let ids = ids_of_kind(before, k);
                    if repeats(items, at) {
                        let j = choose|j: int|
                            0 <= j < at && (#[trigger] items[j]) is Ok && kind_of(items[j]->Ok_0)
                                == kind_of(items[at]->Ok_0) && element_id(items[j]->Ok_0)
                                == element_id(items[at]->Ok_0);
                        lemma_count_grows(items, k, j, at);
                        let r = count_of(items, k, j) as int;
                        assert(ids[r] == element_id(e));
                    }
                    assert(violation(before, e) == refusal(items, at));
                }
                match store.insert(e) {
                    Ok(s) => {
                        store = s;
                        proof {
                            let after = store@;
                            assert forall|i: int| 0 <= i < at + 1 implies match #[trigger] items[i] {
                                Ok(Element::Node(n)) => node_row_of(
                                    after.nodes[count_of(items, RefKind::Node, i) as int],
                                    n,
                                ),
                                Ok(Element::Way(w)) => way_row_of(
                                    after.ways[count_of(items, RefKind::Way, i) as int],
                                    w,
                                ),
                                Ok(Element::Relation(r)) => relation_row_of(
                                    after.relations[count_of(items, RefKind::Relation, i) as int],
                                    r,
                                ),
                                Err(_) => true,
                            } by {
                                if i < at {
                                    lemma_count_grows(items, RefKind::Node, i, at);
                                    lemma_count_grows(items, RefKind::Way, i, at);
                                    lemma_count_grows(items, RefKind::Relation, i, at);
                                }
                            }
                            assert forall|kind: RefKind, r: int|
                                0 <= r < ids_of_kind(after, kind).len() implies has_origin(
                                items,
                                at + 1,
                                kind,
                                #[trigger] ids_of_kind(after, kind)[r],
                            ) by {
                                lemma_added_ids(before, after, e, kind);
                                if r < ids_of_kind(before, kind).len() {
                                    let j = choose|j: int|
                                        0 <= j < at && is_kind(#[trigger] items[j], kind)
                                            && element_id(items[j]->Ok_0) == ids_of_kind(
                                            before,
                                            kind,
                                        )[r];
                                    assert(0 <= j < at + 1 && is_kind(items[j], kind) && element_id(
                                        items[j]->Ok_0,
                                    ) == ids_of_kind(after, kind)[r]);
                                } else {
                                    assert(is_kind(items[at], kind) && element_id(items[at]->Ok_0)
                                        == ids_of_kind(after, kind)[r]);
                                }
                            }
                        }
                    },
                    Err(err) => {
                        return Err(err);
                    },
                }
            },
        }
    }
    Ok(store)
}

} // verus!
