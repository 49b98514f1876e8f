//! The raw element tables: nodes, ways with their member nodes, relations
//! with their references. They live from ingestion to refinement.

use std::collections::HashMap;
use vstd::prelude::*;

use crate::bbox::BoundingBox;
use crate::coord::{lat_in_range, lon_in_range};

verus! {

broadcast use vstd::std_specs::hash::group_hash_axioms;

/// What a relation's reference points at.
#[derive(Debug, Clone, Copy, PartialEq, Eq, Structural)]
pub enum RefKind {
    Node,
    Way,
    Relation,
}

/// One edge from a relation to a member element.
#[derive(Debug, Clone, Copy, PartialEq, Eq, Structural)]
pub struct Reference {
    pub id: i64,
    pub kind: RefKind,
}

/// A point of the extract.
#[derive(Debug, Clone, PartialEq, Eq)]
pub struct NodeRow {
    pub node_id: i64,
    pub lat: i32,
    pub lon: i32,
    pub has_name: bool,
    pub tags: String,
}

/// A polyline of the extract, with the identifiers of its member nodes.
#[derive(Debug, Clone, PartialEq, Eq)]
pub struct WayRow {
    pub way_id: i64,
    pub bbox: BoundingBox,
    pub has_name: bool,
    pub tags: String,
    pub nodes: Vec<i64>,
}

/// A composite element of the extract, with its references. `dep` tells
/// whether `bbox` has been resolved.
#[derive(Debug, Clone, PartialEq, Eq)]
pub struct RelationRow {
    pub relation_id: i64,
    pub bbox: BoundingBox,
    pub dep: bool,
    pub has_name: bool,
    pub tags: String,
    pub refs: Vec<Reference>,
}

impl NodeRow {
    /// The row meets the constraints of the node table.
    pub open spec fn valid(self) -> bool {
        &&& self.node_id >= 0
        &&& lat_in_range(self.lat as int)
        &&& lon_in_range(self.lon as int)
    }

    /// The box that holds just this node.
    pub open spec fn point(self) -> BoundingBox {
        BoundingBox::spec_point(self.lat, self.lon)
    }
}

impl WayRow {
    /// The row meets the constraints of the way table.
    pub open spec fn valid(self) -> bool {
        &&& self.way_id >= 0
        &&& self.bbox.ordered()
        &&& self.bbox.on_globe()
        &&& forall|k: int| 0 <= k < self.nodes@.len() ==> #[trigger] self.nodes@[k] >= 0
    }

    /// `other` is this way with, at most, another box.
    pub open spec fn same_but_box(self, other: WayRow) -> bool {
        &&& self.way_id == other.way_id
        &&& self.has_name == other.has_name
        &&& self.tags == other.tags
        &&& self.nodes == other.nodes
    }
}

impl RelationRow {
    /// The row meets the constraints of the relation table.
    pub open spec fn valid(self) -> bool {
        &&& self.relation_id >= 0
        &&& self.bbox.ordered()
        &&& self.bbox.on_globe()
        &&& forall|k: int| 0 <= k < self.refs@.len() ==> (#[trigger] self.refs@[k]).id >= 0
    }

    /// `other` is this relation with, at most, another box and flag.
    pub open spec fn same_but_box(self, other: RelationRow) -> bool {
        &&& self.relation_id == other.relation_id
        &&& self.has_name == other.has_name
        &&& self.tags == other.tags
        &&& self.refs == other.refs
    }
}

/// The three raw tables as sequences of rows, in insertion order.
pub struct Tables {
    pub nodes: Seq<NodeRow>,
    pub ways: Seq<WayRow>,
    pub relations: Seq<RelationRow>,
}

/// The identifiers of the node rows, in table order.
pub open spec fn node_ids(nodes: Seq<NodeRow>) -> Seq<i64> {
    Seq::new(nodes.len(), |i: int| nodes[i].node_id)
}

/// The identifiers of the way rows, in table order.
pub open spec fn way_ids(ways: Seq<WayRow>) -> Seq<i64> {
    Seq::new(ways.len(), |i: int| ways[i].way_id)
}

/// The identifiers of the relation rows, in table order.
pub open spec fn relation_ids(relations: Seq<RelationRow>) -> Seq<i64> {
    Seq::new(relations.len(), |i: int| relations[i].relation_id)
}

/// No identifier occurs twice.
pub open spec fn distinct(ids: Seq<i64>) -> bool {
    forall|i: int, j: int| 0 <= i < ids.len() && 0 <= j < ids.len() && ids[i] == ids[j] ==> i == j
}

impl Tables {
    /// Every row meets its table's constraints and identifiers are unique
    /// within each table.
    pub open spec fn valid(self) -> bool {
        &&& forall|i: int| 0 <= i < self.nodes.len() ==> (#[trigger] self.nodes[i]).valid()
        &&& forall|i: int| 0 <= i < self.ways.len() ==> (#[trigger] self.ways[i]).valid()
        &&& forall|i: int| 0 <= i < self.relations.len() ==> (#[trigger] self.relations[i]).valid()
        &&& distinct(node_ids(self.nodes))
        &&& distinct(way_ids(self.ways))
        &&& distinct(relation_ids(self.relations))
    }
}

/// `index` maps each identifier of `ids` to its position, and nothing else.
pub open spec fn indexes(index: Map<i64, usize>, ids: Seq<i64>) -> bool {
    &&& forall|i: int| 0 <= i < ids.len() ==> index.contains_key(#[trigger] ids[i])
    &&& forall|id: i64| #[trigger]
        index.contains_key(id) ==> index[id] < ids.len() && ids[index[id] as int] == id
}

/// Looks an identifier up in an index over `ids`.
pub(crate) fn find(index: &HashMap<i64, usize>, id: i64, Ghost(ids): Ghost<Seq<i64>>) -> (r: Option<
    usize,
>)
    requires
        indexes(index@, ids),
    ensures
        match r {
            Some(i) => i < ids.len() && ids[i as int] == id,
            None => forall|i: int| 0 <= i < ids.len() ==> ids[i] != id,
        },
{
    match index.get(&id) {
        Some(i) => Some(*i),
        None => None,
    }
}

/// The raw tables of one dataset build, with an index by identifier over
/// each.
#[derive(Debug)]
pub struct RawStore {
    nodes: Vec<NodeRow>,
    ways: Vec<WayRow>,
    relations: Vec<RelationRow>,
    node_index: HashMap<i64, usize>,
    way_index: HashMap<i64, usize>,
    relation_index: HashMap<i64, usize>,
}

impl View for RawStore {
    type V = Tables;

    closed spec fn view(&self) -> Tables {
        Tables { nodes: self.nodes@, ways: self.ways@, relations: self.relations@ }
    }
}

impl RawStore {
    #[verifier::type_invariant]
    closed spec fn inv(&self) -> bool {
        &&& self@.valid()
        &&& indexes(self.node_index@, node_ids(self.nodes@))
        &&& indexes(self.way_index@, way_ids(self.ways@))
        &&& indexes(self.relation_index@, relation_ids(self.relations@))
    }

    /// A store with three empty tables.
    pub fn new() -> (s: RawStore)
        ensures
            s@.nodes.len() == 0,
            s@.ways.len() == 0,
            s@.relations.len() == 0,
    {
        RawStore {
            nodes: Vec::new(),
            ways: Vec::new(),
            relations: Vec::new(),
            node_index: HashMap::new(),
            way_index: HashMap::new(),
            relation_index: HashMap::new(),
        }
    }

    /// Takes the store apart into its tables and indexes.
    pub(crate) fn into_parts(self) -> (p: (
        Vec<NodeRow>,
        Vec<WayRow>,
        Vec<RelationRow>,
        HashMap<i64, usize>,
        HashMap<i64, usize>,
        HashMap<i64, usize>,
    ))
        ensures
            self@ == (Tables { nodes: p.0@, ways: p.1@, relations: p.2@ }),
            self@.valid(),
            indexes(p.3@, node_ids(p.0@)),
            indexes(p.4@, way_ids(p.1@)),
            indexes(p.5@, relation_ids(p.2@)),
    {
        proof {
            use_type_invariant(&self);
        }
        (
            self.nodes,
            self.ways,
            self.relations,
            self.node_index,
            self.way_index,
            self.relation_index,
        )
    }

    /// Puts valid tables and their indexes together into a store.
    pub(crate) fn from_parts(
        nodes: Vec<NodeRow>,
        ways: Vec<WayRow>,
        relations: Vec<RelationRow>,
        node_index: HashMap<i64, usize>,
        way_index: HashMap<i64, usize>,
        relation_index: HashMap<i64, usize>,
    ) -> (s: RawStore)
        requires
            (Tables { nodes: nodes@, ways: ways@, relations: relations@ }).valid(),
            indexes(node_index@, node_ids(nodes@)),
            indexes(way_index@, way_ids(ways@)),
            indexes(relation_index@, relation_ids(relations@)),
        ensures
            s@ == (Tables { nodes: nodes@, ways: ways@, relations: relations@ }),
    {
        RawStore { nodes, ways, relations, node_index, way_index, relation_index }
    }

    /// The position of the node with the identifier `id`, if the node table
    /// holds one.
    pub fn node_at(&self, id: i64) -> (r: Option<usize>)
        ensures
            self@.valid(),
            match r {
                Some(i) => i < self@.nodes.len() && self@.nodes[i as int].node_id == id,
                None => forall|i: int| 0 <= i < self@.nodes.len() ==> self@.nodes[i].node_id != id,
            },
    {
        proof {
            use_type_invariant(self);
        }
        let r = find(&self.node_index, id, Ghost(node_ids(self.nodes@)));
        proof {
            match r {
                Some(i) => {
                },
                None => {
                    assert forall|i: int|
                        0 <= i < self.nodes@.len() implies self.nodes@[i].node_id != id by {
                        assert(node_ids(self.nodes@)[i] == self.nodes@[i].node_id);
                    }
                },
            }
        }
        r
    }

    /// The position of the way with the identifier `id`, if the way table
    /// holds one.
    pub fn way_at(&self, id: i64) -> (r: Option<usize>)
        ensures
            self@.valid(),
            match r {
                Some(i) => i < self@.ways.len() && self@.ways[i as int].way_id == id,
                None => forall|i: int| 0 <= i < self@.ways.len() ==> self@.ways[i].way_id != id,
            },
    {
        proof {
            use_type_invariant(self);
        }
        let r = find(&self.way_index, id, Ghost(way_ids(self.ways@)));
        proof {
            match r {
                Some(i) => {
                },
                None => {
                    assert forall|i: int|
                        0 <= i < self.ways@.len() implies self.ways@[i].way_id != id by {
                        assert(way_ids(self.ways@)[i] == self.ways@[i].way_id);
                    }
                },
            }
        }
        r
    }

    /// The position of the relation with the identifier `id`, if the relation
    /// table holds one.
    pub fn relation_at(&self, id: i64) -> (r: Option<usize>)
        ensures
            self@.valid(),
            match r {
                Some(i) => i < self@.relations.len() && self@.relations[i as int].relation_id
                    == id,
                None => forall|i: int|
                    0 <= i < self@.relations.len() ==> self@.relations[i].relation_id != id,
            },
    {
        proof {
            use_type_invariant(self);
        }
        let r = find(&self.relation_index, id, Ghost(relation_ids(self.relations@)));
        proof {
            match r {
                Some(i) => {
                },
                None => {
                    assert forall|i: int|
                        0 <= i < self.relations@.len() implies self.relations@[i].relation_id
                        != id by {
                        assert(relation_ids(self.relations@)[i] == self.relations@[i].relation_id);
                    }
                },
            }
        }
        r
    }

    /// The node table.
    pub fn nodes(&self) -> (r: &Vec<NodeRow>)
        ensures
            r@ == self@.nodes,
            self@.valid(),
    {
        proof {
            use_type_invariant(self);
        }
        &self.nodes
    }

    /// The way table.
    pub fn ways(&self) -> (r: &Vec<WayRow>)
        ensures
            r@ == self@.ways,
            self@.valid(),
    {
        proof {
            use_type_invariant(self);
        }
        &self.ways
    }

    /// The relation table.
    pub fn relations(&self) -> (r: &Vec<RelationRow>)
        ensures
            r@ == self@.relations,
            self@.valid(),
    {
        proof {
            use_type_invariant(self);
        }
        &self.relations
    }
}

} // verus!
