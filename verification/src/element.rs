//! The elements that the decoder hands over, and counts of them.

use vstd::prelude::*;

use crate::error::{BuildError, DecodeError};
use crate::path::{has_extract_suffix, is_extract_path};
use crate::store::{RefKind, Reference};
use crate::tags::Tag;

verus! {

/// A point with its position in decimicro-degrees.
#[derive(Debug, Clone, PartialEq, Eq)]
pub struct Node {
    pub id: i64,
    pub decimicro_lat: i32,
    pub decimicro_lon: i32,
    pub tags: Vec<Tag>,
}

/// A polyline through the nodes it names.
#[derive(Debug, Clone, PartialEq, Eq)]
pub struct Way {
    pub id: i64,
    pub nodes: Vec<i64>,
    pub tags: Vec<Tag>,
}

/// A composite of the nodes, ways and relations it refers to.
#[derive(Debug, Clone, PartialEq, Eq)]
pub struct Relation {
    pub id: i64,
    pub refs: Vec<Reference>,
    pub tags: Vec<Tag>,
}

/// One decoded element of an extract.
#[derive(Debug, Clone, PartialEq, Eq)]
pub enum Element {
    Node(Node),
    Way(Way),
    Relation(Relation),
}

/// What the decoder yields for each element: the element, or why it could
/// not be read.
pub type Decoded = Result<Element, DecodeError>;

/// How many elements of `kind` the first `upto` items of the stream hold.
pub open spec fn count_of(stream: Seq<Decoded>, kind: RefKind, upto: int) -> nat
    decreases upto,
{
    if upto <= 0 {
        0
    } else {
        count_of(stream, kind, upto - 1) + if is_kind(stream[upto - 1], kind) {
            1nat
        } else {
            0nat
        }
    }
}

/// The item is an element of `kind`.
pub open spec fn is_kind(item: Decoded, kind: RefKind) -> bool {
    match item {
        Ok(Element::Node(_)) => kind == RefKind::Node,
        Ok(Element::Way(_)) => kind == RefKind::Way,
        Ok(Element::Relation(_)) => kind == RefKind::Relation,
        Err(_) => false,
    }
}

/// The item at position `f` is the first that the decoder failed on.
pub open spec fn first_failure(stream: Seq<Decoded>, f: int) -> bool {
    &&& 0 <= f < stream.len()
    &&& stream[f] is Err
    &&& forall|i: int| 0 <= i < f ==> (#[trigger] stream[i]) is Ok
}

/// The numbers of nodes, ways and relations of an extract.
#[derive(Debug, Clone, Copy, PartialEq, Eq, Structural)]
pub struct OsmCount {
    pub node: u64,
    pub way: u64,
    pub relation: u64,
}

impl OsmCount {
    /// A count with all three numbers at 0.
    pub fn new() -> (c: OsmCount)
        ensures
            c == (OsmCount { node: 0, way: 0, relation: 0 }),
    {
        OsmCount { node: 0, way: 0, relation: 0 }
    }

    /// The count with one more element of the kind of `obj`.
    pub open spec fn spec_incr(self, obj: Element) -> OsmCount {
        match obj {
            Element::Node(_) => OsmCount { node: (self.node + 1) as u64, ..self },
            Element::Way(_) => OsmCount { way: (self.way + 1) as u64, ..self },
            Element::Relation(_) => OsmCount { relation: (self.relation + 1) as u64, ..self },
        }
    }

    /// Counts `obj` under its kind.
    pub fn incr(&mut self, obj: &Element)
        requires
            match *obj {
                Element::Node(_) => old(self).node < u64::MAX,
                Element::Way(_) => old(self).way < u64::MAX,
                Element::Relation(_) => old(self).relation < u64::MAX,
            },
        ensures
            *final(self) == old(self).spec_incr(*obj),
    {
        match obj {
            Element::Node(_) => self.node += 1,
            Element::Way(_) => self.way += 1,
            Element::Relation(_) => self.relation += 1,
        }
    }
}

/// Counts the elements of a decoded stream by kind. The first item that the
/// decoder failed on ends the count with its error.
pub fn count(stream: &Vec<Decoded>) -> (r: Result<OsmCount, BuildError>)
    ensures
        match r {
            Ok(c) => {
                &&& forall|i: int| 0 <= i < stream@.len() ==> (#[trigger] stream@[i]) is Ok
                &&& c.node == count_of(stream@, RefKind::Node, stream@.len() as int)
                &&& c.way == count_of(stream@, RefKind::Way, stream@.len() as int)
                &&& c.relation == count_of(stream@, RefKind::Relation, stream@.len() as int)
            },
            Err(BuildError::Decode(e)) => exists|f: int|
                first_failure(stream@, f) && e == stream@[f]->Err_0,
            Err(_) => false,
        },
{
    let mut c = OsmCount::new();
    let mut i: usize = 0;
    while i < stream.len()
        invariant
            i <= stream.len(),
            forall|m: int| 0 <= m < i ==> (#[trigger] stream@[m]) is Ok,
            c.node == count_of(stream@, RefKind::Node, i as int),
            c.way == count_of(stream@, RefKind::Way, i as int),
            c.relation == count_of(stream@, RefKind::Relation, i as int),
            c.node + c.way + c.relation == i,
        decreases stream.len() - i,
    {
        match &stream[i] {
            Ok(obj) => c.incr(obj),
            Err(e) => {
                proof {
                    assert(first_failure(stream@, i as int));
                }
                return Err(BuildError::Decode(e.duplicate()));
            },
        }
        i += 1;
    }
    Ok(c)
}

/// Counts the elements of the extract at `osm_path`, which the decoder read
/// into `stream`. A path that does not end in `.osm.pbf` is refused before
/// anything is counted.
pub fn count_osm(osm_path: &str, stream: &Vec<Decoded>) -> (r: Result<OsmCount, BuildError>)
    ensures
        match r {
            Ok(c) => {
                &&& is_extract_path(osm_path@)
                &&& forall|i: int| 0 <= i < stream@.len() ==> (#[trigger] stream@[i]) is Ok
                &&& c.node == count_of(stream@, RefKind::Node, stream@.len() as int)
                &&& c.way == count_of(stream@, RefKind::Way, stream@.len() as int)
                &&& c.relation == count_of(stream@, RefKind::Relation, stream@.len() as int)
            },
            Err(BuildError::Path) => !is_extract_path(osm_path@),
            Err(BuildError::Decode(e)) => is_extract_path(osm_path@) && exists|f: int|
                first_failure(stream@, f) && e == stream@[f]->Err_0,
            Err(_) => false,
        },
{
    if !has_extract_suffix(osm_path) {
        return Err(BuildError::Path);
    }
    count(stream)
}

} // verus!
