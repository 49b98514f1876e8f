//! A build is a function of its input: two builds from one stream give the
//! same POI table.

use vstd::prelude::*;

use crate::bbox::{lemma_hull_unique, BoundingBox};
use crate::element::{count_of, is_kind, Decoded};
use crate::ingest::{holds, node_row_of, relation_row_of, way_row_of};
use crate::pipeline::{built, resolved_stage};
use crate::poi::{node_entries, present, relation_entries, spec_refine, way_entries, Poi};
use crate::relations::{
    depends_on, ref_source, relation_sources, relations_resolved, resolvable, resolves_within,
};
use crate::store::{NodeRow, RefKind, Reference, RelationRow, Tables, WayRow};
use crate::ways::{node_sources, ways_resolved};

verus! {

/// Two node rows that differ at most in how their tag text is held.
pub open spec fn like_node(a: NodeRow, b: NodeRow) -> bool {
    &&& a.node_id == b.node_id
    &&& a.lat == b.lat
    &&& a.lon == b.lon
    &&& a.has_name == b.has_name
    &&& a.tags@ == b.tags@
}

/// Two way rows that differ at most in how their tag text and members are
/// held.
pub open spec fn like_way(a: WayRow, b: WayRow) -> bool {
    &&& a.way_id == b.way_id
    &&& a.bbox == b.bbox
    &&& a.has_name == b.has_name
    &&& a.tags@ == b.tags@
    &&& a.nodes@ == b.nodes@
}

/// Two relation rows that differ at most in how their tag text and
/// references are held.
pub open spec fn like_relation(a: RelationRow, b: RelationRow) -> bool {
    &&& a.relation_id == b.relation_id
    &&& a.bbox == b.bbox
    &&& a.dep == b.dep
    &&& a.has_name == b.has_name
    &&& a.tags@ == b.tags@
    &&& a.refs@ == b.refs@
}

/// Two sets of tables with the same content, row for row.
pub open spec fn alike(x: Tables, y: Tables) -> bool {
    &&& x.nodes.len() == y.nodes.len()
    &&& x.ways.len() == y.ways.len()
    &&& x.relations.len() == y.relations.len()
    &&& forall|i: int| 0 <= i < x.nodes.len() ==> like_node(#[trigger] x.nodes[i], y.nodes[i])
    &&& forall|i: int| 0 <= i < x.ways.len() ==> like_way(#[trigger] x.ways[i], y.ways[i])
    &&& forall|i: int|
        0 <= i < x.relations.len() ==> like_relation(#[trigger] x.relations[i], y.relations[i])
}

/// Two POIs with the same type, centre, half-extent and tag text.
pub open spec fn same_poi(a: Poi, b: Poi) -> bool {
    &&& a.poi_type == b.poi_type
    &&& a.lat == b.lat
    &&& a.lon == b.lon
    &&& a.d_lat == b.d_lat
    &&& a.d_lon == b.d_lon
    &&& a.tags@ == b.tags@
}

/// Two POI tables with the same rows in the same order.
pub open spec fn same_pois(a: Seq<Poi>, b: Seq<Poi>) -> bool {
    &&& a.len() == b.len()
    &&& forall|i: int| 0 <= i < a.len() ==> same_poi(#[trigger] a[i], b[i])
}

/// Each row position below the number of elements of a kind is the position
/// of one of them.
proof fn lemma_rank_is_hit(stream: Seq<Decoded>, kind: RefKind, upto: int, r: int)
    requires
        0 <= r < count_of(stream, kind, upto),
    ensures
        exists|j: int|
            0 <= j < upto && is_kind(#[trigger] stream[j], kind) && count_of(stream, kind, j) == r,
    decreases upto,
{
    if upto > 0 {
        if r < count_of(stream, kind, upto - 1) {
            lemma_rank_is_hit(stream, kind, upto - 1, r);
        }
    }
}

/// Tables that hold the same stream are alike.
pub proof fn lemma_ingest_alike(stream: Seq<Decoded>, x: Tables, y: Tables)
    requires
        holds(x, stream, stream.len() as int),
        holds(y, stream, stream.len() as int),
    ensures
        alike(x, y),
{
    let n = stream.len() as int;
    assert forall|i: int| 0 <= i < x.nodes.len() implies like_node(
        #[trigger] x.nodes[i],
        y.nodes[i],
    ) by {
        lemma_rank_is_hit(stream, RefKind::Node, n, i);
    }
    assert forall|i: int| 0 <= i < x.ways.len() implies like_way(#[trigger] x.ways[i], y.ways[i]) by {
        lemma_rank_is_hit(stream, RefKind::Way, n, i);
    }
    assert forall|i: int| 0 <= i < x.relations.len() implies like_relation(
        #[trigger] x.relations[i],
        y.relations[i],
    ) by {
        lemma_rank_is_hit(stream, RefKind::Relation, n, i);
    }
}

/// Like node tables give a way with the same members the same sources.
proof fn lemma_node_sources_alike(x: Seq<NodeRow>, y: Seq<NodeRow>, members: Seq<i64>)
    requires
        x.len() == y.len(),
        forall|i: int| 0 <= i < x.len() ==> like_node(#[trigger] x[i], y[i]),
    ensures
        node_sources(x, members) == node_sources(y, members),
{
    let sx = node_sources(x, members);
    let sy = node_sources(y, members);
    assert forall|b: BoundingBox| sx.contains(b) <==> sy.contains(b) by {
        if sy.contains(b) {
            let (k, n) = choose|k: int, n: int|
                0 <= k < members.len() && 0 <= n < y.len() && #[trigger] members[k] == (
                #[trigger] y[n]).node_id && b == y[n].point();
            assert(like_node(x[n], y[n]));
        }
    }
}

/// Resolving the ways of like tables gives like tables.
pub proof fn lemma_ways_alike(x0: Tables, y0: Tables, x: Tables, y: Tables)
    requires
        alike(x0, y0),
        ways_resolved(x0, x),
        ways_resolved(y0, y),
    ensures
        alike(x, y),
{
    assert forall|i: int| 0 <= i < x.ways.len() implies like_way(#[trigger] x.ways[i], y.ways[i]) by {
        lemma_node_sources_alike(x.nodes, y.nodes, x.ways[i].nodes@);
        lemma_hull_unique(
            x.ways[i].bbox,
            y.ways[i].bbox,
            node_sources(x.nodes, x.ways[i].nodes@),
        );
    }
}

/// What `rf` contributes in `x` it contributes in `y`, where the two are
/// alike but for the boxes of relations, and the relation that `rf` names,
/// if any, has the same box in both.
proof fn lemma_ref_source_alike(x: Tables, y: Tables, rf: Reference, b: BoundingBox)
    requires
        x.nodes.len() == y.nodes.len(),
        x.ways.len() == y.ways.len(),
        x.relations.len() == y.relations.len(),
        forall|i: int| 0 <= i < x.nodes.len() ==> like_node(#[trigger] x.nodes[i], y.nodes[i]),
        forall|i: int| 0 <= i < x.ways.len() ==> like_way(#[trigger] x.ways[i], y.ways[i]),
        forall|j: int|
            0 <= j < x.relations.len() ==> (#[trigger] x.relations[j]).relation_id
                == y.relations[j].relation_id,
        forall|j: int|
            0 <= j < x.relations.len() && rf.kind == RefKind::Relation && (
            #[trigger] x.relations[j]).relation_id == rf.id ==> x.relations[j].bbox
                == y.relations[j].bbox,
        ref_source(x, rf, b),
    ensures
        ref_source(y, rf, b),
{
}

/// A relation that resolves within `k` steps gets the same box in two
/// resolutions of like tables.
proof fn lemma_box_determined(x0: Tables, y0: Tables, x: Tables, y: Tables, i: int, k: nat)
    requires
        alike(x0, y0),
        relations_resolved(x0, x),
        relations_resolved(y0, y),
        0 <= i < x0.relations.len(),
        resolves_within(x0.relations, i, k),
    ensures
        x.relations[i].bbox == y.relations[i].bbox,
    decreases k,
{
    if !x0.relations[i].dep {
        let refs = x.relations[i].refs@;
        let sx = relation_sources(x, refs);
        let sy = relation_sources(y, refs);
        assert forall|m: int, j: int|
            0 <= m < refs.len() && 0 <= j < x.relations.len() && refs[m].kind == RefKind::Relation
                && (#[trigger] x.relations[j]).relation_id == (
            #[trigger] refs[m]).id implies x.relations[j].bbox
            == y.relations[j].bbox by {
            assert(x0.relations[i].refs@[m] == (Reference {
                id: x0.relations[j].relation_id,
                kind: RefKind::Relation,
            }));
            assert(depends_on(x0.relations, i, j));
            lemma_box_determined(x0, y0, x, y, j, (k - 1) as nat);
        }
        assert forall|b: BoundingBox| sx.contains(b) <==> sy.contains(b) by {
            if sx.contains(b) {
                let m = choose|m: int| 0 <= m < refs.len() && ref_source(x, #[trigger] refs[m], b);
                lemma_ref_source_alike(x, y, refs[m], b);
            }
            if sy.contains(b) {
                let m = choose|m: int| 0 <= m < refs.len() && ref_source(y, #[trigger] refs[m], b);
                lemma_ref_source_alike(y, x, refs[m], b);
            }
        }
        lemma_hull_unique(x.relations[i].bbox, y.relations[i].bbox, sx);
    }
}

/// Resolving the relations of like tables gives like tables.
pub proof fn lemma_relations_alike(x0: Tables, y0: Tables, x: Tables, y: Tables)
    requires
        alike(x0, y0),
        relations_resolved(x0, x),
        relations_resolved(y0, y),
    ensures
        alike(x, y),
{
    assert forall|i: int| 0 <= i < x.relations.len() implies like_relation(
        #[trigger] x.relations[i],
        y.relations[i],
    ) by {
        assert(resolvable(x0.relations, i));
        let k = choose|k: nat| resolves_within(x0.relations, i, k);
        lemma_box_determined(x0, y0, x, y, i, k);
    }
}

/// Two entries that both hold nothing or hold the same POI.
pub open spec fn like_entry(a: Option<Poi>, b: Option<Poi>) -> bool {
    match (a, b) {
        (Some(p), Some(q)) => same_poi(p, q),
        (None, None) => true,
        _ => false,
    }
}

/// Like entries give the same POIs.
proof fn lemma_present_alike(a: Seq<Option<Poi>>, b: Seq<Option<Poi>>, upto: int)
    requires
        0 <= upto <= a.len(),
        a.len() == b.len(),
        forall|i: int| 0 <= i < a.len() ==> like_entry(#[trigger] a[i], b[i]),
    ensures
        same_pois(present(a, upto), present(b, upto)),
    decreases upto,
{
    if upto > 0 {
        lemma_present_alike(a, b, upto - 1);
    }
}

/// The POI tables of like tables are the same.
pub proof fn lemma_refine_alike(x: Tables, y: Tables)
    requires
        alike(x, y),
    ensures
        same_pois(spec_refine(x), spec_refine(y)),
{
    let (an, bn) = (node_entries(x.nodes), node_entries(y.nodes));
    let (aw, bw) = (way_entries(x.ways), way_entries(y.ways));
    let (ar, br) = (relation_entries(x.relations), relation_entries(y.relations));
    lemma_present_alike(an, bn, an.len() as int);
    lemma_present_alike(aw, bw, aw.len() as int);
    lemma_present_alike(ar, br, ar.len() as int);
}

/// Building twice from one stream gives the same POI table, row for row:
/// running the build again changes nothing.
pub proof fn lemma_build_is_deterministic(stream: Seq<Decoded>, first: Seq<Poi>, second: Seq<Poi>)
    requires
        built(stream, first),
        built(stream, second),
    ensures
        same_pois(first, second),
{
    let (x0, x1, x2) = choose|raw: Tables, with_ways: Tables, resolved: Tables| #[trigger]
        resolved_stage(stream, raw, with_ways, resolved) && first == spec_refine(resolved);
    let (y0, y1, y2) = choose|raw: Tables, with_ways: Tables, resolved: Tables| #[trigger]
        resolved_stage(stream, raw, with_ways, resolved) && second == spec_refine(resolved);
    lemma_ingest_alike(stream, x0, y0);
    lemma_ways_alike(x0, y0, x1, y1);
    lemma_relations_alike(x1, y1, x2, y2);
    lemma_refine_alike(x2, y2);
}

} // verus!
