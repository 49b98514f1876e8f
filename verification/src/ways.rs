//! Extents of ways: each way's box is the hull of its member nodes.

use std::collections::HashMap;
use vstd::prelude::*;

use crate::bbox::{extend, hull_so_far, lemma_extend_hull, lemma_hull_valid, BoundingBox};
use crate::error::BuildError;
use crate::store::{distinct, find, indexes, node_ids, way_ids, NodeRow, RawStore, Tables, WayRow};

verus! {

/// The node at position `n` is one of `members`.
pub open spec fn is_member(nodes: Seq<NodeRow>, members: Seq<i64>, n: int) -> bool {
    &&& 0 <= n < nodes.len()
    &&& exists|k: int| 0 <= k < members.len() && #[trigger] members[k] == nodes[n].node_id
}

/// The point boxes of the nodes that the first `upto` entries of `members` name
/// and the node table holds.
pub open spec fn member_points(nodes: Seq<NodeRow>, members: Seq<i64>, upto: int) -> Set<
    BoundingBox,
> {
    Set::new(
        |b: BoundingBox|
            exists|k: int, n: int|
                0 <= k < upto && 0 <= n < nodes.len() && #[trigger] members[k] == (
                #[trigger] nodes[n]).node_id && b == nodes[n].point(),
    )
}

/// The point boxes of all member nodes of a way that the node table holds.
pub open spec fn node_sources(nodes: Seq<NodeRow>, members: Seq<i64>) -> Set<BoundingBox> {
    member_points(nodes, members, members.len() as int)
}

/// None of `members` is in the node table.
pub open spec fn no_member_known(nodes: Seq<NodeRow>, members: Seq<i64>) -> bool {
    forall|n: int| 0 <= n < nodes.len() ==> !is_member(nodes, members, n)
}

/// The hull of the member nodes of one way, or `None` when no member is in
/// the node table.
fn way_extent(nodes: &Vec<NodeRow>, node_index: &HashMap<i64, usize>, members: &Vec<i64>) -> (r:
    Option<BoundingBox>)
    requires
        indexes(node_index@, node_ids(nodes@)),
        distinct(node_ids(nodes@)),
    ensures
        hull_so_far(r, node_sources(nodes@, members@)),
{
    let mut acc: Option<BoundingBox> = None;
    let mut k: usize = 0;
    while k < members.len()
        invariant
            k <= members.len(),
            indexes(node_index@, node_ids(nodes@)),
            distinct(node_ids(nodes@)),
            hull_so_far(acc, member_points(nodes@, members@, k as int)),
        decreases members.len() - k,
    {
        let ghost before = member_points(nodes@, members@, k as int);
        let ghost after = member_points(nodes@, members@, k + 1);
        match find(node_index, members[k], Ghost(node_ids(nodes@))) {
            Some(n) => {
                let b = BoundingBox::point(nodes[n].lat, nodes[n].lon);
                proof {
                    lemma_extend_hull(acc, before, b);
                    assert forall|x: BoundingBox| after.contains(x) <==> before.insert(b).contains(
                        x,
                    ) by {
                        if after.contains(x) {
                            let (k2, n2) = choose|k2: int, n2: int|
                                0 <= k2 < k + 1 && 0 <= n2 < nodes@.len() && #[trigger] members@[k2]
                                    == (#[trigger] nodes@[n2]).node_id && x == nodes@[n2].point();
                            if k2 == k {
                                assert(node_ids(nodes@)[n2] == node_ids(nodes@)[n as int]);
                            }
                        }
                    }
                    assert(after =~= before.insert(b));
                }
                acc = extend(acc, b);
            },
            None => {
                proof {
                    assert forall|x: BoundingBox| after.contains(x) <==> before.contains(x) by {
                        if after.contains(x) {
                            let (k2, n2) = choose|k2: int, n2: int|
                                0 <= k2 < k + 1 && 0 <= n2 < nodes@.len() && #[trigger] members@[k2]
                                    == (#[trigger] nodes@[n2]).node_id && x == nodes@[n2].point();
                            assert(node_ids(nodes@)[n2] == nodes@[n2].node_id);
                        }
                    }
                }
            },
        }
        k += 1;
    }
    acc
}

/// The ways of `after` are those of `before`, each with the hull of its
/// member nodes for a box; the other tables are untouched.
pub open spec fn ways_resolved(before: Tables, after: Tables) -> bool {
    &&& after.nodes == before.nodes
    &&& after.relations == before.relations
    &&& after.ways.len() == before.ways.len()
    &&& forall|w: int|
        0 <= w < after.ways.len() ==> {
            &&& (#[trigger] after.ways[w]).same_but_box(before.ways[w])
            &&& after.ways[w].bbox.is_hull_of(node_sources(after.nodes, after.ways[w].nodes@))
        }
}

/// The way at position `d` is the first that has no member in the node table.
pub open spec fn first_degenerate_way(t: Tables, d: int) -> bool {
    &&& 0 <= d < t.ways.len()
    &&& no_member_known(t.nodes, t.ways[d].nodes@)
    &&& forall|w: int| 0 <= w < d ==> !no_member_known(t.nodes, (#[trigger] t.ways[w]).nodes@)
}

/// Some member is in the node table exactly when the way has a source.
pub proof fn lemma_member_known(nodes: Seq<NodeRow>, members: Seq<i64>)
    ensures
        no_member_known(nodes, members) <==> (forall|b: BoundingBox|
            !node_sources(nodes, members).contains(b)),
{
    let s = node_sources(nodes, members);
    if !no_member_known(nodes, members) {
        let n = choose|n: int| 0 <= n < nodes.len() && is_member(nodes, members, n);
        assert(s.contains(nodes[n].point()));
    }
    if exists|b: BoundingBox| s.contains(b) {
        let b = choose|b: BoundingBox| s.contains(b);
        let (k, n) = choose|k: int, n: int|
            0 <= k < members.len() && 0 <= n < nodes.len() && #[trigger] members[k] == (
            #[trigger] nodes[n]).node_id && b == nodes[n].point();
        assert(is_member(nodes, members, n));
    }
}

/// Resolves the box of every way from its member nodes, in table order.
///
/// A way none of whose members is in the node table has no extent: the first
/// such way fails the build with `DegenerateGeometry`.
pub fn cal_ways(store: RawStore) -> (r: Result<RawStore, BuildError>)
    ensures
        match r {
            Ok(s) => {
                &&& s@.valid()
                &&& ways_resolved(store@, s@)
                &&& forall|w: int|
                    0 <= w < s@.ways.len() ==> !no_member_known(
                        s@.nodes,
                        (#[trigger] s@.ways[w]).nodes@,
                    )
                &&& forall|w: int, n: int|
                    0 <= w < s@.ways.len() && is_member(s@.nodes, (#[trigger] s@.ways[w]).nodes@, n)
                        ==> {
                        &&& s@.ways[w].bbox.lat_lb <= (#[trigger] s@.nodes[n]).lat
                            <= s@.ways[w].bbox.lat_rt
                        &&& s@.ways[w].bbox.lon_lb <= s@.nodes[n].lon <= s@.ways[w].bbox.lon_rt
                    }
            },
            Err(BuildError::DegenerateGeometry(id)) => exists|d: int|
                first_degenerate_way(store@, d) && id == store@.ways[d].way_id,
            Err(_) => false,
        },
{
    let ghost t0 = store@;
    let (nodes, mut ways, relations, node_index, way_index, relation_index) = store.into_parts();
    let mut w: usize = 0;
    while w < ways.len()
        invariant
            w <= ways.len(),
            t0 == store@,
            ways.len() == t0.ways.len(),
            nodes@ == t0.nodes,
            t0.valid(),
            indexes(node_index@, node_ids(nodes@)),
            forall|i: int| 0 <= i < ways.len() ==> (#[trigger] ways[i]).same_but_box(t0.ways[i]),
            forall|i: int| 0 <= i < ways.len() ==> (#[trigger] ways[i]).valid(),
            forall|i: int|
                0 <= i < w ==> (#[trigger] ways[i]).bbox.is_hull_of(
                    node_sources(nodes@, ways[i].nodes@),
                ),
        decreases ways.len() - w,
    {
        let ghost sources = node_sources(nodes@, ways[w as int].nodes@);
        match way_extent(&nodes, &node_index, &ways[w].nodes) {
            Some(b) => {
                proof {
                    lemma_hull_valid(b, sources);
                }
                ways[w].bbox = b;
            },
            None => {
                proof {
                    lemma_member_known(t0.nodes, t0.ways[w as int].nodes@);
                    assert forall|i: int| 0 <= i < w implies !no_member_known(
                        t0.nodes,
                        (#[trigger] t0.ways[i]).nodes@,
                    ) by {
                        lemma_member_known(t0.nodes, t0.ways[i].nodes@);
                        let h = ways[i].bbox;
                    }
                    assert(first_degenerate_way(t0, w as int));
                }
                return Err(BuildError::DegenerateGeometry(ways[w].way_id));
            },
        }
        w += 1;
    }
    proof {
        assert(way_ids(ways@) =~= way_ids(t0.ways));
        assert forall|i: int, n: int|
            0 <= i < ways@.len() && is_member(nodes@, (#[trigger] ways@[i]).nodes@, n) implies {
            &&& ways@[i].bbox.lat_lb <= (#[trigger] nodes@[n]).lat <= ways@[i].bbox.lat_rt
            &&& ways@[i].bbox.lon_lb <= nodes@[n].lon <= ways@[i].bbox.lon_rt
        } by {
            lemma_way_box_holds_members(nodes@, ways@[i], n);
        }
    }
    Ok(RawStore::from_parts(nodes, ways, relations, node_index, way_index, relation_index))
}

/// A box that is the hull of a way's member nodes holds each of them.
pub proof fn lemma_way_box_holds_members(nodes: Seq<NodeRow>, way: WayRow, n: int)
    requires
        way.bbox.is_hull_of(node_sources(nodes, way.nodes@)),
        is_member(nodes, way.nodes@, n),
    ensures
        way.bbox.lat_lb <= nodes[n].lat <= way.bbox.lat_rt,
        way.bbox.lon_lb <= nodes[n].lon <= way.bbox.lon_rt,
{
    assert(node_sources(nodes, way.nodes@).contains(nodes[n].point()));
}

} // verus!
