//! Extents of relations. A relation may refer to other relations, so its box
//! can be computed only once theirs are known: the tables are swept again and
//! again until a sweep resolves nothing more.

use std::collections::HashMap;
use vstd::prelude::*;

use crate::bbox::{
    extend, hull_so_far, lemma_absorb_hull, lemma_extend_hull, lemma_hull_valid, merge_sources,
    spec_absorb, spec_merge, BoundingBox,
};
use crate::error::BuildError;
use crate::store::{
    distinct, find, indexes, node_ids, relation_ids, way_ids, NodeRow, RawStore, RefKind,
    Reference, RelationRow, Tables, WayRow,
};

verus! {

/// The element that `rf` names is in its table.
pub open spec fn ref_resolves(t: Tables, rf: Reference) -> bool {
    match rf.kind {
        RefKind::Node => exists|n: int|
            0 <= n < t.nodes.len() && (#[trigger] t.nodes[n]).node_id == rf.id,
        RefKind::Way => exists|w: int|
            0 <= w < t.ways.len() && (#[trigger] t.ways[w]).way_id == rf.id,
        RefKind::Relation => exists|j: int|
            0 <= j < t.relations.len() && (#[trigger] t.relations[j]).relation_id == rf.id,
    }
}

/// `b` is what `rf` contributes to an extent: the point of the node, or the
/// box of the way or relation, that it names.
pub open spec fn ref_source(t: Tables, rf: Reference, b: BoundingBox) -> bool {
    match rf.kind {
        RefKind::Node => exists|n: int|
            0 <= n < t.nodes.len() && (#[trigger] t.nodes[n]).node_id == rf.id && b
                == t.nodes[n].point(),
        RefKind::Way => exists|w: int|
            0 <= w < t.ways.len() && (#[trigger] t.ways[w]).way_id == rf.id && b == t.ways[w].bbox,
        RefKind::Relation => exists|j: int|
            0 <= j < t.relations.len() && (#[trigger] t.relations[j]).relation_id == rf.id && b
                == t.relations[j].bbox,
    }
}

/// The boxes that the references of one kind among the first `upto` of `refs`
/// contribute.
pub open spec fn kind_sources(t: Tables, refs: Seq<Reference>, kind: RefKind, upto: int) -> Set<
    BoundingBox,
> {
    Set::new(
        |b: BoundingBox|
            exists|k: int|
                0 <= k < upto && (#[trigger] refs[k]).kind == kind && ref_source(t, refs[k], b),
    )
}

/// The boxes that the references of a relation contribute: the sources of its
/// extent.
pub open spec fn relation_sources(t: Tables, refs: Seq<Reference>) -> Set<BoundingBox> {
    Set::new(
        |b: BoundingBox| exists|k: int| 0 <= k < refs.len() && ref_source(t, #[trigger] refs[k], b),
    )
}

/// Some reference names an element that is in its table.
pub open spec fn has_source(t: Tables, refs: Seq<Reference>) -> bool {
    exists|k: int| 0 <= k < refs.len() && ref_resolves(t, #[trigger] refs[k])
}

/// A reference contributes a box exactly when it resolves.
pub proof fn lemma_source_resolves(t: Tables, rf: Reference)
    ensures
        ref_resolves(t, rf) <==> exists|b: BoundingBox| ref_source(t, rf, b),
{
    if ref_resolves(t, rf) {
        match rf.kind {
            RefKind::Node => {
                let n = choose|n: int|
                    0 <= n < t.nodes.len() && (#[trigger] t.nodes[n]).node_id == rf.id;
                assert(ref_source(t, rf, t.nodes[n].point()));
            },
            RefKind::Way => {
                let w = choose|w: int| 0 <= w < t.ways.len() && (#[trigger] t.ways[w]).way_id == rf.id;
                assert(ref_source(t, rf, t.ways[w].bbox));
            },
            RefKind::Relation => {
                let j = choose|j: int|
                    0 <= j < t.relations.len() && (#[trigger] t.relations[j]).relation_id == rf.id;
                assert(ref_source(t, rf, t.relations[j].bbox));
            },
        }
    }
}

/// With unique identifiers a reference contributes at most one box.
pub proof fn lemma_source_unique(t: Tables, rf: Reference, b1: BoundingBox, b2: BoundingBox)
    requires
        t.valid(),
        ref_source(t, rf, b1),
        ref_source(t, rf, b2),
    ensures
        b1 == b2,
{
    match rf.kind {
        RefKind::Node => {
            let n1 = choose|n: int|
                0 <= n < t.nodes.len() && (#[trigger] t.nodes[n]).node_id == rf.id && b1
                    == t.nodes[n].point();
            let n2 = choose|n: int|
                0 <= n < t.nodes.len() && (#[trigger] t.nodes[n]).node_id == rf.id && b2
                    == t.nodes[n].point();
            assert(node_ids(t.nodes)[n1] == node_ids(t.nodes)[n2]);
        },
        RefKind::Way => {
            let w1 = choose|w: int|
                0 <= w < t.ways.len() && (#[trigger] t.ways[w]).way_id == rf.id && b1
                    == t.ways[w].bbox;
            let w2 = choose|w: int|
                0 <= w < t.ways.len() && (#[trigger] t.ways[w]).way_id == rf.id && b2
                    == t.ways[w].bbox;
            assert(way_ids(t.ways)[w1] == way_ids(t.ways)[w2]);
        },
        RefKind::Relation => {
            let j1 = choose|j: int|
                0 <= j < t.relations.len() && (#[trigger] t.relations[j]).relation_id == rf.id
                    && b1 == t.relations[j].bbox;
            let j2 = choose|j: int|
                0 <= j < t.relations.len() && (#[trigger] t.relations[j]).relation_id == rf.id
                    && b2 == t.relations[j].bbox;
            assert(relation_ids(t.relations)[j1] == relation_ids(t.relations)[j2]);
        },
    }
}

/// Every source of a relation in valid tables is ordered and on the globe.
pub proof fn lemma_sources_valid(t: Tables, refs: Seq<Reference>)
    requires
        t.valid(),
    ensures
        forall|b: BoundingBox| #[trigger]
            relation_sources(t, refs).contains(b) ==> b.ordered() && b.on_globe(),
{
}

/// What the sources of one kind become when the next reference is taken in.
proof fn lemma_kind_step(
    t: Tables,
    refs: Seq<Reference>,
    kind: RefKind,
    k: int,
    found: Option<BoundingBox>,
)
    requires
        t.valid(),
        0 <= k < refs.len(),
        match found {
            Some(b) => refs[k].kind == kind && ref_source(t, refs[k], b),
            None => refs[k].kind != kind || !ref_resolves(t, refs[k]),
        },
    ensures
        kind_sources(t, refs, kind, k + 1) == match found {
            Some(b) => kind_sources(t, refs, kind, k).insert(b),
            None => kind_sources(t, refs, kind, k),
        },
{
    let before = kind_sources(t, refs, kind, k);
    let after = kind_sources(t, refs, kind, k + 1);
    let expected = match found {
        Some(b) => before.insert(b),
        None => before,
    };
    assert forall|x: BoundingBox| after.contains(x) <==> expected.contains(x) by {
        if after.contains(x) {
            let k2 = choose|k2: int|
                0 <= k2 < k + 1 && (#[trigger] refs[k2]).kind == kind && ref_source(t, refs[k2], x);
            if k2 == k {
                lemma_source_resolves(t, refs[k]);
                lemma_source_unique(t, refs[k], x, found->0);
            }
        }
    }
}

/// The hull of the sources of a relation is the three-way merge of the hulls
/// of what its node references, its way references and its relation
/// references contribute, any of which may be absent.
pub proof fn lemma_three_way_merge(
    t: Tables,
    refs: Seq<Reference>,
    from_nodes: Option<BoundingBox>,
    from_ways: Option<BoundingBox>,
    from_relations: Option<BoundingBox>,
)
    requires
        hull_so_far(from_nodes, kind_sources(t, refs, RefKind::Node, refs.len() as int)),
        hull_so_far(from_ways, kind_sources(t, refs, RefKind::Way, refs.len() as int)),
        hull_so_far(from_relations, kind_sources(t, refs, RefKind::Relation, refs.len() as int)),
    ensures
        hull_so_far(spec_merge(from_nodes, from_ways, from_relations), relation_sources(t, refs)),
{
    let sn = kind_sources(t, refs, RefKind::Node, refs.len() as int);
    let sw = kind_sources(t, refs, RefKind::Way, refs.len() as int);
    let sr = kind_sources(t, refs, RefKind::Relation, refs.len() as int);
    let all = relation_sources(t, refs);
    lemma_absorb_hull(from_nodes, sn, from_ways, sw);
    lemma_absorb_hull(spec_absorb(from_nodes, from_ways), sn.union(sw), from_relations, sr);
    assert(all =~= sn.union(sw).union(sr));
}

/// The extent of a relation: the three-way merge of what its node, way and
/// relation references contribute, or `None` when none of them resolves.
fn relation_extent(
    nodes: &Vec<NodeRow>,
    ways: &Vec<WayRow>,
    relations: &Vec<RelationRow>,
    node_index: &HashMap<i64, usize>,
    way_index: &HashMap<i64, usize>,
    relation_index: &HashMap<i64, usize>,
    refs: &Vec<Reference>,
) -> (r: Option<BoundingBox>)
    requires
        (Tables { nodes: nodes@, ways: ways@, relations: relations@ }).valid(),
        indexes(node_index@, node_ids(nodes@)),
        indexes(way_index@, way_ids(ways@)),
        indexes(relation_index@, relation_ids(relations@)),
    ensures
        hull_so_far(
            r,
            relation_sources(Tables { nodes: nodes@, ways: ways@, relations: relations@ }, refs@),
        ),
{
    let ghost t = Tables { nodes: nodes@, ways: ways@, relations: relations@ };
    let mut from_nodes: Option<BoundingBox> = None;
    let mut from_ways: Option<BoundingBox> = None;
    let mut from_relations: Option<BoundingBox> = None;
    let mut k: usize = 0;
    while k < refs.len()
        invariant
            k <= refs.len(),
            t == (Tables { nodes: nodes@, ways: ways@, relations: relations@ }),
            t.valid(),
            indexes(node_index@, node_ids(nodes@)),
            indexes(way_index@, way_ids(ways@)),
            indexes(relation_index@, relation_ids(relations@)),
            hull_so_far(from_nodes, kind_sources(t, refs@, RefKind::Node, k as int)),
            hull_so_far(from_ways, kind_sources(t, refs@, RefKind::Way, k as int)),
            hull_so_far(from_relations, kind_sources(t, refs@, RefKind::Relation, k as int)),
        decreases refs.len() - k,
    {
        let rf = refs[k];
        let ghost mut found_node: Option<BoundingBox> = None;
        let ghost mut found_way: Option<BoundingBox> = None;
        let ghost mut found_relation: Option<BoundingBox> = None;
        match rf.kind {
            RefKind::Node => {
                match find(node_index, rf.id, Ghost(node_ids(nodes@))) {
                    Some(n) => {
                        let b = BoundingBox::point(nodes[n].lat, nodes[n].lon);
                        proof {
                            found_node = Some(b);
                            lemma_extend_hull(
                                from_nodes,
                                kind_sources(t, refs@, RefKind::Node, k as int),
                                b,
                            );
                        }
                        from_nodes = extend(from_nodes, b);
                    },
                    None => {
                        assert forall|n: int| 0 <= n < t.nodes.len() implies (
                        #[trigger] t.nodes[n]).node_id != rf.id by {
                            assert(node_ids(nodes@)[n] == t.nodes[n].node_id);
                        }
                    },
                }
            },
            RefKind::Way => {
                match find(way_index, rf.id, Ghost(way_ids(ways@))) {
                    Some(w) => {
                        let b = ways[w].bbox;
                        proof {
                            found_way = Some(b);
                            lemma_extend_hull(
                                from_ways,
                                kind_sources(t, refs@, RefKind::Way, k as int),
                                b,
                            );
                        }
                        from_ways = extend(from_ways, b);
                    },
                    None => {
                        assert forall|w: int| 0 <= w < t.ways.len() implies (
                        #[trigger] t.ways[w]).way_id != rf.id by {
                            assert(way_ids(ways@)[w] == t.ways[w].way_id);
                        }
                    },
                }
            },
            RefKind::Relation => {
                match find(relation_index, rf.id, Ghost(relation_ids(relations@))) {
                    Some(j) => {
                        let b = relations[j].bbox;
                        proof {
                            found_relation = Some(b);
                            lemma_extend_hull(
                                from_relations,
                                kind_sources(t, refs@, RefKind::Relation, k as int),
                                b,
                            );
                        }
                        from_relations = extend(from_relations, b);
                    },
                    None => {
                        assert forall|j: int| 0 <= j < t.relations.len() implies (
                        #[trigger] t.relations[j]).relation_id != rf.id by {
                            assert(relation_ids(relations@)[j] == t.relations[j].relation_id);
                        }
                    },
                }
            },
        }
        proof {
            lemma_kind_step(t, refs@, RefKind::Node, k as int, found_node);
            lemma_kind_step(t, refs@, RefKind::Way, k as int, found_way);
            lemma_kind_step(t, refs@, RefKind::Relation, k as int, found_relation);
        }
        k += 1;
    }
    proof {
        lemma_three_way_merge(t, refs@, from_nodes, from_ways, from_relations);
    }
    merge_sources(from_nodes, from_ways, from_relations)
}

/// Relation `i` has a reference to relation `j`, which is in the table.
pub open spec fn depends_on(relations: Seq<RelationRow>, i: int, j: int) -> bool {
    &&& 0 <= i < relations.len()
    &&& 0 <= j < relations.len()
    &&& exists|k: int|
        0 <= k < relations[i].refs@.len() && #[trigger] relations[i].refs@[k] == (Reference {
            id: relations[j].relation_id,
            kind: RefKind::Relation,
        })
}

/// Relation `i` waits for a relation that is not resolved yet.
pub open spec fn blocked(relations: Seq<RelationRow>, i: int) -> bool {
    exists|j: int| #[trigger] depends_on(relations, i, j) && !relations[j].dep
}

/// Relation `i` is resolved, or every relation it depends on can be resolved
/// within `k - 1` steps.
pub open spec fn resolves_within(relations: Seq<RelationRow>, i: int, k: nat) -> bool
    decreases k,
{
    relations[i].dep || (k > 0 && forall|j: int| #[trigger]
        depends_on(relations, i, j) ==> resolves_within(relations, j, (k - 1) as nat))
}

/// Relation `i` can be resolved: no chain of dependencies from it runs into a
/// cycle of unresolved relations.
pub open spec fn resolvable(relations: Seq<RelationRow>, i: int) -> bool {
    exists|k: nat| resolves_within(relations, i, k)
}

/// The relation at position `d` is the first unresolved one none of whose
/// references names an element of the tables.
pub open spec fn first_degenerate_relation(t: Tables, d: int) -> bool {
    &&& 0 <= d < t.relations.len()
    &&& !t.relations[d].dep
    &&& !has_source(t, t.relations[d].refs@)
    &&& forall|i: int|
        0 <= i < d ==> (#[trigger] t.relations[i]).dep || has_source(t, t.relations[i].refs@)
}

/// The identifiers of the relations among the first `upto` that cannot be
/// resolved, in table order.
pub open spec fn stuck_ids(relations: Seq<RelationRow>, upto: int) -> Seq<i64>
    decreases upto,
{
    if upto <= 0 {
        Seq::empty()
    } else if resolvable(relations, upto - 1) {
        stuck_ids(relations, upto - 1)
    } else {
        stuck_ids(relations, upto - 1).push(relations[upto - 1].relation_id)
    }
}

/// `after` is `before` with some of its unresolved relations resolved: each
/// of those has the hull of its sources for a box. Nothing else differs.
pub open spec fn carried_over(before: Tables, after: Tables) -> bool {
    &&& after.nodes == before.nodes
    &&& after.ways == before.ways
    &&& after.relations.len() == before.relations.len()
    &&& forall|i: int|
        0 <= i < after.relations.len() ==> {
            &&& (#[trigger] after.relations[i]).same_but_box(before.relations[i])
            &&& before.relations[i].dep ==> after.relations[i] == before.relations[i]
            &&& after.relations[i].dep && !before.relations[i].dep
                ==> after.relations[i].bbox.is_hull_of(
                relation_sources(after, after.relations[i].refs@),
            )
            &&& !after.relations[i].dep ==> after.relations[i] == before.relations[i]
        }
}

/// `after` is `before` with every relation resolved, none of which waited
/// for itself.
pub open spec fn relations_resolved(before: Tables, after: Tables) -> bool {
    &&& carried_over(before, after)
    &&& forall|i: int| 0 <= i < after.relations.len() ==> (#[trigger] after.relations[i]).dep
    &&& forall|i: int| 0 <= i < before.relations.len() ==> resolvable(before.relations, i)
}

/// The number of unresolved relations.
pub open spec fn unresolved_count(relations: Seq<RelationRow>) -> nat
    decreases relations.len(),
{
    if relations.len() == 0 {
        0
    } else {
        unresolved_count(relations.drop_last()) + if relations.last().dep {
            0nat
        } else {
            1nat
        }
    }
}

/// Resolving one relation lowers the number of unresolved ones by one.
proof fn lemma_count_drops(before: Seq<RelationRow>, after: Seq<RelationRow>, i: int)
    requires
        before.len() == after.len(),
        0 <= i < before.len(),
        !before[i].dep,
        after[i].dep,
        forall|j: int| 0 <= j < before.len() && j != i ==> before[j].dep == after[j].dep,
    ensures
        unresolved_count(after) + 1 == unresolved_count(before),
    decreases before.len(),
{
    let n = before.len() - 1;
    if i == n {
        lemma_count_same(before.drop_last(), after.drop_last());
    } else {
        lemma_count_drops(before.drop_last(), after.drop_last(), i);
    }
}

/// Tables with the same flags have the same number of unresolved relations.
proof fn lemma_count_same(before: Seq<RelationRow>, after: Seq<RelationRow>)
    requires
        before.len() == after.len(),
        forall|j: int| 0 <= j < before.len() ==> before[j].dep == after[j].dep,
    ensures
        unresolved_count(after) == unresolved_count(before),
    decreases before.len(),
{
    if before.len() > 0 {
        lemma_count_same(before.drop_last(), after.drop_last());
    }
}

/// A relation that resolves within `k` steps resolves within more.
pub proof fn lemma_resolves_later(relations: Seq<RelationRow>, i: int, k: nat, m: nat)
    requires
        resolves_within(relations, i, k),
        k <= m,
    ensures
        resolves_within(relations, i, m),
    decreases k,
{
    if !relations[i].dep {
        assert forall|j: int| #[trigger] depends_on(relations, i, j) implies resolves_within(
            relations,
            j,
            (m - 1) as nat,
        ) by {
            lemma_resolves_later(relations, j, (k - 1) as nat, (m - 1) as nat);
        }
    }
}

/// What holds of the tables `t` between two resolutions, `t0` being the
/// tables at the start: every relation resolved since then waits for nothing,
/// and every resolved relation resolves in `t0` within `depth` steps.
spec fn sweep_inv(t0: Tables, t: Tables, depth: nat) -> bool {
    &&& t0.valid()
    &&& t.valid()
    &&& carried_over(t0, t)
    &&& forall|i: int|
        0 <= i < t.relations.len() && (#[trigger] t.relations[i]).dep && !t0.relations[i].dep
            ==> !blocked(t.relations, i)
    &&& forall|i: int|
        0 <= i < t.relations.len() && (#[trigger] t.relations[i]).dep ==> resolves_within(
            t0.relations,
            i,
            depth,
        )
}

/// `t2` is `t` with relation `i` resolved to the box `b`.
spec fn resolved_one(t: Tables, t2: Tables, i: int, b: BoundingBox) -> bool {
    &&& t2.nodes == t.nodes
    &&& t2.ways == t.ways
    &&& t2.relations.len() == t.relations.len()
    &&& 0 <= i < t.relations.len()
    &&& forall|j: int| 0 <= j < t.relations.len() && j != i ==> t2.relations[j] == t.relations[j]
    &&& t2.relations[i].same_but_box(t.relations[i])
    &&& t2.relations[i].bbox == b
    &&& t2.relations[i].dep
    &&& !t.relations[i].dep
}

/// Tables that differ in boxes and flags only have the same dependencies.
proof fn lemma_same_dependencies(t: Seq<RelationRow>, t2: Seq<RelationRow>, i: int, j: int)
    requires
        t2.len() == t.len(),
        forall|m: int| 0 <= m < t.len() ==> (#[trigger] t2[m]).same_but_box(t[m]),
    ensures
        depends_on(t, i, j) == depends_on(t2, i, j),
{
}

/// Resolving relation `i` leaves the sources of a relation that does not
/// depend on it as they were.
proof fn lemma_sources_stable(t: Tables, t2: Tables, i: int, b: BoundingBox, m: int)
    requires
        resolved_one(t, t2, i, b),
        0 <= m < t.relations.len(),
        !depends_on(t.relations, m, i),
    ensures
        relation_sources(t2, t.relations[m].refs@) == relation_sources(t, t.relations[m].refs@),
{
}

/// One resolution keeps what holds between resolutions, one step deeper.
proof fn lemma_resolve_step(t0: Tables, t: Tables, t2: Tables, i: int, b: BoundingBox, depth: nat)
    requires
        sweep_inv(t0, t, depth),
        resolved_one(t, t2, i, b),
        !blocked(t.relations, i),
        b.is_hull_of(relation_sources(t, t.relations[i].refs@)),
    ensures
        sweep_inv(t0, t2, depth + 1),
        unresolved_count(t2.relations) + 1 == unresolved_count(t.relations),
{
    lemma_count_drops(t.relations, t2.relations, i);
    lemma_sources_valid(t, t.relations[i].refs@);
    lemma_hull_valid(b, relation_sources(t, t.relations[i].refs@));
    assert(relation_ids(t2.relations) =~= relation_ids(t.relations)) by {
        assert forall|m: int| 0 <= m < t.relations.len() implies t2.relations[m].relation_id
            == t.relations[m].relation_id by {}
    }
    assert forall|m: int|
        0 <= m < t2.relations.len() && (#[trigger] t2.relations[m]).dep
            && !t0.relations[m].dep implies !blocked(t2.relations, m) by {
        if blocked(t2.relations, m) {
            let j = choose|j: int| #[trigger] depends_on(t2.relations, m, j) && !t2.relations[j].dep;
            lemma_same_dependencies(t.relations, t2.relations, m, j);
        }
    }
    assert forall|m: int| 0 <= m < t2.relations.len() implies {
        &&& (#[trigger] t2.relations[m]).same_but_box(t0.relations[m])
        &&& t0.relations[m].dep ==> t2.relations[m] == t0.relations[m]
        &&& t2.relations[m].dep && !t0.relations[m].dep ==> t2.relations[m].bbox.is_hull_of(
            relation_sources(t2, t2.relations[m].refs@),
        )
        &&& !t2.relations[m].dep ==> t2.relations[m] == t0.relations[m]
    } by {
        if t2.relations[m].dep && !t0.relations[m].dep {
            lemma_sources_stable(t, t2, i, b, m);
        }
    }
    assert forall|m: int|
        0 <= m < t2.relations.len() && (#[trigger] t2.relations[m]).dep implies resolves_within(
        t0.relations,
        m,
        depth + 1,
    ) by {
        if m == i {
            assert forall|j: int| #[trigger] depends_on(t0.relations, i, j) implies resolves_within(
                t0.relations,
                j,
                depth,
            ) by {
                lemma_same_dependencies(t0.relations, t.relations, i, j);
            }
        } else {
            lemma_resolves_later(t0.relations, m, depth, depth + 1);
        }
    }
}

/// When every unresolved relation waits for another unresolved one, none of
/// them resolves within any number of steps.
proof fn lemma_stalled(t0: Tables, t: Tables, depth: nat, i: int, k: nat)
    requires
        sweep_inv(t0, t, depth),
        forall|m: int|
            0 <= m < t.relations.len() && !(#[trigger] t.relations[m]).dep ==> blocked(t.relations, m),
        0 <= i < t.relations.len(),
        !t.relations[i].dep,
    ensures
        !resolves_within(t0.relations, i, k),
    decreases k,
{
    if k > 0 {
        let j = choose|j: int| #[trigger] depends_on(t.relations, i, j) && !t.relations[j].dep;
        lemma_same_dependencies(t0.relations, t.relations, i, j);
        lemma_stalled(t0, t, depth, j, (k - 1) as nat);
    }
}

/// Whether relation `i` waits for a relation that is not resolved yet.
fn is_blocked(relations: &Vec<RelationRow>, relation_index: &HashMap<i64, usize>, i: usize) -> (r:
    bool)
    requires
        i < relations.len(),
        indexes(relation_index@, relation_ids(relations@)),
        distinct(relation_ids(relations@)),
    ensures
        r == blocked(relations@, i as int),
{
    let refs = &relations[i].refs;
    let mut k: usize = 0;
    while k < refs.len()
        invariant
            k <= refs.len(),
            i < relations.len(),
            refs == &relations[i as int].refs,
            indexes(relation_index@, relation_ids(relations@)),
            distinct(relation_ids(relations@)),
            forall|k2: int, j: int|
                0 <= k2 < k && 0 <= j < relations.len() && #[trigger] refs@[k2] == (Reference {
                    id: (#[trigger] relations[j]).relation_id,
                    kind: RefKind::Relation,
                }) ==> relations[j].dep,
        decreases refs.len() - k,
    {
        let rf = refs[k];
        match rf.kind {
            RefKind::Relation => {
                match find(relation_index, rf.id, Ghost(relation_ids(relations@))) {
                    Some(j) => {
                        if !relations[j].dep {
                            assert(depends_on(relations@, i as int, j as int));
                            return true;
                        }
                        assert forall|j2: int|
                            0 <= j2 < relations.len() && refs@[k as int] == (Reference {
                                id: (#[trigger] relations[j2]).relation_id,
                                kind: RefKind::Relation,
                            }) implies relations[j2].dep by {
                            assert(relation_ids(relations@)[j2] == relations[j2].relation_id);
                        }
                    },
                    None => {
                        assert forall|j2: int| 0 <= j2 < relations.len() implies (
                        #[trigger] relations[j2]).relation_id != rf.id by {
                            assert(relation_ids(relations@)[j2] == relations[j2].relation_id);
                        }
                    },
                }
            },
            _ => {},
        }
        k += 1;
    }
    false
}

/// A relation has a source exactly when one of its references resolves.
pub proof fn lemma_has_source(t: Tables, refs: Seq<Reference>)
    ensures
        has_source(t, refs) <==> exists|b: BoundingBox| relation_sources(t, refs).contains(b),
{
    if has_source(t, refs) {
        let k = choose|k: int| 0 <= k < refs.len() && ref_resolves(t, #[trigger] refs[k]);
        lemma_source_resolves(t, refs[k]);
        let b = choose|b: BoundingBox| ref_source(t, refs[k], b);
        assert(relation_sources(t, refs).contains(b));
    }
    if exists|b: BoundingBox| relation_sources(t, refs).contains(b) {
        let b = choose|b: BoundingBox| relation_sources(t, refs).contains(b);
        let k = choose|k: int| 0 <= k < refs.len() && ref_source(t, #[trigger] refs[k], b);
        lemma_source_resolves(t, refs[k]);
    }
}

/// Resolving relations does not change which references resolve.
proof fn lemma_same_resolves(t0: Tables, t: Tables, refs: Seq<Reference>)
    requires
        carried_over(t0, t),
    ensures
        has_source(t0, refs) == has_source(t, refs),
{
    assert forall|rf: Reference| ref_resolves(t0, rf) == ref_resolves(t, rf) by {
        if rf.kind == RefKind::Relation {
            if ref_resolves(t0, rf) {
                let j = choose|j: int|
                    0 <= j < t0.relations.len() && (#[trigger] t0.relations[j]).relation_id
                        == rf.id;
                assert(t.relations[j].same_but_box(t0.relations[j]));
            }
        }
    }
}

/// A relation that depends on another has a source.
proof fn lemma_dependency_is_source(t: Tables, i: int, j: int)
    requires
        depends_on(t.relations, i, j),
    ensures
        has_source(t, t.relations[i].refs@),
{
}

/// Resolves the box of every unresolved relation.
///
/// The relation table is swept in order, again and again. A sweep resolves
/// each unresolved relation that waits for no unresolved relation: its box
/// becomes the three-way merge of what its node, way and relation references
/// contribute. The sweeps end with the first that resolves nothing.
///
/// An unresolved relation none of whose references names an element of the
/// tables has no extent: the first such relation fails the build with
/// `DegenerateGeometry`. Otherwise, relations that wait for each other in a
/// cycle, or for such relations, fail it with `UnresolvedDependency`, which
/// lists them in table order.
pub fn cal_relations(store: RawStore) -> (r: Result<RawStore, BuildError>)
    ensures
        match r {
            Ok(s) => {
                &&& s@.valid()
                &&& relations_resolved(store@, s@)
                &&& forall|i: int|
                    0 <= i < store@.relations.len() ==> (#[trigger] store@.relations[i]).dep
                        || has_source(store@, store@.relations[i].refs@)
            },
            Err(BuildError::DegenerateGeometry(id)) => exists|d: int|
                first_degenerate_relation(store@, d) && id == store@.relations[d].relation_id,
            Err(BuildError::UnresolvedDependency(ids)) => {
                &&& forall|i: int|
                    0 <= i < store@.relations.len() ==> (#[trigger] store@.relations[i]).dep
                        || has_source(store@, store@.relations[i].refs@)
                &&& exists|i: int|
                    0 <= i < store@.relations.len() && !resolvable(store@.relations, i)
                &&& ids@ == stuck_ids(store@.relations, store@.relations.len() as int)
            },
            Err(_) => false,
        },
{
    let ghost t0 = store@;
    let (nodes, ways, mut relations, node_index, way_index, relation_index) = store.into_parts();
    let n = relations.len();
    let ghost mut depth: nat = 0;
    loop
        invariant
            t0 == store@,
            n == relations.len(),
            nodes@ == t0.nodes,
            ways@ == t0.ways,
            sweep_inv(t0, Tables { nodes: nodes@, ways: ways@, relations: relations@ }, depth),
            indexes(node_index@, node_ids(nodes@)),
            indexes(way_index@, way_ids(ways@)),
            indexes(relation_index@, relation_ids(relations@)),
        ensures
            forall|m: int|
                0 <= m < relations.len() && !(#[trigger] relations[m]).dep ==> blocked(
                    relations@,
                    m,
                ),
            forall|m: int|
                0 <= m < t0.relations.len() ==> (#[trigger] t0.relations[m]).dep || has_source(
                    t0,
                    t0.relations[m].refs@,
                ),
        decreases unresolved_count(relations@),
    {
        let ghost start = relations@;
        let mut changed = false;
        let mut i: usize = 0;
        while i < n
            invariant
                i <= n,
                t0 == store@,
                n == relations.len(),
                nodes@ == t0.nodes,
                ways@ == t0.ways,
                sweep_inv(t0, Tables { nodes: nodes@, ways: ways@, relations: relations@ }, depth),
                indexes(node_index@, node_ids(nodes@)),
                indexes(way_index@, way_ids(ways@)),
                indexes(relation_index@, relation_ids(relations@)),
                !changed ==> relations@ == start,
                changed ==> unresolved_count(relations@) < unresolved_count(start),
                !changed ==> forall|m: int|
                    0 <= m < i && !(#[trigger] relations[m]).dep ==> blocked(relations@, m),
                forall|m: int|
                    0 <= m < i ==> (#[trigger] t0.relations[m]).dep || has_source(
                        t0,
                        t0.relations[m].refs@,
                    ),
            decreases n - i,
        {
            let ghost t = Tables { nodes: nodes@, ways: ways@, relations: relations@ };
            proof {
                lemma_same_resolves(t0, t, t0.relations[i as int].refs@);
                lemma_has_source(t, t.relations[i as int].refs@);
            }
            if !relations[i].dep {
                if is_blocked(&relations, &relation_index, i) {
                    proof {
                        let j = choose|j: int| #[trigger]
                            depends_on(t.relations, i as int, j) && !t.relations[j].dep;
                        lemma_dependency_is_source(t, i as int, j);
                    }
                } else {
                    match relation_extent(
                        &nodes,
                        &ways,
                        &relations,
                        &node_index,
                        &way_index,
                        &relation_index,
                        &relations[i].refs,
                    ) {
                        None => {
                            proof {
                                assert(first_degenerate_relation(t0, i as int));
                            }
                            return Err(BuildError::DegenerateGeometry(relations[i].relation_id));
                        },
                        Some(b) => {
                            relations[i].bbox = b;
                            relations[i].dep = true;
                            proof {
                                let t2 = Tables {
                                    nodes: nodes@,
                                    ways: ways@,
                                    relations: relations@,
                                };
                                lemma_resolve_step(t0, t, t2, i as int, b, depth);
                                depth = depth + 1;
                                assert(relation_ids(t2.relations) =~= relation_ids(t.relations)) by {
                                    assert forall|m: int|
                                        0 <= m < t.relations.len() implies t2.relations[m].relation_id
                                        == t.relations[m].relation_id by {}
                                }
                            }
                            changed = true;
                        },
                    }
                }
            }
            i += 1;
        }
        if !changed {
            break ;
        }
    }
    let ghost t = Tables { nodes: nodes@, ways: ways@, relations: relations@ };
    proof {
        assert forall|m: int| 0 <= m < n implies (#[trigger] relations@[m]).dep == resolvable(
            t0.relations,
            m,
        ) by {
            if relations@[m].dep {
            } else {
                assert forall|k: nat| !resolves_within(t0.relations, m, k) by {
                    lemma_stalled(t0, t, depth, m, k);
                }
            }
        }
    }
    let mut stuck: Vec<i64> = Vec::new();
    let mut i: usize = 0;
    while i < n
        invariant
            i <= n,
            n == relations.len(),
            n == t0.relations.len(),
            forall|m: int|
                0 <= m < n ==> (#[trigger] relations@[m]).dep == resolvable(t0.relations, m),
            forall|m: int|
                0 <= m < n ==> (#[trigger] relations@[m]).relation_id
                    == t0.relations[m].relation_id,
            stuck@ == stuck_ids(t0.relations, i as int),
            stuck@.len() == 0 ==> forall|m: int| 0 <= m < i ==> (#[trigger] relations@[m]).dep,
            stuck@.len() > 0 ==> exists|m: int| 0 <= m < i && !resolvable(t0.relations, m),
        decreases n - i,
    {
        if !relations[i].dep {
            stuck.push(relations[i].relation_id);
        }
        i += 1;
    }
    if stuck.len() == 0 {
        proof {
            assert forall|m: int| 0 <= m < n implies resolvable(t0.relations, m) by {
                assert(relations@[m].dep);
            }
        }
        Ok(RawStore::from_parts(nodes, ways, relations, node_index, way_index, relation_index))
    } else {
        Err(BuildError::UnresolvedDependency(stuck))
    }
}

/// The relations at the positions `cycle` are unresolved and each depends on
/// the next, the last on the first.
pub open spec fn is_cycle(relations: Seq<RelationRow>, cycle: Seq<int>) -> bool {
    &&& cycle.len() > 0
    &&& forall|m: int|
        0 <= m < cycle.len() ==> {
            &&& 0 <= #[trigger] cycle[m] < relations.len()
            &&& !relations[cycle[m]].dep
            &&& depends_on(relations, cycle[m], cycle[(m + 1) % (cycle.len() as int)])
        }
}

/// A relation on a cycle of dependencies does not resolve within any number
/// of steps.
proof fn lemma_cycle_stays(relations: Seq<RelationRow>, cycle: Seq<int>, m: int, k: nat)
    requires
        is_cycle(relations, cycle),
        0 <= m < cycle.len(),
    ensures
        !resolves_within(relations, cycle[m], k),
    decreases k,
{
    if k > 0 {
        let next = (m + 1) % (cycle.len() as int);
        lemma_cycle_stays(relations, cycle, next, (k - 1) as nat);
    }
}

/// Relations that depend on each other in a cycle can never be resolved: no
/// sweep ever finds one of them ready.
pub proof fn lemma_cycle_never_resolves(relations: Seq<RelationRow>, cycle: Seq<int>, m: int)
    requires
        is_cycle(relations, cycle),
        0 <= m < cycle.len(),
    ensures
        !resolvable(relations, cycle[m]),
{
    assert forall|k: nat| !resolves_within(relations, cycle[m], k) by {
        lemma_cycle_stays(relations, cycle, m, k);
    }
}

/// A relation that cannot be resolved is among those that an unresolved
/// dependency is reported with.
pub proof fn lemma_stuck_is_listed(relations: Seq<RelationRow>, upto: int, i: int)
    requires
        0 <= i < upto,
        !resolvable(relations, i),
    ensures
        stuck_ids(relations, upto).contains(relations[i].relation_id),
    decreases upto,
{
    if i == upto - 1 {
        let s = stuck_ids(relations, upto);
        assert(s[s.len() - 1] == relations[i].relation_id);
    } else {
        lemma_stuck_is_listed(relations, upto - 1, i);
        let prev = stuck_ids(relations, upto - 1);
        let j = choose|j: int| 0 <= j < prev.len() && prev[j] == relations[i].relation_id;
        assert(stuck_ids(relations, upto)[j] == relations[i].relation_id);
    }
}

/// Tables with a cycle of dependencies have no resolution: resolving them
/// never succeeds.
pub proof fn lemma_cycle_blocks_success(before: Tables, after: Tables, cycle: Seq<int>)
    requires
        is_cycle(before.relations, cycle),
    ensures
        !relations_resolved(before, after),
{
    lemma_cycle_never_resolves(before.relations, cycle, 0);
}

/// Every relation on a cycle of dependencies is among those that an
/// unresolved dependency is reported with.
pub proof fn lemma_cycle_is_listed(relations: Seq<RelationRow>, cycle: Seq<int>, m: int)
    requires
        is_cycle(relations, cycle),
        0 <= m < cycle.len(),
    ensures
        stuck_ids(relations, relations.len() as int).contains(relations[cycle[m]].relation_id),
{
    lemma_cycle_never_resolves(relations, cycle, m);
    lemma_stuck_is_listed(relations, relations.len() as int, cycle[m]);
}

} // verus!
