//! The dataset build from end to end: ingestion, way extents, relation
//! extents, refinement. It succeeds as a whole or not at all.

use vstd::prelude::*;

use crate::element::Decoded;
use crate::error::BuildError;
use crate::ingest::{accepted, dump, element_id, holds, refusal};
use crate::poi::{refine, spec_refine, Poi};
use crate::relations::{
    cal_relations, first_degenerate_relation, has_source, relations_resolved, resolvable,
    stuck_ids,
};
use crate::store::Tables;
use crate::ways::{cal_ways, first_degenerate_way, ways_resolved};

verus! {

/// `raw` holds the whole stream, every item of which was accepted.
pub open spec fn ingested(stream: Seq<Decoded>, raw: Tables) -> bool {
    &&& forall|i: int| 0 <= i < stream.len() ==> accepted(stream, i)
    &&& holds(raw, stream, stream.len() as int)
    &&& raw.valid()
}

/// `with_ways` is what the stream gives once ingested and with every way
/// resolved.
pub open spec fn ways_stage(stream: Seq<Decoded>, raw: Tables, with_ways: Tables) -> bool {
    &&& ingested(stream, raw)
    &&& ways_resolved(raw, with_ways)
    &&& with_ways.valid()
}

/// `resolved` is what the stream gives once ingested and with every way and
/// relation resolved.
pub open spec fn resolved_stage(
    stream: Seq<Decoded>,
    raw: Tables,
    with_ways: Tables,
    resolved: Tables,
) -> bool {
    &&& ways_stage(stream, raw, with_ways)
    &&& relations_resolved(with_ways, resolved)
    &&& resolved.valid()
}

/// `pois` is the POI table that a build from `stream` gives.
pub open spec fn built(stream: Seq<Decoded>, pois: Seq<Poi>) -> bool {
    exists|raw: Tables, with_ways: Tables, resolved: Tables| #[trigger]
        resolved_stage(stream, raw, with_ways, resolved) && pois == spec_refine(resolved)
}

/// A build from `stream` fails with `err`: at the first item that cannot be
/// decoded or stored, else at the first way without an extent, else at the
/// first relation without one, else on the relations that can never be
/// resolved.
pub open spec fn fails_with(stream: Seq<Decoded>, err: BuildError) -> bool {
    match err {
        BuildError::Path => false,
        BuildError::Decode(e) => exists|f: int|
            0 <= f < stream.len() && stream[f] == Err::<crate::element::Element, _>(e)
                && forall|i: int| 0 <= i < f ==> accepted(stream, i),
        BuildError::SchemaViolation(id, c) => exists|f: int|
            0 <= f < stream.len() && stream[f] is Ok && refusal(stream, f) == Some(c) && id
                == element_id(stream[f]->Ok_0) && forall|i: int| 0 <= i < f ==> accepted(stream, i),
        BuildError::DegenerateGeometry(id) => {
            ||| exists|raw: Tables, d: int| #[trigger]
                first_degenerate_way(raw, d) && ingested(stream, raw) && id == raw.ways[d].way_id
            ||| exists|raw: Tables, with_ways: Tables, d: int|
                #![trigger ways_stage(stream, raw, with_ways), first_degenerate_relation(with_ways, d)]
                ways_stage(stream, raw, with_ways) && first_degenerate_relation(with_ways, d) && id
                    == with_ways.relations[d].relation_id
        },
        BuildError::UnresolvedDependency(ids) => exists|raw: Tables, with_ways: Tables| #[trigger]
            ways_stage(stream, raw, with_ways) && unresolved(with_ways, ids@),
    }
}

/// Every relation of `t` has a source, some cannot be resolved, and `ids`
/// lists those in table order.
pub open spec fn unresolved(t: Tables, ids: Seq<i64>) -> bool {
    &&& forall|i: int|
        0 <= i < t.relations.len() ==> (#[trigger] t.relations[i]).dep || has_source(
            t,
            t.relations[i].refs@,
        )
    &&& exists|i: int| 0 <= i < t.relations.len() && !resolvable(t.relations, i)
    &&& ids == stuck_ids(t.relations, t.relations.len() as int)
}

/// Builds the POI table of a decoded extract: ingests the stream, resolves
/// the extent of every way and then of every relation, and refines the named
/// elements into POIs. Any failure on the way gives up the whole build.
pub fn build_pois(stream: Vec<Decoded>) -> (r: Result<Vec<Poi>, BuildError>)
    ensures
        match r {
            Ok(pois) => built(stream@, pois@),
            Err(err) => fails_with(stream@, err),
        },
{
    let raw = match dump(stream) {
        Ok(s) => s,
        Err(err) => {
            return Err(err);
        },
    };
    let ghost t_raw = raw@;
    let with_ways = match cal_ways(raw) {
        Ok(s) => s,
        Err(err) => {
            return Err(err);
        },
    };
    let ghost t_ways = with_ways@;
    assert(ways_stage(stream@, t_raw, t_ways));
    let resolved = match cal_relations(with_ways) {
        Ok(s) => s,
        Err(err) => {
            return Err(err);
        },
    };
    let ghost t_resolved = resolved@;
    assert(resolved_stage(stream@, t_raw, t_ways, t_resolved));
    Ok(refine(resolved))
}

} // verus!
