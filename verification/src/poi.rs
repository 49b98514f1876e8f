//! Refinement: the named elements of resolved raw tables become the rows of
//! the POI table, and the raw tables are given up.

use vstd::prelude::*;

use crate::bbox::BoundingBox;
use crate::coord::{lat_in_range, lon_in_range};
use crate::store::{NodeRow, RawStore, RelationRow, Tables, WayRow};

verus! {

/// Whether a POI is a single point or has an extent.
#[derive(Debug, Clone, Copy, PartialEq, Eq, Structural)]
pub enum PoiType {
    Point,
    Area,
}

/// A named place: its centre, its half-extent on each axis, and its tags as
/// JSON text.
#[derive(Debug, Clone, PartialEq, Eq)]
pub struct Poi {
    pub poi_type: PoiType,
    pub lat: i32,
    pub lon: i32,
    pub d_lat: i32,
    pub d_lon: i32,
    pub tags: String,
}

impl Poi {
    /// The row meets the constraints of the POI table: the centre is on the
    /// globe and no half-extent is negative.
    pub open spec fn valid(self) -> bool {
        &&& lat_in_range(self.lat as int)
        &&& lon_in_range(self.lon as int)
        &&& self.d_lat >= 0
        &&& self.d_lon >= 0
    }
}

/// Half of `x`, rounded towards zero.
pub open spec fn half(x: int) -> int {
    if x >= 0 {
        x / 2
    } else {
        -((-x) / 2)
    }
}

/// The POI of a named node: the point itself.
pub open spec fn point_poi(n: NodeRow) -> Poi {
    Poi { poi_type: PoiType::Point, lat: n.lat, lon: n.lon, d_lat: 0, d_lon: 0, tags: n.tags }
}

/// The POI of a named way or relation with the box `b`: centred at the
/// midpoint of the box, with half its span on each axis.
pub open spec fn area_poi(b: BoundingBox, tags: String) -> Poi {
    Poi {
        poi_type: PoiType::Area,
        lat: half(b.lat_lb + b.lat_rt) as i32,
        lon: half(b.lon_lb + b.lon_rt) as i32,
        d_lat: half(b.lat_rt - b.lat_lb) as i32,
        d_lon: half(b.lon_rt - b.lon_lb) as i32,
        tags: tags,
    }
}

/// For each node, its POI if it is named.
pub open spec fn node_entries(nodes: Seq<NodeRow>) -> Seq<Option<Poi>> {
    Seq::new(
        nodes.len(),
        |i: int|
            if nodes[i].has_name {
                Some(point_poi(nodes[i]))
            } else {
                None
            },
    )
}

/// For each way, its POI if it is named.
pub open spec fn way_entries(ways: Seq<WayRow>) -> Seq<Option<Poi>> {
    Seq::new(
        ways.len(),
        |i: int|
            if ways[i].has_name {
                Some(area_poi(ways[i].bbox, ways[i].tags))
            } else {
                None
            },
    )
}

/// For each relation, its POI if it is named.
pub open spec fn relation_entries(relations: Seq<RelationRow>) -> Seq<Option<Poi>> {
    Seq::new(
        relations.len(),
        |i: int|
            if relations[i].has_name {
                Some(area_poi(relations[i].bbox, relations[i].tags))
            } else {
                None
            },
    )
}

/// The POIs that are present among the first `upto` entries, in order.
pub open spec fn present(entries: Seq<Option<Poi>>, upto: int) -> Seq<Poi>
    decreases upto,
{
    if upto <= 0 {
        Seq::empty()
    } else {
        match entries[upto - 1] {
            Some(p) => present(entries, upto - 1).push(p),
            None => present(entries, upto - 1),
        }
    }
}

/// The POI table of raw tables: the named nodes, then the named ways, then
/// the named relations, each in table order.
pub open spec fn spec_refine(t: Tables) -> Seq<Poi> {
    present(node_entries(t.nodes), t.nodes.len() as int) + present(
        way_entries(t.ways),
        t.ways.len() as int,
    ) + present(relation_entries(t.relations), t.relations.len() as int)
}

/// `p` is the POI of a named row of the tables.
pub open spec fn from_named(t: Tables, p: Poi) -> bool {
    ||| exists|n: int|
        0 <= n < t.nodes.len() && (#[trigger] t.nodes[n]).has_name && p == point_poi(t.nodes[n])
    ||| exists|w: int|
        0 <= w < t.ways.len() && (#[trigger] t.ways[w]).has_name && p == area_poi(
            t.ways[w].bbox,
            t.ways[w].tags,
        )
    ||| exists|r: int|
        0 <= r < t.relations.len() && (#[trigger] t.relations[r]).has_name && p == area_poi(
            t.relations[r].bbox,
            t.relations[r].tags,
        )
}

/// `p` is one of the first `upto` entries.
pub open spec fn occurs(entries: Seq<Option<Poi>>, upto: int, p: Poi) -> bool {
    exists|k: int| 0 <= k < upto && #[trigger] entries[k] == Some(p)
}

/// The midpoint and half-span of a box that is ordered and on the globe make
/// a valid POI.
pub proof fn lemma_area_valid(b: BoundingBox, tags: String)
    requires
        b.ordered(),
        b.on_globe(),
    ensures
        area_poi(b, tags).valid(),
{
}

/// The POI of a way or relation with the box `b`.
fn area_of(b: &BoundingBox, tags: &String) -> (p: Poi)
    ensures
        p == area_poi(*b, *tags),
{
    let lat_sum: i64 = b.lat_lb as i64 + b.lat_rt as i64;
    let lon_sum: i64 = b.lon_lb as i64 + b.lon_rt as i64;
    let lat_span: i64 = b.lat_rt as i64 - b.lat_lb as i64;
    let lon_span: i64 = b.lon_rt as i64 - b.lon_lb as i64;
    Poi {
        poi_type: PoiType::Area,
        lat: halve(lat_sum) as i32,
        lon: halve(lon_sum) as i32,
        d_lat: halve(lat_span) as i32,
        d_lon: halve(lon_span) as i32,
        tags: tags.clone(),
    }
}

/// Half of `x`, rounded towards zero.
fn halve(x: i64) -> (r: i64)
    requires
        -0x1_0000_0000 <= x <= 0x1_0000_0000,
    ensures
        r == half(x as int),
{
    if x >= 0 {
        x / 2
    } else {
        -((-x) / 2)
    }
}

/// The POIs that are present are the entries that hold one.
pub proof fn lemma_present(entries: Seq<Option<Poi>>, upto: int)
    requires
        0 <= upto <= entries.len(),
    ensures
        forall|i: int|
            0 <= i < present(entries, upto).len() ==> occurs(
                entries,
                upto,
                #[trigger] present(entries, upto)[i],
            ),
        forall|p: Poi| occurs(entries, upto, p) ==> present(entries, upto).contains(p),
    decreases upto,
{
    if upto > 0 {
        lemma_present(entries, upto - 1);
        let prev = present(entries, upto - 1);
        let cur = present(entries, upto);
        assert forall|p: Poi| occurs(entries, upto, p) implies cur.contains(p) by {
            let k = choose|k: int| 0 <= k < upto && #[trigger] entries[k] == Some(p);
            if k < upto - 1 {
                assert(occurs(entries, upto - 1, p));
                let i = choose|i: int| 0 <= i < prev.len() && prev[i] == p;
                assert(cur[i] == p);
            } else {
                assert(cur[cur.len() - 1] == p);
            }
        }
    }
}

/// The POI table holds the POIs of the named rows and nothing else: an
/// element without a name never appears in it.
pub proof fn lemma_only_named(t: Tables)
    ensures
        forall|i: int| 0 <= i < spec_refine(t).len() ==> from_named(t, #[trigger] spec_refine(t)[i]),
        forall|p: Poi| from_named(t, p) ==> spec_refine(t).contains(p),
{
    let en = node_entries(t.nodes);
    let ew = way_entries(t.ways);
    let er = relation_entries(t.relations);
    let a = present(en, t.nodes.len() as int);
    let b = present(ew, t.ways.len() as int);
    let c = present(er, t.relations.len() as int);
    let all = spec_refine(t);
    lemma_present(en, t.nodes.len() as int);
    lemma_present(ew, t.ways.len() as int);
    lemma_present(er, t.relations.len() as int);
    assert forall|p: Poi| from_named(t, p) implies all.contains(p) by {
        if exists|n: int|
            0 <= n < t.nodes.len() && (#[trigger] t.nodes[n]).has_name && p == point_poi(
                t.nodes[n],
            ) {
            let n = choose|n: int|
                0 <= n < t.nodes.len() && (#[trigger] t.nodes[n]).has_name && p == point_poi(
                    t.nodes[n],
                );
            assert(en[n] == Some(p));
            assert(occurs(en, t.nodes.len() as int, p));
            let i = choose|i: int| 0 <= i < a.len() && a[i] == p;
            assert(all[i] == p);
        } else if exists|w: int|
            0 <= w < t.ways.len() && (#[trigger] t.ways[w]).has_name && p == area_poi(
                t.ways[w].bbox,
                t.ways[w].tags,
            ) {
            let w = choose|w: int|
                0 <= w < t.ways.len() && (#[trigger] t.ways[w]).has_name && p == area_poi(
                    t.ways[w].bbox,
                    t.ways[w].tags,
                );
            assert(ew[w] == Some(p));
            assert(occurs(ew, t.ways.len() as int, p));
            let i = choose|i: int| 0 <= i < b.len() && b[i] == p;
            assert(all[a.len() + i] == p);
        } else {
            let r = choose|r: int|
                0 <= r < t.relations.len() && (#[trigger] t.relations[r]).has_name && p
                    == area_poi(t.relations[r].bbox, t.relations[r].tags);
            assert(er[r] == Some(p));
            assert(occurs(er, t.relations.len() as int, p));
            let i = choose|i: int| 0 <= i < c.len() && c[i] == p;
            assert(all[a.len() + b.len() + i] == p);
        }
    }
}

/// Every row of the POI table of valid raw tables is valid.
pub proof fn lemma_pois_valid(t: Tables)
    requires
        t.valid(),
    ensures
        forall|i: int| 0 <= i < spec_refine(t).len() ==> (#[trigger] spec_refine(t)[i]).valid(),
{
    lemma_only_named(t);
}

/// Builds the POI table from resolved raw tables, which are given up: a
/// point for each named node, then an area for each named way, then an area
/// for each named relation. Elements without a name are left out.
pub fn refine(store: RawStore) -> (pois: Vec<Poi>)
    ensures
        pois@ == spec_refine(store@),
        forall|i: int| 0 <= i < pois@.len() ==> from_named(store@, #[trigger] pois@[i]),
        forall|i: int| 0 <= i < pois@.len() ==> (#[trigger] pois@[i]).valid(),
{
    let ghost t = store@;
    let (nodes, ways, relations, _, _, _) = store.into_parts();
    let mut pois: Vec<Poi> = Vec::new();
    let mut i: usize = 0;
    while i < nodes.len()
        invariant
            i <= nodes.len(),
            pois@ == present(node_entries(nodes@), i as int),
        decreases nodes.len() - i,
    {
        if nodes[i].has_name {
            pois.push(
                Poi {
                    poi_type: PoiType::Point,
                    lat: nodes[i].lat,
                    lon: nodes[i].lon,
                    d_lat: 0,
                    d_lon: 0,
                    tags: nodes[i].tags.clone(),
                },
            );
        }
        i += 1;
    }
    let ghost from_nodes = pois@;
    i = 0;
    while i < ways.len()
        invariant
            i <= ways.len(),
            pois@ == from_nodes + present(way_entries(ways@), i as int),
        decreases ways.len() - i,
    {
        if ways[i].has_name {
            pois.push(area_of(&ways[i].bbox, &ways[i].tags));
        }
        i += 1;
    }
    let ghost from_ways = pois@;
    i = 0;
    while i < relations.len()
        invariant
            i <= relations.len(),
            pois@ == from_ways + present(relation_entries(relations@), i as int),
        decreases relations.len() - i,
    {
        if relations[i].has_name {
            pois.push(area_of(&relations[i].bbox, &relations[i].tags));
        }
        i += 1;
    }
    proof {
        lemma_only_named(t);
        lemma_pois_valid(t);
    }
    pois
}

} // verus!
