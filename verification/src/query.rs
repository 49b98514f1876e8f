//! Proximity queries over a POI table: a search box around each query point
//! selects the POIs, strictly by their centre or loosely by their extent.

use vstd::prelude::*;

use crate::coord::{DecimicroLatitude, DecimicroLongitude};
use crate::poi::Poi;

verus! {

/// The search box of one query point, in decimicro-degrees; its edges count
/// as inside.
#[derive(Debug, Clone, Copy, PartialEq, Eq, Structural)]
pub struct QueryBox {
    pub lat_bottom: DecimicroLatitude,
    pub lat_top: DecimicroLatitude,
    pub lon_left: DecimicroLongitude,
    pub lon_right: DecimicroLongitude,
}

/// A point to search around, in decimicro-degrees, with the identifier that
/// its results carry.
#[derive(Debug, Clone, Copy, PartialEq, Eq, Structural)]
pub struct QueryPoint {
    pub id: i64,
    pub lat: DecimicroLatitude,
    pub lon: DecimicroLongitude,
}

/// One result: the box of the query point at position `point` of the batch,
/// whose identifier is `refer_id`, selected the POI at position `poi` of the
/// table.
#[derive(Debug, Clone, Copy, PartialEq, Eq, Structural)]
pub struct Hit {
    pub point: usize,
    pub refer_id: i64,
    pub poi: usize,
}

/// `x` brought into the range of `i32`.
pub open spec fn saturated(x: int) -> i32 {
    if x < i32::MIN {
        i32::MIN
    } else if x > i32::MAX {
        i32::MAX
    } else {
        x as i32
    }
}

/// The box that reaches `d_lat` and `d_lon` from the point on either side.
pub open spec fn spec_search_box(
    lat: DecimicroLatitude,
    lon: DecimicroLongitude,
    d_lat: DecimicroLatitude,
    d_lon: DecimicroLongitude,
) -> QueryBox {
    QueryBox {
        lat_bottom: DecimicroLatitude(saturated(lat.0 - d_lat.0)),
        lat_top: DecimicroLatitude(saturated(lat.0 + d_lat.0)),
        lon_left: DecimicroLongitude(saturated(lon.0 - d_lon.0)),
        lon_right: DecimicroLongitude(saturated(lon.0 + d_lon.0)),
    }
}

/// The centre of the POI lies in the box.
pub open spec fn centre_inside(p: Poi, q: QueryBox) -> bool {
    &&& q.lat_bottom.0 <= p.lat <= q.lat_top.0
    &&& q.lon_left.0 <= p.lon <= q.lon_right.0
}

/// The extent of the POI and the box have a point in common: none of the
/// four edges of one lies beyond the opposite edge of the other.
pub open spec fn overlaps(p: Poi, q: QueryBox) -> bool {
    !(p.lat - p.d_lat > q.lat_top.0 || p.lat + p.d_lat < q.lat_bottom.0 || p.lon - p.d_lon
        > q.lon_right.0 || p.lon + p.d_lon < q.lon_left.0)
}

/// The box selects the POI: in strict mode by its centre, else by its extent.
pub open spec fn selects(p: Poi, q: QueryBox, strict: bool) -> bool {
    if strict {
        centre_inside(p, q)
    } else {
        overlaps(p, q)
    }
}

/// A POI is kept in the result when the mode is not strict or its distance
/// to the query point is within the radius.
pub open spec fn keeps(strict: bool, beyond_radius: bool) -> bool {
    !strict || !beyond_radius
}

/// The hits of the query point at position `at`, with the identifier `id`
/// and the search box `q`, among the first `upto` POIs, in table order.
pub open spec fn hits_of(
    pois: Seq<Poi>,
    at: int,
    id: i64,
    q: QueryBox,
    strict: bool,
    upto: int,
) -> Seq<Hit>
    decreases upto,
{
    if upto <= 0 {
        Seq::empty()
    } else if selects(pois[upto - 1], q, strict) {
        hits_of(pois, at, id, q, strict, upto - 1).push(
            Hit { point: at as usize, refer_id: id, poi: (upto - 1) as usize },
        )
    } else {
        hits_of(pois, at, id, q, strict, upto - 1)
    }
}

/// The hits of the first `upto` query points, grouped by query point in the
/// order of the points.
pub open spec fn answers(
    pois: Seq<Poi>,
    points: Seq<QueryPoint>,
    d_lat: DecimicroLatitude,
    d_lon: DecimicroLongitude,
    strict: bool,
    upto: int,
) -> Seq<Hit>
    decreases upto,
{
    if upto <= 0 {
        Seq::empty()
    } else {
        answers(pois, points, d_lat, d_lon, strict, upto - 1) + hits_of(
            pois,
            upto - 1,
            points[upto - 1].id,
            spec_search_box(points[upto - 1].lat, points[upto - 1].lon, d_lat, d_lon),
            strict,
            pois.len() as int,
        )
    }
}

/// The hits among the first `upto` measured ones that are kept, in order.
/// Each hit comes with whether its distance is beyond the radius.
pub open spec fn kept(measured: Seq<(Hit, bool)>, strict: bool, upto: int) -> Seq<Hit>
    decreases upto,
{
    if upto <= 0 {
        Seq::empty()
    } else if keeps(strict, measured[upto - 1].1) {
        kept(measured, strict, upto - 1).push(measured[upto - 1].0)
    } else {
        kept(measured, strict, upto - 1)
    }
}

/// Brings a sum or difference of two `i32` into the range of `i32`.
fn saturate(x: i64) -> (r: i32)
    ensures
        r == saturated(x as int),
{
    if x < i32::MIN as i64 {
        i32::MIN
    } else if x > i32::MAX as i64 {
        i32::MAX
    } else {
        x as i32
    }
}

/// The search box around a point: the point expanded by `d_lat` and `d_lon`,
/// the per-axis reach of the radius, with edges that stay in the range of
/// `i32`.
pub fn search_box(
    lat: DecimicroLatitude,
    lon: DecimicroLongitude,
    d_lat: DecimicroLatitude,
    d_lon: DecimicroLongitude,
) -> (q: QueryBox)
    ensures
        q == spec_search_box(lat, lon, d_lat, d_lon),
{
    QueryBox {
        lat_bottom: DecimicroLatitude(saturate(lat.0 as i64 - d_lat.0 as i64)),
        lat_top: DecimicroLatitude(saturate(lat.0 as i64 + d_lat.0 as i64)),
        lon_left: DecimicroLongitude(saturate(lon.0 as i64 - d_lon.0 as i64)),
        lon_right: DecimicroLongitude(saturate(lon.0 as i64 + d_lon.0 as i64)),
    }
}

/// Tests whether the box selects the POI in the given mode.
pub fn box_selects(p: &Poi, q: &QueryBox, strict: bool) -> (r: bool)
    ensures
        r == selects(*p, *q, strict),
{
    if strict {
        q.lat_bottom.0 <= p.lat && p.lat <= q.lat_top.0 && q.lon_left.0 <= p.lon && p.lon
            <= q.lon_right.0
    } else {
        let lat: i64 = p.lat as i64;
        let lon: i64 = p.lon as i64;
        let d_lat: i64 = p.d_lat as i64;
        let d_lon: i64 = p.d_lon as i64;
        !(lat - d_lat > q.lat_top.0 as i64 || lat + d_lat < q.lat_bottom.0 as i64 || lon - d_lon
            > q.lon_right.0 as i64 || lon + d_lon < q.lon_left.0 as i64)
    }
}

/// In strict mode a POI is selected only where it is in loose mode too.
pub proof fn lemma_strict_is_narrower(p: Poi, q: QueryBox)
    requires
        p.valid(),
        selects(p, q, true),
    ensures
        selects(p, q, false),
{
}

/// Answers a batch of query points against a POI table by their search
/// boxes: for each point, in input order, the POIs that its box selects, in
/// table order.
///
/// In strict mode a hit is final only once its true distance has been held
/// against the radius: see `retain_within`.
pub fn query(
    pois: &Vec<Poi>,
    points: &Vec<QueryPoint>,
    d_lat: DecimicroLatitude,
    d_lon: DecimicroLongitude,
    strict: bool,
) -> (hits: Vec<Hit>)
    ensures
        hits@ == answers(pois@, points@, d_lat, d_lon, strict, points@.len() as int),
{
    let mut hits: Vec<Hit> = Vec::new();
    let mut k: usize = 0;
    while k < points.len()
        invariant
            k <= points.len(),
            hits@ == answers(pois@, points@, d_lat, d_lon, strict, k as int),
        decreases points.len() - k,
    {
        let point = points[k];
        let q = search_box(point.lat, point.lon, d_lat, d_lon);
        let ghost before = hits@;
        let mut i: usize = 0;
        while i < pois.len()
            invariant
                i <= pois.len(),
                hits@ == before + hits_of(pois@, k as int, point.id, q, strict, i as int),
            decreases pois.len() - i,
        {
            if box_selects(&pois[i], &q, strict) {
                hits.push(Hit { point: k, refer_id: point.id, poi: i });
            }
            i += 1;
        }
        k += 1;
    }
    hits
}

/// Drops the hits that the mode does not keep: in strict mode those whose
/// distance to the query point is beyond the radius, as the flag beside each
/// hit tells; in loose mode none. The order of the hits stays.
pub fn retain_within(measured: &Vec<(Hit, bool)>, strict: bool) -> (r: Vec<Hit>)
    ensures
        r@ == kept(measured@, strict, measured@.len() as int),
{
    let mut r: Vec<Hit> = Vec::new();
    let mut i: usize = 0;
    while i < measured.len()
        invariant
            i <= measured.len(),
            r@ == kept(measured@, strict, i as int),
        decreases measured.len() - i,
    {
        if !strict || !measured[i].1 {
            r.push(measured[i].0);
        }
        i += 1;
    }
    r
}

/// `h` is a hit of the query point at position `at` on one of the first
/// `upto` POIs.
pub open spec fn is_hit_of(
    h: Hit,
    pois: Seq<Poi>,
    at: int,
    id: i64,
    q: QueryBox,
    strict: bool,
    upto: int,
) -> bool {
    &&& h.point == at
    &&& h.refer_id == id
    &&& h.poi < upto
    &&& selects(pois[h.poi as int], q, strict)
}

/// `h` is a hit of one of the first `upto` query points.
pub open spec fn is_answer(
    h: Hit,
    pois: Seq<Poi>,
    points: Seq<QueryPoint>,
    d_lat: DecimicroLatitude,
    d_lon: DecimicroLongitude,
    strict: bool,
    upto: int,
) -> bool {
    &&& h.point < upto
    &&& is_hit_of(
        h,
        pois,
        h.point as int,
        points[h.point as int].id,
        spec_search_box(points[h.point as int].lat, points[h.point as int].lon, d_lat, d_lon),
        strict,
        pois.len() as int,
    )
}

/// `a` comes before `b` in a result: its query point comes first, or the two
/// have the same query point and its POI comes first.
pub open spec fn precedes(a: Hit, b: Hit) -> bool {
    a.point < b.point || (a.point == b.point && a.poi < b.poi)
}

/// The hits of one query point are the POIs that its box selects, each once
/// and in table order.
pub proof fn lemma_hits_of(pois: Seq<Poi>, at: int, id: i64, q: QueryBox, strict: bool, upto: int)
    requires
        0 <= at <= usize::MAX,
        0 <= upto <= pois.len() <= usize::MAX,
    ensures
        forall|h: Hit| #[trigger]
            hits_of(pois, at, id, q, strict, upto).contains(h) <==> is_hit_of(
                h,
                pois,
                at,
                id,
                q,
                strict,
                upto,
            ),
        forall|i: int, j: int|
            0 <= i < j < hits_of(pois, at, id, q, strict, upto).len() ==> precedes(
                #[trigger] hits_of(pois, at, id, q, strict, upto)[i],
                #[trigger] hits_of(pois, at, id, q, strict, upto)[j],
            ),
    decreases upto,
{
    let cur = hits_of(pois, at, id, q, strict, upto);
    if upto > 0 {
        lemma_hits_of(pois, at, id, q, strict, upto - 1);
        let prev = hits_of(pois, at, id, q, strict, upto - 1);
        assert forall|h: Hit| #[trigger] cur.contains(h) <==> is_hit_of(
            h,
            pois,
            at,
            id,
            q,
            strict,
            upto,
        ) by {
            if cur.contains(h) {
                let i = choose|i: int| 0 <= i < cur.len() && cur[i] == h;
                if i < prev.len() {
                    assert(prev.contains(h));
                }
            }
            if is_hit_of(h, pois, at, id, q, strict, upto) {
                if h.poi < upto - 1 {
                    assert(prev.contains(h));
                    let i = choose|i: int| 0 <= i < prev.len() && prev[i] == h;
                    assert(cur[i] == h);
                } else {
                    assert(cur[cur.len() - 1] == h);
                }
            }
        }
        assert forall|i: int, j: int| 0 <= i < j < cur.len() implies precedes(
            #[trigger] cur[i],
            #[trigger] cur[j],
        ) by {
            if j == prev.len() {
                assert(prev.contains(prev[i]));
            }
        }
    }
}

/// The result of a query holds, for each query point, the POIs that its
/// search box selects, each once, and is ordered by query point in input
/// order and by POI in table order.
pub proof fn lemma_answers(
    pois: Seq<Poi>,
    points: Seq<QueryPoint>,
    d_lat: DecimicroLatitude,
    d_lon: DecimicroLongitude,
    strict: bool,
    upto: int,
)
    requires
        0 <= upto <= points.len() <= usize::MAX,
        pois.len() <= usize::MAX,
    ensures
        forall|h: Hit| #[trigger]
            answers(pois, points, d_lat, d_lon, strict, upto).contains(h) <==> is_answer(
                h,
                pois,
                points,
                d_lat,
                d_lon,
                strict,
                upto,
            ),
        forall|i: int, j: int|
            0 <= i < j < answers(pois, points, d_lat, d_lon, strict, upto).len() ==> precedes(
                #[trigger] answers(pois, points, d_lat, d_lon, strict, upto)[i],
                #[trigger] answers(pois, points, d_lat, d_lon, strict, upto)[j],
            ),
    decreases upto,
{
    let cur = answers(pois, points, d_lat, d_lon, strict, upto);
    if upto > 0 {
        lemma_answers(pois, points, d_lat, d_lon, strict, upto - 1);
        let prev = answers(pois, points, d_lat, d_lon, strict, upto - 1);
        let point = points[upto - 1];
        let q = spec_search_box(point.lat, point.lon, d_lat, d_lon);
        let group = hits_of(pois, upto - 1, point.id, q, strict, pois.len() as int);
        lemma_hits_of(pois, upto - 1, point.id, q, strict, pois.len() as int);
        assert forall|h: Hit| #[trigger] cur.contains(h) <==> is_answer(
            h,
            pois,
            points,
            d_lat,
            d_lon,
            strict,
            upto,
        ) by {
            if cur.contains(h) {
                let i = choose|i: int| 0 <= i < cur.len() && cur[i] == h;
                if i < prev.len() {
                    assert(prev.contains(h));
                } else {
                    assert(group.contains(h));
                }
            }
            if is_answer(h, pois, points, d_lat, d_lon, strict, upto) {
                if h.point < upto - 1 {
                    assert(prev.contains(h));
                    let i = choose|i: int| 0 <= i < prev.len() && prev[i] == h;
                    assert(cur[i] == h);
                } else {
                    assert(group.contains(h));
                    let i = choose|i: int| 0 <= i < group.len() && group[i] == h;
                    assert(cur[prev.len() + i] == h);
                }
            }
        }
        assert forall|i: int, j: int| 0 <= i < j < cur.len() implies precedes(
            #[trigger] cur[i],
            #[trigger] cur[j],
        ) by {
            if j < prev.len() {
            } else if i < prev.len() {
                assert(prev.contains(prev[i]));
                assert(group.contains(group[j - prev.len()]));
            }
        }
    }
}

} // verus!
