//! Axis-aligned bounding boxes in decimicro-degrees and the nullable
//! minimum / maximum folds that merge them.

use vstd::prelude::*;

use crate::coord::{lat_in_range, lon_in_range};

verus! {

/// A box given by its left-bottom and right-top corners.
#[derive(Debug, Clone, Copy, PartialEq, Eq, Structural)]
pub struct BoundingBox {
    pub lat_lb: i32,
    pub lon_lb: i32,
    pub lat_rt: i32,
    pub lon_rt: i32,
}

impl BoundingBox {
    /// The right-top corner is not below or left of the left-bottom corner.
    pub open spec fn ordered(self) -> bool {
        self.lat_lb <= self.lat_rt && self.lon_lb <= self.lon_rt
    }

    /// Both corners lie on the globe.
    pub open spec fn on_globe(self) -> bool {
        &&& lat_in_range(self.lat_lb as int)
        &&& lat_in_range(self.lat_rt as int)
        &&& lon_in_range(self.lon_lb as int)
        &&& lon_in_range(self.lon_rt as int)
    }

    /// The degenerate box that holds the single point `(lat, lon)`.
    pub open spec fn spec_point(lat: i32, lon: i32) -> BoundingBox {
        BoundingBox { lat_lb: lat, lon_lb: lon, lat_rt: lat, lon_rt: lon }
    }

    /// `self` lies inside `outer`.
    pub open spec fn within(self, outer: BoundingBox) -> bool {
        &&& outer.lat_lb <= self.lat_lb
        &&& outer.lon_lb <= self.lon_lb
        &&& self.lat_rt <= outer.lat_rt
        &&& self.lon_rt <= outer.lon_rt
    }

    /// `self` is the smallest box around all of `sources`: it holds each of
    /// them, and each of its four edges is the edge of one of them. No box is
    /// the hull of the empty set.
    pub open spec fn is_hull_of(self, sources: Set<BoundingBox>) -> bool {
        &&& forall|b: BoundingBox| #[trigger] sources.contains(b) ==> b.within(self)
        &&& exists|b: BoundingBox| #[trigger] sources.contains(b) && b.lat_lb == self.lat_lb
        &&& exists|b: BoundingBox| #[trigger] sources.contains(b) && b.lon_lb == self.lon_lb
        &&& exists|b: BoundingBox| #[trigger] sources.contains(b) && b.lat_rt == self.lat_rt
        &&& exists|b: BoundingBox| #[trigger] sources.contains(b) && b.lon_rt == self.lon_rt
    }

    /// The all-zero box that a row carries before it is resolved.
    pub fn zero() -> (b: BoundingBox)
        ensures
            b == (BoundingBox { lat_lb: 0, lon_lb: 0, lat_rt: 0, lon_rt: 0 }),
    {
        BoundingBox { lat_lb: 0, lon_lb: 0, lat_rt: 0, lon_rt: 0 }
    }

    /// The box that holds the single point `(lat, lon)`.
    pub fn point(lat: i32, lon: i32) -> (b: BoundingBox)
        ensures
            b == Self::spec_point(lat, lon),
    {
        BoundingBox { lat_lb: lat, lon_lb: lon, lat_rt: lat, lon_rt: lon }
    }
}

/// The hull of two boxes, edge by edge.
pub open spec fn spec_join(a: BoundingBox, b: BoundingBox) -> BoundingBox {
    BoundingBox {
        lat_lb: if a.lat_lb <= b.lat_lb { a.lat_lb } else { b.lat_lb },
        lon_lb: if a.lon_lb <= b.lon_lb { a.lon_lb } else { b.lon_lb },
        lat_rt: if a.lat_rt >= b.lat_rt { a.lat_rt } else { b.lat_rt },
        lon_rt: if a.lon_rt >= b.lon_rt { a.lon_rt } else { b.lon_rt },
    }
}

/// What an accumulated extent becomes when one more box joins it.
pub open spec fn spec_extend(acc: Option<BoundingBox>, b: BoundingBox) -> Option<BoundingBox> {
    match acc {
        None => Some(b),
        Some(a) => Some(spec_join(a, b)),
    }
}

/// Adds `b` to an accumulated extent that may still be absent.
pub fn extend(acc: Option<BoundingBox>, b: BoundingBox) -> (r: Option<BoundingBox>)
    ensures
        r == spec_extend(acc, b),
{
    match acc {
        None => Some(b),
        Some(a) => Some(
            BoundingBox {
                lat_lb: if a.lat_lb <= b.lat_lb { a.lat_lb } else { b.lat_lb },
                lon_lb: if a.lon_lb <= b.lon_lb { a.lon_lb } else { b.lon_lb },
                lat_rt: if a.lat_rt >= b.lat_rt { a.lat_rt } else { b.lat_rt },
                lon_rt: if a.lon_rt >= b.lon_rt { a.lon_rt } else { b.lon_rt },
            },
        ),
    }
}

/// What an accumulated extent becomes when another, possibly absent, extent
/// joins it.
pub open spec fn spec_absorb(acc: Option<BoundingBox>, other: Option<BoundingBox>) -> Option<
    BoundingBox,
> {
    match other {
        None => acc,
        Some(b) => spec_extend(acc, b),
    }
}

/// The hull of up to three extents, ignoring the absent ones; absent only
/// when all three are.
pub open spec fn spec_merge(
    n: Option<BoundingBox>,
    w: Option<BoundingBox>,
    r: Option<BoundingBox>,
) -> Option<BoundingBox> {
    spec_absorb(spec_absorb(n, w), r)
}

/// `acc` is the hull of `sources`, or absent when there are none.
pub open spec fn hull_so_far(acc: Option<BoundingBox>, sources: Set<BoundingBox>) -> bool {
    match acc {
        None => forall|b: BoundingBox| !sources.contains(b),
        Some(h) => h.is_hull_of(sources),
    }
}

/// Joining one more source to a hull gives the hull of the larger set.
pub proof fn lemma_extend_hull(acc: Option<BoundingBox>, s: Set<BoundingBox>, b: BoundingBox)
    requires
        hull_so_far(acc, s),
    ensures
        hull_so_far(spec_extend(acc, b), s.insert(b)),
{
    let s2 = s.insert(b);
    assert(s2.contains(b));
    match acc {
        None => {},
        Some(a) => {
            let b1 = choose|x: BoundingBox| #[trigger] s.contains(x) && x.lat_lb == a.lat_lb;
            let b2 = choose|x: BoundingBox| #[trigger] s.contains(x) && x.lon_lb == a.lon_lb;
            let b3 = choose|x: BoundingBox| #[trigger] s.contains(x) && x.lat_rt == a.lat_rt;
            let b4 = choose|x: BoundingBox| #[trigger] s.contains(x) && x.lon_rt == a.lon_rt;
            assert(s2.contains(b1) && s2.contains(b2) && s2.contains(b3) && s2.contains(b4));
        },
    }
}

/// A hull of boxes that are ordered and on the globe is so too.
pub proof fn lemma_hull_valid(h: BoundingBox, sources: Set<BoundingBox>)
    requires
        h.is_hull_of(sources),
        forall|b: BoundingBox| #[trigger] sources.contains(b) ==> b.ordered() && b.on_globe(),
    ensures
        h.ordered(),
        h.on_globe(),
{
}

/// A set of boxes has at most one hull.
pub proof fn lemma_hull_unique(h1: BoundingBox, h2: BoundingBox, sources: Set<BoundingBox>)
    requires
        h1.is_hull_of(sources),
        h2.is_hull_of(sources),
    ensures
        h1 == h2,
{
}

/// Absorbing the hull of a second set gives the hull of the union.
pub proof fn lemma_absorb_hull(
    acc: Option<BoundingBox>,
    s1: Set<BoundingBox>,
    other: Option<BoundingBox>,
    s2: Set<BoundingBox>,
)
    requires
        hull_so_far(acc, s1),
        hull_so_far(other, s2),
    ensures
        hull_so_far(spec_absorb(acc, other), s1.union(s2)),
{
    let u = s1.union(s2);
    match (acc, other) {
        (None, None) => {},
        (Some(a), None) => {
            assert(u =~= s1);
        },
        (None, Some(b)) => {
            assert(u =~= s2);
        },
        (Some(a), Some(b)) => {
            let a1 = choose|x: BoundingBox| #[trigger] s1.contains(x) && x.lat_lb == a.lat_lb;
            let a2 = choose|x: BoundingBox| #[trigger] s1.contains(x) && x.lon_lb == a.lon_lb;
            let a3 = choose|x: BoundingBox| #[trigger] s1.contains(x) && x.lat_rt == a.lat_rt;
            let a4 = choose|x: BoundingBox| #[trigger] s1.contains(x) && x.lon_rt == a.lon_rt;
            let b1 = choose|x: BoundingBox| #[trigger] s2.contains(x) && x.lat_lb == b.lat_lb;
            let b2 = choose|x: BoundingBox| #[trigger] s2.contains(x) && x.lon_lb == b.lon_lb;
            let b3 = choose|x: BoundingBox| #[trigger] s2.contains(x) && x.lat_rt == b.lat_rt;
            let b4 = choose|x: BoundingBox| #[trigger] s2.contains(x) && x.lon_rt == b.lon_rt;
            assert(u.contains(if a.lat_lb <= b.lat_lb { a1 } else { b1 }));
            assert(u.contains(if a.lon_lb <= b.lon_lb { a2 } else { b2 }));
            assert(u.contains(if a.lat_rt >= b.lat_rt { a3 } else { b3 }));
            assert(u.contains(if a.lon_rt >= b.lon_rt { a4 } else { b4 }));
        },
    }
}

/// `m` is the least of the values present among `a`, `b`, `c`.
pub open spec fn is_least_present(m: i32, a: Option<i32>, b: Option<i32>, c: Option<i32>) -> bool {
    &&& a == Some(m) || b == Some(m) || c == Some(m)
    &&& a is Some ==> m <= a->0
    &&& b is Some ==> m <= b->0
    &&& c is Some ==> m <= c->0
}

/// `m` is the greatest of the values present among `a`, `b`, `c`.
pub open spec fn is_greatest_present(m: i32, a: Option<i32>, b: Option<i32>, c: Option<i32>) -> bool {
    &&& a == Some(m) || b == Some(m) || c == Some(m)
    &&& a is Some ==> m >= a->0
    &&& b is Some ==> m >= b->0
    &&& c is Some ==> m >= c->0
}

/// The least of up to three values, ignoring the absent ones; absent only
/// when all three are.
pub fn nullable_min(a: Option<i32>, b: Option<i32>, c: Option<i32>) -> (r: Option<i32>)
    ensures
        r is None <==> (a is None && b is None && c is None),
        r is Some ==> is_least_present(r->0, a, b, c),
{
    match (a, b, c) {
        (None, None, None) => None,
        (Some(x), None, None) | (None, Some(x), None) | (None, None, Some(x)) => Some(x),
        (Some(x), Some(y), None) | (None, Some(x), Some(y)) | (Some(x), None, Some(y)) => Some(
            if x <= y { x } else { y },
        ),
        (Some(x), Some(y), Some(z)) => {
            let m: i32 = if x <= y { x } else { y };
            Some(if m <= z { m } else { z })
        },
    }
}

/// The greatest of up to three values, ignoring the absent ones; absent only
/// when all three are.
pub fn nullable_max(a: Option<i32>, b: Option<i32>, c: Option<i32>) -> (r: Option<i32>)
    ensures
        r is None <==> (a is None && b is None && c is None),
        r is Some ==> is_greatest_present(r->0, a, b, c),
{
    match (a, b, c) {
        (None, None, None) => None,
        (Some(x), None, None) | (None, Some(x), None) | (None, None, Some(x)) => Some(x),
        (Some(x), Some(y), None) | (None, Some(x), Some(y)) | (Some(x), None, Some(y)) => Some(
            if x >= y { x } else { y },
        ),
        (Some(x), Some(y), Some(z)) => {
            let m: i32 = if x >= y { x } else { y };
            Some(if m >= z { m } else { z })
        },
    }
}

/// The south edge of an extent that may be absent.
fn lat_lb_of(b: Option<BoundingBox>) -> (r: Option<i32>)
    ensures
        r == match b {
            Some(x) => Some(x.lat_lb),
            None => None,
        },
{
    match b {
        Some(x) => Some(x.lat_lb),
        None => None,
    }
}

/// The west edge of an extent that may be absent.
fn lon_lb_of(b: Option<BoundingBox>) -> (r: Option<i32>)
    ensures
        r == match b {
            Some(x) => Some(x.lon_lb),
            None => None,
        },
{
    match b {
        Some(x) => Some(x.lon_lb),
        None => None,
    }
}

/// The north edge of an extent that may be absent.
fn lat_rt_of(b: Option<BoundingBox>) -> (r: Option<i32>)
    ensures
        r == match b {
            Some(x) => Some(x.lat_rt),
            None => None,
        },
{
    match b {
        Some(x) => Some(x.lat_rt),
        None => None,
    }
}

/// The east edge of an extent that may be absent.
fn lon_rt_of(b: Option<BoundingBox>) -> (r: Option<i32>)
    ensures
        r == match b {
            Some(x) => Some(x.lon_rt),
            None => None,
        },
{
    match b {
        Some(x) => Some(x.lon_rt),
        None => None,
    }
}

/// Merges the extents that a relation has from its nodes, its ways and its
/// relations, any of which may be absent: the least of the lower edges and
/// the greatest of the upper edges that are present.
pub fn merge_sources(n: Option<BoundingBox>, w: Option<BoundingBox>, r: Option<BoundingBox>) -> (m:
    Option<BoundingBox>)
    ensures
        m == spec_merge(n, w, r),
        m is None <==> (n is None && w is None && r is None),
{
    let lat_lb = nullable_min(lat_lb_of(n), lat_lb_of(w), lat_lb_of(r));
    let lon_lb = nullable_min(lon_lb_of(n), lon_lb_of(w), lon_lb_of(r));
    let lat_rt = nullable_max(lat_rt_of(n), lat_rt_of(w), lat_rt_of(r));
    let lon_rt = nullable_max(lon_rt_of(n), lon_rt_of(w), lon_rt_of(r));
    match (lat_lb, lon_lb, lat_rt, lon_rt) {
        (Some(a), Some(b), Some(c), Some(d)) => Some(
            BoundingBox { lat_lb: a, lon_lb: b, lat_rt: c, lon_rt: d },
        ),
        _ => None,
    }
}

} // verus!
