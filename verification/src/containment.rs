//! Point-in-polygon, as the `geo` crate decides it.
//!
//! Nothing in this file is proved. The test itself is `geo`'s; this library
//! gives its answer a name and builds on that name.

use crate::geometry::{rings_of, Point};
use vstd::prelude::*;

verus! {

/// Largest magnitude of a coordinate for which `geo`'s orientation test,
/// which multiplies differences of coordinates, stays within `i64`.
pub const GEO_COORD_MAX: i64 = 1_000_000_000;

/// Whether `p` is within `GEO_COORD_MAX` of the origin along both axes.
pub open spec fn geo_safe(p: Point) -> bool {
    &&& -GEO_COORD_MAX <= p.x <= GEO_COORD_MAX
    &&& -GEO_COORD_MAX <= p.y <= GEO_COORD_MAX
}

/// Whether every vertex of the ring is `geo_safe`.
pub open spec fn ring_geo_safe(ring: Seq<Point>) -> bool {
    forall|i: int| 0 <= i < ring.len() ==> geo_safe(#[trigger] ring[i])
}

/// Whether `geo` finds the point `p` in the interior of the polygon with
/// the given exterior ring and holes: inside the exterior ring, outside
/// every hole, and on no ring.
pub uninterp spec fn geo_contains(exterior: Seq<Point>, interiors: Seq<Seq<Point>>, p: Point) -> bool;

/// `geo::Contains::contains` of a `geo::Polygon<i64>` for a
/// `geo::Point<i64>`. The polygon is made by `geo::Polygon::new`, which
/// closes each ring. The answer depends on the vertices and the point
/// alone. The coordinates are kept small enough for `geo`'s products of
/// differences not to overflow.
#[verifier::external_body]
pub(crate) fn polygon_contains(
    exterior: &Vec<Point>,
    interiors: &Vec<Vec<Point>>,
    p: Point,
) -> (found: bool)
    requires
        ring_geo_safe(exterior@),
        forall|i: int| 0 <= i < interiors@.len() ==> ring_geo_safe((#[trigger] interiors@[i])@),
        geo_safe(p),
    ensures
        found == geo_contains(exterior@, rings_of(interiors@), p),
{
    let outer: Vec<(i64, i64)> = exterior.iter().map(|q| (q.x, q.y)).collect();
    let mut holes: Vec<geo::LineString<i64>> = Vec::new();
    for ring in interiors.iter() {
        let inner: Vec<(i64, i64)> = ring.iter().map(|q| (q.x, q.y)).collect();
        holes.push(geo::LineString::from(inner));
    }
    let polygon = geo::Polygon::new(geo::LineString::from(outer), holes);
    geo::Contains::contains(&polygon, &geo::Point::new(p.x, p.y))
}

} // verus!
