//! Points, rectangles and polygons on the integer lattice.

use vstd::prelude::*;

verus! {

/// Largest magnitude of a coordinate that a polygon, a bounding rectangle or
/// a resolution may have. With it, doubled coordinates, the far edge of a
/// grid and the edges of a wall all stay well within what the arithmetic on
/// them can hold.
pub const COORD_MAX: i64 = 100_000_000;

/// Largest number of vertices a polygon may have over all its rings.
pub const VERTEX_MAX: usize = 0xffff_ffff;

/// What can be wrong with the geometry handed to this library.
#[derive(Clone, Copy, Debug, PartialEq, Eq, Structural)]
pub enum GeometryError {
    /// A ring has fewer than three distinct points or lies outside the
    /// lattice's range, there is no polygon at all, or a bounding rectangle
    /// has no extent.
    InvalidGeometry,
    /// Two consecutive vertices of an exterior ring coincide, so the wall
    /// between them has no outward direction.
    DegenerateEdge,
    /// The triangle list handed in for a polygon is not a triangle list
    /// over that polygon's vertices.
    TriangulationFailure,
}

/// A point of the plane.
#[derive(Clone, Copy, Debug, PartialEq, Eq, Structural)]
pub struct Point {
    pub x: i64,
    pub y: i64,
}

/// An axis-aligned rectangle given by two opposite corners.
#[derive(Clone, Copy, Debug, PartialEq, Eq, Structural)]
pub struct Rect {
    pub min: Point,
    pub max: Point,
}

/// Whether both coordinates of `p` are within `COORD_MAX` of the origin.
pub open spec fn in_range(p: Point) -> bool {
    &&& -COORD_MAX <= p.x <= COORD_MAX
    &&& -COORD_MAX <= p.y <= COORD_MAX
}

impl Point {
    /// The point `(x, y)`.
    pub fn new(x: i64, y: i64) -> (p: Point)
        ensures
            p.x == x,
            p.y == y,
    {
        Point { x, y }
    }

    /// Decides `in_range`.
    pub fn is_in_range(&self) -> (b: bool)
        ensures
            b == in_range(*self),
    {
        -COORD_MAX <= self.x && self.x <= COORD_MAX && -COORD_MAX <= self.y && self.y
            <= COORD_MAX
    }
}

impl Rect {
    /// The rectangle spanned by two corners, whichever way round they are
    /// given.
    pub fn new(c1: Point, c2: Point) -> (r: Rect)
        ensures
            r.min.x == if c1.x <= c2.x { c1.x } else { c2.x },
            r.min.y == if c1.y <= c2.y { c1.y } else { c2.y },
            r.max.x == if c1.x <= c2.x { c2.x } else { c1.x },
            r.max.y == if c1.y <= c2.y { c2.y } else { c1.y },
    {
        let (x0, x1): (i64, i64) = if c1.x <= c2.x { (c1.x, c2.x) } else { (c2.x, c1.x) };
        let (y0, y1): (i64, i64) = if c1.y <= c2.y { (c1.y, c2.y) } else { (c2.y, c1.y) };
        Rect { min: Point { x: x0, y: y0 }, max: Point { x: x1, y: y1 } }
    }

    /// Extent along x.
    pub open spec fn spec_width(self) -> int {
        self.max.x - self.min.x
    }

    /// Extent along y.
    pub open spec fn spec_height(self) -> int {
        self.max.y - self.min.y
    }

    /// Whether both corners are within the lattice's range.
    pub open spec fn bounded(self) -> bool {
        in_range(self.min) && in_range(self.max)
    }

    /// Decides `bounded`.
    pub fn is_bounded(&self) -> (b: bool)
        ensures
            b == self.bounded(),
    {
        self.min.is_in_range() && self.max.is_in_range()
    }

    /// Extent along x.
    pub fn width(&self) -> (w: i64)
        requires
            self.bounded(),
        ensures
            w == self.spec_width(),
    {
        self.max.x - self.min.x
    }

    /// Extent along y.
    pub fn height(&self) -> (h: i64)
        requires
            self.bounded(),
        ensures
            h == self.spec_height(),
    {
        self.max.y - self.min.y
    }
}

/// A polygon: an exterior ring and any number of holes. A ring is a sequence
/// of vertices, closed by the edge from its last vertex back to its first.
pub struct Polygon {
    exterior: Vec<Point>,
    interiors: Vec<Vec<Point>>,
}

/// What a polygon is, to its users: the vertices of its rings.
pub struct PolygonView {
    pub exterior: Seq<Point>,
    pub interiors: Seq<Seq<Point>>,
}

/// The vertex sequences of a list of rings.
pub open spec fn rings_of(rings: Seq<Vec<Point>>) -> Seq<Seq<Point>> {
    Seq::new(rings.len(), |i: int| rings[i]@)
}

/// A ring as this library keeps it: where the last vertex repeats the first
/// to close the ring, that last vertex is dropped.
pub open spec fn opened(ring: Seq<Point>) -> Seq<Point> {
    if ring.len() >= 2 && ring.last() == ring.first() {
        ring.drop_last()
    } else {
        ring
    }
}

/// The polygon that rings as they are given make: each ring as this library
/// keeps it.
pub open spec fn as_kept(exterior: Seq<Point>, interiors: Seq<Seq<Point>>) -> PolygonView {
    PolygonView {
        exterior: opened(exterior),
        interiors: Seq::new(interiors.len(), |i: int| opened(interiors[i])),
    }
}

/// Three of the ring's vertices are different points.
pub open spec fn three_distinct(ring: Seq<Point>) -> bool {
    exists|i: int, j: int, k: int|
        0 <= i < ring.len() && 0 <= j < ring.len() && 0 <= k < ring.len() && #[trigger] ring[i]
            != #[trigger] ring[j] && ring[i] != #[trigger] ring[k] && ring[j] != ring[k]
}

/// Every vertex of the ring is within the lattice's range.
pub open spec fn all_in_range(ring: Seq<Point>) -> bool {
    forall|i: int| 0 <= i < ring.len() ==> in_range(#[trigger] ring[i])
}

/// A ring a polygon may have.
pub open spec fn ring_valid(ring: Seq<Point>) -> bool {
    three_distinct(ring) && all_in_range(ring)
}

/// The number of vertices in a list of rings.
pub open spec fn total_len(rings: Seq<Seq<Point>>) -> nat
    decreases rings.len(),
{
    if rings.len() == 0 {
        0
    } else {
        total_len(rings.drop_last()) + rings.last().len()
    }
}

/// The vertices of a list of rings, ring after ring.
pub open spec fn flattened(rings: Seq<Seq<Point>>) -> Seq<Point>
    decreases rings.len(),
{
    if rings.len() == 0 {
        Seq::empty()
    } else {
        flattened(rings.drop_last()) + rings.last()
    }
}

/// Rings laid end to end hold as many vertices as the rings together.
pub proof fn lemma_flattened_len(rings: Seq<Seq<Point>>)
    ensures
        flattened(rings).len() == total_len(rings),
    decreases rings.len(),
{
    if rings.len() > 0 {
        lemma_flattened_len(rings.drop_last());
    }
}

impl PolygonView {
    /// All vertices: those of the exterior ring, then those of each hole in
    /// turn.
    pub open spec fn points(self) -> Seq<Point> {
        self.exterior + flattened(self.interiors)
    }

    /// The number of vertices over all rings.
    pub open spec fn vertex_count(self) -> nat {
        self.exterior.len() + total_len(self.interiors)
    }

    /// Every ring is valid, and there are no more than `VERTEX_MAX`
    /// vertices.
    pub open spec fn valid(self) -> bool {
        &&& ring_valid(self.exterior)
        &&& forall|i: int| 0 <= i < self.interiors.len() ==> ring_valid(#[trigger] self.interiors[i])
        &&& self.vertex_count() <= VERTEX_MAX
    }
}

impl View for Polygon {
    type V = PolygonView;

    closed spec fn view(&self) -> PolygonView {
        PolygonView { exterior: self.exterior@, interiors: rings_of(self.interiors@) }
    }
}

/// Copies a ring, leaving out a last vertex that repeats the first.
fn open_ring(ring: &Vec<Point>) -> (out: Vec<Point>)
    ensures
        out@ == opened(ring@),
{
    let len: usize = ring.len();
    let keep: usize = if len >= 2 && ring[len - 1] == ring[0] { len - 1 } else { len };
    let mut out: Vec<Point> = Vec::new();
    let mut i: usize = 0;
    while i < keep
        invariant
            keep <= ring.len(),
            i <= keep,
            out@ == ring@.take(i as int),
        decreases keep - i,
    {
        out.push(ring[i]);
        proof {
            assert(ring@.take(i + 1) =~= ring@.take(i as int).push(ring@[i as int]));
        }
        i += 1;
    }
    proof {
        assert(ring@.take(len as int) =~= ring@);
        assert(ring@.take(len - 1) =~= ring@.drop_last());
    }
    out
}

/// Decides `all_in_range`.
fn ring_in_range(ring: &Vec<Point>) -> (b: bool)
    ensures
        b == all_in_range(ring@),
{
    let mut i: usize = 0;
    while i < ring.len()
        invariant
            i <= ring.len(),
            forall|k: int| 0 <= k < i ==> in_range(#[trigger] ring@[k]),
        decreases ring.len() - i,
    {
        if !ring[i].is_in_range() {
            return false;
        }
        i += 1;
    }
    true
}

/// Decides `three_distinct`.
fn ring_has_three_distinct(ring: &Vec<Point>) -> (b: bool)
    ensures
        b == three_distinct(ring@),
{
    let len: usize = ring.len();
    if len == 0 {
        return false;
    }
    let first = ring[0];
    let mut j: usize = 1;
    while j < len && ring[j] == first
        invariant
            len == ring.len(),
            first == ring@[0],
            1 <= j <= len,
            forall|m: int| 0 <= m < j ==> #[trigger] ring@[m] == first,
        decreases len - j,
    {
        j += 1;
    }
    if j == len {
        return false;
    }
    let second = ring[j];
    let mut k: usize = j + 1;
    while k < len && (ring[k] == first || ring[k] == second)
        invariant
            len == ring.len(),
            first == ring@[0],
            second == ring@[j as int],
            j < k <= len,
            forall|m: int| 0 <= m < k ==> #[trigger] ring@[m] == first || ring@[m] == second,
        decreases len - k,
    {
        k += 1;
    }
    if k == len {
        return false;
    }
    proof {
        assert(ring@[0] != ring@[j as int] && ring@[0] != ring@[k as int] && ring@[j as int]
            != ring@[k as int]);
    }
    true
}

impl Polygon {
    /// The polygon is valid: see `PolygonView::valid`. Every polygon is.
    #[verifier::type_invariant]
    pub open spec fn wf(&self) -> bool {
        self@.valid()
    }

    /// A polygon with the given exterior ring and holes. A ring may be given
    /// closed, its last vertex repeating its first, or open.
    ///
    /// Fails with `InvalidGeometry` where a ring has fewer than three
    /// distinct points or a vertex outside the lattice's range, or where
    /// there are more than `VERTEX_MAX` vertices.
    pub fn new(exterior: Vec<Point>, interiors: Vec<Vec<Point>>) -> (made: Result<
        Polygon,
        GeometryError,
    >)
        ensures
            made is Ok <==> as_kept(exterior@, rings_of(interiors@)).valid(),
            made matches Ok(polygon) ==> polygon@ == as_kept(exterior@, rings_of(interiors@))
                && polygon.wf(),
            made matches Err(error) ==> error == GeometryError::InvalidGeometry,
    {
        let ghost want = as_kept(exterior@, rings_of(interiors@));
        let outer = open_ring(&exterior);
        if !ring_has_three_distinct(&outer) || !ring_in_range(&outer) || outer.len()
            > VERTEX_MAX {
            return Err(GeometryError::InvalidGeometry);
        }
        let mut total: usize = outer.len();
        let mut holes: Vec<Vec<Point>> = Vec::new();
        let mut i: usize = 0;
        while i < interiors.len()
            invariant
                want == as_kept(exterior@, rings_of(interiors@)),
                outer@ == want.exterior,
                ring_valid(want.exterior),
                i <= interiors.len(),
                holes@.len() == i,
                forall|m: int| 0 <= m < i ==> (#[trigger] holes@[m])@ == want.interiors[m],
                forall|m: int| 0 <= m < i ==> ring_valid(#[trigger] want.interiors[m]),
                total == want.exterior.len() + total_len(want.interiors.take(i as int)),
                total <= VERTEX_MAX,
            decreases interiors.len() - i,
        {
            let hole = open_ring(&interiors[i]);
            proof {
                assert(want.interiors.take(i + 1).drop_last() =~= want.interiors.take(i as int));
                assert(want.interiors.take(i + 1).last() == hole@);
                lemma_total_len_grows(want.interiors, i as int + 1);
            }
            if !ring_has_three_distinct(&hole) || !ring_in_range(&hole) || hole.len() > VERTEX_MAX
                - total {
                return Err(GeometryError::InvalidGeometry);
            }
            total += hole.len();
            holes.push(hole);
            i += 1;
        }
        proof {
            assert(want.interiors.take(i as int) =~= want.interiors);
            assert(rings_of(holes@) =~= want.interiors);
        }
        Ok(Polygon { exterior: outer, interiors: holes })
    }

    /// All vertices: those of the exterior ring, then those of each hole in
    /// turn.
    pub fn points(&self) -> (out: Vec<Point>)
        ensures
            out@ == self@.points(),
            out@.len() == self@.vertex_count(),
    {
        let mut out: Vec<Point> = Vec::new();
        let mut j: usize = 0;
        while j < self.exterior.len()
            invariant
                j <= self.exterior@.len(),
                out@ == self.exterior@.take(j as int),
            decreases self.exterior@.len() - j,
        {
            out.push(self.exterior[j]);
            proof {
                assert(self.exterior@.take(j + 1) =~= self.exterior@.take(j as int).push(
                    self.exterior@[j as int],
                ));
            }
            j += 1;
        }
        proof {
            assert(self.exterior@.take(self.exterior@.len() as int) =~= self.exterior@);
            assert(self@.interiors.take(0) =~= Seq::empty());
            assert(out@ =~= self@.exterior + flattened(self@.interiors.take(0)));
        }
        let mut i: usize = 0;
        while i < self.interiors.len()
            invariant
                i <= self.interiors@.len(),
                out@ == self@.exterior + flattened(self@.interiors.take(i as int)),
            decreases self.interiors@.len() - i,
        {
            let ring = &self.interiors[i];
            let ghost start = out@;
            let mut k: usize = 0;
            while k < ring.len()
                invariant
                    k <= ring@.len(),
                    out@ == start + ring@.take(k as int),
                decreases ring@.len() - k,
            {
                out.push(ring[k]);
                proof {
                    assert(ring@.take(k + 1) =~= ring@.take(k as int).push(ring@[k as int]));
                    assert(start + ring@.take(k + 1) =~= (start + ring@.take(k as int)).push(
                        ring@[k as int],
                    ));
                }
                k += 1;
            }
            proof {
                assert(ring@.take(ring@.len() as int) =~= ring@);
                assert(self@.interiors.take(i + 1).drop_last() =~= self@.interiors.take(i as int));
                assert(self@.interiors.take(i + 1).last() == ring@);
                assert(out@ =~= self@.exterior + flattened(self@.interiors.take(i + 1)));
            }
            i += 1;
        }
        proof {
            assert(self@.interiors.take(self@.interiors.len() as int) =~= self@.interiors);
            lemma_flattened_len(self@.interiors);
        }
        out
    }

    /// The number of vertices over all rings.
    pub fn vertex_count(&self) -> (n: usize)
        ensures
            n == self@.vertex_count(),
            n <= VERTEX_MAX,
    {
        let mut n: usize = self.exterior.len();
        let mut i: usize = 0;
        proof {
            use_type_invariant(self);
            assert(self@.interiors.take(0) =~= Seq::empty());
        }
        while i < self.interiors.len()
            invariant
                self.wf(),
                i <= self.interiors@.len(),
                n == self@.exterior.len() + total_len(self@.interiors.take(i as int)),
            decreases self.interiors@.len() - i,
        {
            proof {
                assert(self@.interiors.take(i + 1).drop_last() =~= self@.interiors.take(i as int));
                assert(self@.interiors.take(i + 1).last() == self.interiors@[i as int]@);
                lemma_total_len_grows(self@.interiors, i + 1);
            }
            n += self.interiors[i].len();
            i += 1;
        }
        proof {
            assert(self@.interiors.take(self@.interiors.len() as int) =~= self@.interiors);
        }
        n
    }

    /// The exterior ring.
    pub fn exterior(&self) -> (ring: &Vec<Point>)
        ensures
            ring@ == self@.exterior,
            self.wf(),
    {
        proof {
            use_type_invariant(self);
        }
        &self.exterior
    }

    /// The holes.
    pub fn interiors(&self) -> (rings: &Vec<Vec<Point>>)
        ensures
            rings_of(rings@) == self@.interiors,
            self.wf(),
    {
        proof {
            use_type_invariant(self);
        }
        &self.interiors
    }
}

/// A valid polygon has at least three vertices.
pub proof fn lemma_valid_polygon_has_three_vertices(polygon: PolygonView)
    requires
        polygon.valid(),
    ensures
        polygon.exterior.len() >= 3,
        polygon.vertex_count() >= 3,
{
    let ring = polygon.exterior;
    let (i, j, k): (int, int, int) = choose|i: int, j: int, k: int|
        0 <= i < ring.len() && 0 <= j < ring.len() && 0 <= k < ring.len() && #[trigger] ring[i]
            != #[trigger] ring[j] && ring[i] != #[trigger] ring[k] && ring[j] != ring[k];
    assert(i != j && i != k && j != k);
}

/// The vertices of the first `upto` rings are among those of all of them.
pub proof fn lemma_total_len_grows(rings: Seq<Seq<Point>>, upto: int)
    requires
        0 <= upto <= rings.len(),
    ensures
        total_len(rings.take(upto)) <= total_len(rings),
    decreases rings.len() - upto,
{
    if upto < rings.len() {
        lemma_total_len_grows(rings, upto + 1);
        assert(rings.take(upto + 1).drop_last() =~= rings.take(upto));
    } else {
        assert(rings.take(upto) =~= rings);
    }
}

} // verus!
