//! Plane geometry on integer coordinates.
//!
//! All points live on an integer grid clamped to [`COORD_LIMIT`], which keeps
//! doubled areas, squared distances and accumulated path costs well inside the
//! machine integer ranges.

use vstd::prelude::*;

verus! {

/// Largest coordinate magnitude the engine accepts.
pub const COORD_LIMIT: i64 = 1_000_000;

/// A point of the ground plane.
#[derive(Clone, Copy, PartialEq, Eq, Structural, Debug, Hash)]
pub struct Point {
    pub x: i64,
    pub y: i64,
}

impl Point {
    /// The point lies within the engine's coordinate range.
    pub open spec fn wf(self) -> bool {
        -COORD_LIMIT <= self.x <= COORD_LIMIT && -COORD_LIMIT <= self.y <= COORD_LIMIT
    }

    pub fn new(x: i64, y: i64) -> (r: Point)
        ensures
            r.x == x,
            r.y == y,
    {
        Point { x, y }
    }
}

/// Squared Euclidean distance between two points, as a mathematical integer.
pub open spec fn dist2(p: Point, q: Point) -> int {
    (q.x - p.x) * (q.x - p.x) + (q.y - p.y) * (q.y - p.y)
}

/// `r` is the integer square root (rounded down) of `n`.
pub open spec fn is_isqrt(n: int, r: int) -> bool {
    0 <= r && r * r <= n && n < (r + 1) * (r + 1)
}

/// The integer square root is unique.
pub proof fn lemma_isqrt_unique(n: int, r1: int, r2: int)
    requires
        is_isqrt(n, r1),
        is_isqrt(n, r2),
    ensures
        r1 == r2,
{
    if r1 < r2 {
        assert((r1 + 1) * (r1 + 1) <= r2 * r2) by (nonlinear_arith)
            requires 0 <= r1 && r1 < r2;
    }
    if r2 < r1 {
        assert((r2 + 1) * (r2 + 1) <= r1 * r1) by (nonlinear_arith)
            requires 0 <= r2 && r2 < r1;
    }
}

/// The integer square root as a function, for use in cost specifications.
pub open spec fn isqrt_of(n: int) -> int {
    choose|r: int| is_isqrt(n, r)
}

pub proof fn lemma_isqrt_of(n: int, r: int)
    requires
        is_isqrt(n, r),
    ensures
        isqrt_of(n) == r,
{
    let r2 = choose|r2: int| is_isqrt(n, r2);
    lemma_isqrt_unique(n, r, r2);
}

/// Every non-negative integer has an integer square root.
pub proof fn lemma_isqrt_exists(n: int)
    requires
        0 <= n,
    ensures
        is_isqrt(n, isqrt_of(n)),
    decreases n,
{
    if n == 0 {
        assert(is_isqrt(0, 0));
    } else {
        lemma_isqrt_exists(n - 1);
        let r = isqrt_of(n - 1);
        if (r + 1) * (r + 1) <= n {
            assert((r + 2) * (r + 2) > n) by (nonlinear_arith)
                requires is_isqrt(n - 1, r) && n >= 1;
            assert(is_isqrt(n, r + 1));
        } else {
            assert(is_isqrt(n, r));
        }
    }
}

/// Euclidean distance between two points, rounded down.
pub open spec fn dist_spec(p: Point, q: Point) -> int {
    isqrt_of(dist2(p, q))
}

/// The floor-rounded distance between in-range points is non-negative.
pub proof fn lemma_dist_spec_nonneg(p: Point, q: Point)
    ensures
        0 <= dist_spec(p, q),
{
    assert(dist2(p, q) >= 0) by (nonlinear_arith);
    lemma_isqrt_exists(dist2(p, q));
}

/// Distances between in-range points stay below this bound.
pub proof fn lemma_dist_bound(p: Point, q: Point)
    requires
        p.wf(),
        q.wf(),
        is_isqrt(dist2(p, q), dist_spec(p, q)),
    ensures
        0 <= dist_spec(p, q) < 3_000_000,
{
    let r = dist_spec(p, q);
    assert(dist2(p, q) <= 8_000_000_000_000) by (nonlinear_arith)
        requires p.wf() && q.wf();
    if r >= 3_000_000 {
        assert(r * r >= 9_000_000_000_000) by (nonlinear_arith)
            requires r >= 3_000_000;
    }
}

/// Cost of crossing between two mesh triangles, measured between their
/// representative points; every crossing costs at least one unit.
pub open spec fn edge_w(p: Point, q: Point) -> int {
    if dist_spec(p, q) < 1 {
        1
    } else {
        dist_spec(p, q)
    }
}

/// Integer square root by bisection.
pub fn isqrt(n: u64) -> (r: u64)
    requires
        n < 0x4000_0000_0000_0000,
    ensures
        is_isqrt(n as int, r as int),
{
    let mut lo: u64 = 0;
    let mut hi: u64 = 0x8000_0000;
    proof {
        assert((0x8000_0000u64 as int) * (0x8000_0000u64 as int) > n as int) by (nonlinear_arith)
            requires n < 0x4000_0000_0000_0000u64;
    }
    while hi - lo > 1
        invariant
            lo < hi,
            hi <= 0x8000_0000,
            lo * lo <= n,
            n < hi * hi,
        decreases hi - lo,
    {
        let mid: u64 = lo + (hi - lo) / 2;
        proof {
            assert((mid as int) * (mid as int) < 0x4000_0000_0000_0000) by (nonlinear_arith)
                requires mid < 0x8000_0000u64;
        }
        if mid * mid <= n {
            lo = mid;
        } else {
            hi = mid;
        }
    }
    lo
}

/// Euclidean distance between two points, rounded down to an integer.
pub fn dist(p: Point, q: Point) -> (r: u64)
    requires
        p.wf(),
        q.wf(),
    ensures
        is_isqrt(dist2(p, q), r as int),
        r as int == dist_spec(p, q),
        r < 3_000_000,
{
    let dx: i64 = q.x - p.x;
    let dy: i64 = q.y - p.y;
    proof {
        assert((dx as int) * (dx as int) <= 4_000_000_000_000 && (dx as int) * (dx as int) >= 0)
            by (nonlinear_arith)
            requires -2_000_000 <= dx <= 2_000_000;
        assert((dy as int) * (dy as int) <= 4_000_000_000_000 && (dy as int) * (dy as int) >= 0)
            by (nonlinear_arith)
            requires -2_000_000 <= dy <= 2_000_000;
    }
    let d2: u64 = (dx * dx + dy * dy) as u64;
    let r = isqrt(d2);
    proof {
        lemma_isqrt_of(dist2(p, q), r as int);
        lemma_dist_bound(p, q);
    }
    r
}

/// The crossing cost `edge_w` on machine integers.
pub fn edge_cost(p: Point, q: Point) -> (r: u64)
    requires
        p.wf(),
        q.wf(),
    ensures
        r as int == edge_w(p, q),
        1 <= r < 3_000_000,
{
    let d = dist(p, q);
    if d < 1 {
        1
    } else {
        d
    }
}

/// Saturating addition; the engine treats `u64::MAX` as an infinite cost.
pub fn sat_add(a: u64, b: u64) -> (r: u64)
    ensures
        r as int == if a as int + b as int <= u64::MAX as int { a as int + b as int } else { u64::MAX as int },
{
    if a > u64::MAX - b {
        u64::MAX
    } else {
        a + b
    }
}

/// An axis-aligned rectangle with a non-empty interior.
#[derive(Clone, Copy, PartialEq, Eq, Structural, Debug)]
pub struct Rect {
    pub min: Point,
    pub max: Point,
}

impl Rect {
    pub open spec fn wf(self) -> bool {
        self.min.wf() && self.max.wf() && self.min.x < self.max.x && self.min.y < self.max.y
    }

    /// Closed containment: boundary points count as inside.
    pub open spec fn contains(self, p: Point) -> bool {
        self.min.x <= p.x <= self.max.x && self.min.y <= p.y <= self.max.y
    }

    /// Strict containment: the point lies in the open interior.
    pub open spec fn contains_strict(self, p: Point) -> bool {
        self.min.x < p.x < self.max.x && self.min.y < p.y < self.max.y
    }

    /// `other` lies entirely within `self` (closed sense).
    pub open spec fn covers(self, other: Rect) -> bool {
        self.min.x <= other.min.x && other.max.x <= self.max.x
            && self.min.y <= other.min.y && other.max.y <= self.max.y
    }

    /// The open interiors of the two rectangles do not intersect.
    pub open spec fn interior_disjoint(self, other: Rect) -> bool {
        !(self.min.x < other.max.x && other.min.x < self.max.x
            && self.min.y < other.max.y && other.min.y < self.max.y)
    }

    /// Doubled coordinates keep areas exact; this is the plain area.
    pub open spec fn area(self) -> int {
        (self.max.x - self.min.x) * (self.max.y - self.min.y)
    }
}

/// The axis-aligned rectangle bounding the playable ground plane.
#[derive(Clone, Copy, PartialEq, Eq, Structural, Debug)]
pub struct MapBounds {
    pub min: Point,
    pub max: Point,
}

impl MapBounds {
    pub open spec fn wf(self) -> bool {
        self.rect().wf()
    }

    pub open spec fn rect(self) -> Rect {
        Rect { min: self.min, max: self.max }
    }

    pub fn new(min: Point, max: Point) -> (r: MapBounds)
        requires
            (Rect { min, max }).wf(),
        ensures
            r.min == min,
            r.max == max,
            r.wf(),
    {
        MapBounds { min, max }
    }
}

/// Twice the signed area of the triangle `o`, `p`, `q`; positive when the
/// three points wind counter-clockwise.
pub open spec fn cross(o: Point, p: Point, q: Point) -> int {
    (p.x - o.x) * (q.y - o.y) - (p.y - o.y) * (q.x - o.x)
}

/// Computes `cross` on machine integers.
pub fn cross_i64(o: Point, p: Point, q: Point) -> (r: i64)
    requires
        o.wf(),
        p.wf(),
        q.wf(),
    ensures
        r as int == cross(o, p, q),
{
    proof {
        lemma_cross_bounds(o, p, q);
    }
    (p.x - o.x) * (q.y - o.y) - (p.y - o.y) * (q.x - o.x)
}

pub proof fn lemma_cross_bounds(o: Point, p: Point, q: Point)
    requires
        o.wf(),
        p.wf(),
        q.wf(),
    ensures
        -8_000_000_000_000 <= (p.x - o.x) * (q.y - o.y) <= 8_000_000_000_000,
        -8_000_000_000_000 <= (p.y - o.y) * (q.x - o.x) <= 8_000_000_000_000,
        -16_000_000_000_000 <= cross(o, p, q) <= 16_000_000_000_000,
{
    assert(-8_000_000_000_000 <= (p.x - o.x) * (q.y - o.y) <= 8_000_000_000_000)
        by (nonlinear_arith)
        requires
            -2_000_000 <= p.x - o.x <= 2_000_000,
            -2_000_000 <= q.y - o.y <= 2_000_000;
    assert(-8_000_000_000_000 <= (p.y - o.y) * (q.x - o.x) <= 8_000_000_000_000)
        by (nonlinear_arith)
        requires
            -2_000_000 <= p.y - o.y <= 2_000_000,
            -2_000_000 <= q.x - o.x <= 2_000_000;
}

/// A triangle of the navigation mesh, wound counter-clockwise.
#[derive(Clone, Copy, PartialEq, Eq, Structural, Debug)]
pub struct Triangle {
    pub a: Point,
    pub b: Point,
    pub c: Point,
}

impl Triangle {
    pub open spec fn wf(self) -> bool {
        self.a.wf() && self.b.wf() && self.c.wf() && cross(self.a, self.b, self.c) > 0
    }

    /// Closed containment: a point on an edge or a vertex counts as inside.
    pub open spec fn contains(self, p: Point) -> bool {
        cross(self.a, self.b, p) >= 0 && cross(self.b, self.c, p) >= 0 && cross(self.c, self.a, p) >= 0
    }

    /// Twice the triangle's area.
    pub open spec fn area2(self) -> int {
        cross(self.a, self.b, self.c)
    }

    /// The triangle has the directed edge from `u` to `v`.
    pub open spec fn has_edge(self, u: Point, v: Point) -> bool {
        (self.a == u && self.b == v) || (self.b == u && self.c == v) || (self.c == u && self.a == v)
    }

    /// Closed containment on machine integers.
    pub fn contains_point(&self, p: Point) -> (r: bool)
        requires
            self.a.wf(),
            self.b.wf(),
            self.c.wf(),
            p.wf(),
        ensures
            r == self.contains(p),
    {
        cross_i64(self.a, self.b, p) >= 0
            && cross_i64(self.b, self.c, p) >= 0
            && cross_i64(self.c, self.a, p) >= 0
    }
}

/// Two distinct triangles share an edge, traversed in opposite directions.
pub open spec fn adjacent(s: Triangle, t: Triangle) -> bool {
    s != t && exists|u: Point, v: Point| s.has_edge(u, v) && t.has_edge(v, u)
}

/// Decides adjacency by checking each directed edge of `s` against `t`.
pub fn adjacent_tris(s: &Triangle, t: &Triangle) -> (r: bool)
    ensures
        r == adjacent(*s, *t),
{
    if *s == *t {
        return false;
    }
    let r = edge_of(t, s.b, s.a) || edge_of(t, s.c, s.b) || edge_of(t, s.a, s.c);
    proof {
        if r {
            if t.has_edge(s.b, s.a) {
                assert(s.has_edge(s.a, s.b) && t.has_edge(s.b, s.a));
            } else if t.has_edge(s.c, s.b) {
                assert(s.has_edge(s.b, s.c) && t.has_edge(s.c, s.b));
            } else {
                assert(s.has_edge(s.c, s.a) && t.has_edge(s.a, s.c));
            }
        }
        if adjacent(*s, *t) {
            let (u, v) = choose|u: Point, v: Point| s.has_edge(u, v) && t.has_edge(v, u);
            assert(s.has_edge(u, v) && t.has_edge(v, u));
        }
    }
    r
}

fn edge_of(t: &Triangle, u: Point, v: Point) -> (r: bool)
    ensures
        r == t.has_edge(u, v),
{
    (t.a == u && t.b == v) || (t.b == u && t.c == v) || (t.c == u && t.a == v)
}

/// A deterministic interior representative of a triangle: the floor of the
/// vertex average, computed after shifting into the non-negative range.
pub open spec fn rep_point(t: Triangle) -> Point {
    Point {
        x: ((t.a.x + t.b.x + t.c.x + 3 * COORD_LIMIT) / 3 - COORD_LIMIT) as i64,
        y: ((t.a.y + t.b.y + t.c.y + 3 * COORD_LIMIT) / 3 - COORD_LIMIT) as i64,
    }
}

/// The representative point of a triangle with in-range vertices is itself
/// in range.
pub proof fn lemma_rep_point_wf(t: Triangle)
    requires
        t.a.wf(),
        t.b.wf(),
        t.c.wf(),
    ensures
        rep_point(t).wf(),
{
    let sx = t.a.x + t.b.x + t.c.x + 3 * COORD_LIMIT;
    let sy = t.a.y + t.b.y + t.c.y + 3 * COORD_LIMIT;
    assert(0 <= sx <= 6_000_000 && 0 <= sy <= 6_000_000);
    assert(0 <= sx / 3 <= 2_000_000) by (nonlinear_arith)
        requires 0 <= sx <= 6_000_000;
    assert(0 <= sy / 3 <= 2_000_000) by (nonlinear_arith)
        requires 0 <= sy <= 6_000_000;
}

/// Computes `rep_point` on machine integers.
pub fn rep_point_of(t: &Triangle) -> (r: Point)
    requires
        t.a.wf(),
        t.b.wf(),
        t.c.wf(),
    ensures
        r == rep_point(*t),
        r.wf(),
{
    let sx: u64 = ((t.a.x + COORD_LIMIT) + (t.b.x + COORD_LIMIT) + (t.c.x + COORD_LIMIT)) as u64;
    let sy: u64 = ((t.a.y + COORD_LIMIT) + (t.b.y + COORD_LIMIT) + (t.c.y + COORD_LIMIT)) as u64;
    let x: i64 = (sx / 3) as i64 - COORD_LIMIT;
    let y: i64 = (sy / 3) as i64 - COORD_LIMIT;
    Point { x, y }
}

} // verus!
