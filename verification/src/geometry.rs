//! Points, polygons and the elementary geometric queries on them.
use vstd::prelude::*;
use crate::fixed::clamp_i32;
use crate::fixed::clamped;
use crate::fixed::div_floor;
use crate::fixed::div_signed;
use crate::fixed::floor_div;
use crate::fixed::lemma_product_bound;
use crate::fixed::magnitude;
use crate::fixed::prod;

verus! {

/// A position on the grid, in steps.
#[derive(Clone, Copy, PartialEq, Eq, Structural, Debug)]
pub struct Point {
    pub x: i32,
    pub y: i32,
}

/// A position or displacement that may lie beyond the grid.
#[derive(Clone, Copy, PartialEq, Eq, Structural, Debug)]
pub struct Wide {
    pub x: i64,
    pub y: i64,
}

/// An ordered ring of vertices; the last vertex connects to the first.
pub type Polygon = Vec<Point>;

impl Point {
    /// The same position with wide coordinates.
    pub open spec fn widened(self) -> Wide {
        Wide { x: self.x as i64, y: self.y as i64 }
    }

    pub fn new(x: i32, y: i32) -> (p: Point)
        ensures
            p == (Point { x, y }),
    {
        Point { x, y }
    }

    pub fn wide(self) -> (w: Wide)
        ensures
            w == self.widened(),
    {
        Wide { x: self.x as i64, y: self.y as i64 }
    }
}

/// The cross product of the position vectors of `p` and `q`.
pub open spec fn edge_cross(p: Point, q: Point) -> int {
    p.x * q.y - q.x * p.y
}

/// The vertex that follows vertex `i` on the ring.
pub open spec fn next_index(n: int, i: int) -> int {
    if i + 1 == n {
        0
    } else {
        i + 1
    }
}

/// The shoelace sum over the first `k` edges of the ring.
pub open spec fn shoelace(poly: Seq<Point>, k: int) -> int
    decreases k,
{
    if k <= 0 {
        0
    } else {
        shoelace(poly, k - 1) + edge_cross(
            poly[k - 1],
            poly[next_index(poly.len() as int, k - 1)],
        )
    }
}

/// Twice the signed area of the polygon, in square steps: positive for a
/// counter-clockwise ring, zero for fewer than three vertices.
pub open spec fn twice_area(poly: Seq<Point>) -> int {
    if poly.len() < 3 {
        0
    } else {
        shoelace(poly, poly.len() as int)
    }
}

/// The ring that starts at the second vertex of `poly`.
pub open spec fn rotated(poly: Seq<Point>) -> Seq<Point> {
    if poly.len() == 0 {
        poly
    } else {
        poly.subrange(1, poly.len() as int).push(poly[0])
    }
}

/// The ring that starts at vertex `k` of `poly`.
pub open spec fn rotated_by(poly: Seq<Point>, k: nat) -> Seq<Point>
    decreases k,
{
    if k == 0 {
        poly
    } else {
        rotated(rotated_by(poly, (k - 1) as nat))
    }
}

proof fn lemma_shoelace_rotated(poly: Seq<Point>, k: int)
    requires
        poly.len() >= 1,
        0 <= k < poly.len(),
    ensures
        shoelace(rotated(poly), k) == shoelace(poly, k + 1) - shoelace(poly, 1),
    decreases k,
{
    let n = poly.len() as int;
    let r = rotated(poly);
    reveal_with_fuel(shoelace, 2);
    if k > 0 {
        lemma_shoelace_rotated(poly, k - 1);
        assert(r[k - 1] == poly[k]);
        assert(r[next_index(n, k - 1)] == poly[next_index(n, k)]);
    }
}

/// The doubled area does not depend on the vertex at which the ring starts.
pub proof fn lemma_area_rotated(poly: Seq<Point>)
    ensures
        twice_area(rotated(poly)) == twice_area(poly),
{
    let n = poly.len() as int;
    if n >= 3 {
        let r = rotated(poly);
        lemma_shoelace_rotated(poly, n - 1);
        reveal_with_fuel(shoelace, 2);
        assert(r[n - 1] == poly[0]);
        assert(r[next_index(n, n - 1)] == poly[1]);
    }
}

/// The doubled area is the same for every rotation of the vertex list.
pub proof fn lemma_area_rotated_by(poly: Seq<Point>, k: nat)
    ensures
        twice_area(rotated_by(poly, k)) == twice_area(poly),
        rotated_by(poly, k).len() == poly.len(),
    decreases k,
{
    if k > 0 {
        lemma_area_rotated_by(poly, (k - 1) as nat);
        lemma_area_rotated(rotated_by(poly, (k - 1) as nat));
    }
}

proof fn lemma_shoelace_reversed(poly: Seq<Point>, k: int)
    requires
        0 <= k < poly.len(),
    ensures
        shoelace(poly.reverse(), k) == -(shoelace(poly, poly.len() - 1) - shoelace(
            poly,
            poly.len() - 1 - k,
        )),
    decreases k,
{
    let n = poly.len() as int;
    let r = poly.reverse();
    if k > 0 {
        lemma_shoelace_reversed(poly, k - 1);
        assert(r[k - 1] == poly[n - k]);
        assert(r[next_index(n, k - 1)] == poly[n - 1 - k]);
        assert(next_index(n, n - 1 - k) == n - k);
    }
}

/// Reversing the winding negates the doubled area.
pub proof fn lemma_area_reversed(poly: Seq<Point>)
    ensures
        twice_area(poly.reverse()) == -twice_area(poly),
{
    let n = poly.len() as int;
    if n >= 3 {
        let r = poly.reverse();
        lemma_shoelace_reversed(poly, n - 1);
        assert(r[n - 1] == poly[0]);
        assert(r[next_index(n, n - 1)] == poly[n - 1]);
        assert(next_index(n, n - 1) == 0);
    }
}

proof fn lemma_shoelace_bound(poly: Seq<Point>, k: int)
    requires
        0 <= k <= poly.len(),
    ensures
        -(k * 0x8000_0000_0000_0000) <= shoelace(poly, k) <= k * 0x8000_0000_0000_0000,
    decreases k,
{
    if k > 0 {
        lemma_shoelace_bound(poly, k - 1);
        let p = poly[k - 1];
        let q = poly[next_index(poly.len() as int, k - 1)];
        lemma_product_bound(p.x as int, q.y as int, 0x8000_0000, 0x8000_0000);
        lemma_product_bound(q.x as int, p.y as int, 0x8000_0000, 0x8000_0000);
    }
}

/// The doubled area of a polygon is bounded by its number of vertices.
pub proof fn lemma_area_bound(poly: Seq<Point>)
    ensures
        -(poly.len() * 0x8000_0000_0000_0000) <= twice_area(poly) <= poly.len()
            * 0x8000_0000_0000_0000,
{
    if poly.len() >= 3 {
        lemma_shoelace_bound(poly, poly.len() as int);
    }
}

/// Twice the signed area of a polygon by the shoelace formula, in square
/// steps. The sign gives the winding: positive is counter-clockwise.
pub fn polygon_area(polygon: &Vec<Point>) -> (area: i128)
    ensures
        area == twice_area(polygon@),
{
    let n = polygon.len();
    if n < 3 {
        return 0;
    }
    let mut sum: i128 = 0;
    let mut i: usize = 0;
    while i < n
        invariant
            n == polygon.len(),
            i <= n,
            sum == shoelace(polygon@, i as int),
        decreases n - i,
    {
        let j: usize = if i + 1 == n {
            0
        } else {
            i + 1
        };
        let p = polygon[i];
        let q = polygon[j];
        proof {
            lemma_shoelace_bound(polygon@, i as int);
            lemma_shoelace_bound(polygon@, i + 1);
            lemma_product_bound(p.x as int, q.y as int, 0x8000_0000, 0x8000_0000);
            lemma_product_bound(q.x as int, p.y as int, 0x8000_0000, 0x8000_0000);
        }
        let term: i128 = prod(p.x as i64, q.y as i64) - prod(q.x as i64, p.y as i64);
        sum = sum + term;
        i = i + 1;
    }
    sum
}


/// Largest magnitude of a doubled area that `polygon_centroid` accepts.
pub const AREA_LIMIT: i128 = 0x2000_0000_0000_0000_0000_0000_0000_0000;

/// The weighted sum of the first coordinates over the first `k` edges.
pub open spec fn moment_x(poly: Seq<Point>, k: int) -> int
    decreases k,
{
    if k <= 0 {
        0
    } else {
        let p = poly[k - 1];
        let q = poly[next_index(poly.len() as int, k - 1)];
        moment_x(poly, k - 1) + (p.x + q.x) * edge_cross(p, q)
    }
}

/// The weighted sum of the second coordinates over the first `k` edges.
pub open spec fn moment_y(poly: Seq<Point>, k: int) -> int
    decreases k,
{
    if k <= 0 {
        0
    } else {
        let p = poly[k - 1];
        let q = poly[next_index(poly.len() as int, k - 1)];
        moment_y(poly, k - 1) + (p.y + q.y) * edge_cross(p, q)
    }
}

/// `v` as a coordinate on the grid.
pub open spec fn on_grid(v: int) -> i32 {
    clamped(v, i32::MIN as int, i32::MAX as int) as i32
}

/// The area-weighted centroid of `poly`, whose doubled area is `area`: the
/// moments divided by three times the doubled area, rounded down. The
/// origin where the polygon has fewer than three vertices or no area.
pub open spec fn centroid_of(poly: Seq<Point>, area: int) -> Point {
    if poly.len() < 3 || area == 0 {
        Point { x: 0, y: 0 }
    } else {
        Point {
            x: on_grid(floor_div(moment_x(poly, poly.len() as int), 3 * area)),
            y: on_grid(floor_div(moment_y(poly, poly.len() as int), 3 * area)),
        }
    }
}

/// The ring is symmetric about the origin: it has an even number of
/// vertices, and the vertex half way round from each vertex is its mirror
/// image.
pub open spec fn symmetric_about_origin(poly: Seq<Point>) -> bool {
    let m = poly.len() as int / 2;
    &&& poly.len() == 2 * m
    &&& forall|i: int|
        0 <= i < m ==> (#[trigger] poly[i + m]).x == -poly[i].x && poly[i + m].y == -poly[i].y
}

proof fn lemma_moments_mirrored(poly: Seq<Point>, k: int)
    requires
        symmetric_about_origin(poly),
        0 <= k <= poly.len() / 2,
    ensures
        moment_x(poly, poly.len() / 2 + k) == moment_x(poly, poly.len() as int / 2) - moment_x(
            poly,
            k,
        ),
        moment_y(poly, poly.len() / 2 + k) == moment_y(poly, poly.len() as int / 2) - moment_y(
            poly,
            k,
        ),
    decreases k,
{
    let n = poly.len() as int;
    let m = n / 2;
    if k > 0 {
        lemma_moments_mirrored(poly, k - 1);
        let p = poly[k - 1];
        let q = poly[next_index(n, k - 1)];
        let pm = poly[m + k - 1];
        let qm = poly[next_index(n, m + k - 1)];
        assert(poly[(k - 1) + m] == pm);
        assert(pm.x == -p.x && pm.y == -p.y);
        if k < m {
            assert(next_index(n, k - 1) == k);
            assert(next_index(n, m + k - 1) == k + m);
            assert(poly[k + m] == qm);
            assert(qm.x == -q.x && qm.y == -q.y);
        } else {
            assert(next_index(n, m + k - 1) == 0);
            assert(next_index(n, k - 1) == m);
            assert(poly[0 + m] == q);
            assert(q.x == -qm.x && q.y == -qm.y);
        }
        let px = p.x as int;
        let py = p.y as int;
        let qx = q.x as int;
        let qy = q.y as int;
        let c = px * qy - qx * py;
        assert((-px) * (-qy) - (-qx) * (-py) == c) by (nonlinear_arith)
            requires
                c == px * qy - qx * py,
        ;
        assert(edge_cross(pm, qm) == c);
        assert(edge_cross(p, q) == c);
        assert((-px + -qx) * c == -((px + qx) * c)) by (nonlinear_arith);
        assert((-py + -qy) * c == -((py + qy) * c)) by (nonlinear_arith);
    }
}

/// The centroid of a ring that is symmetric about the origin is the
/// origin, exactly: so it is for a regular polygon with an even number of
/// vertices round the origin, rounded to the grid alike on both sides.
pub proof fn lemma_centroid_of_symmetric(poly: Seq<Point>)
    requires
        symmetric_about_origin(poly),
    ensures
        centroid_of(poly, twice_area(poly)) == (Point { x: 0, y: 0 }),
{
    let n = poly.len() as int;
    let m = n / 2;
    lemma_moments_mirrored(poly, m);
    let area = twice_area(poly);
    if n >= 3 && area != 0 {
        assert(moment_x(poly, n) == 0);
        assert(moment_y(poly, n) == 0);
        assert(floor_div(0, 3 * area) == 0) by {
            if 3 * area > 0 {
                vstd::arithmetic::div_mod::lemma_div_basics_1(3 * area);
            } else {
                vstd::arithmetic::div_mod::lemma_div_basics_1(-(3 * area));
            }
        }
    }
}

proof fn lemma_moment_bound(poly: Seq<Point>, k: int)
    requires
        0 <= k <= poly.len(),
    ensures
        -(k * 0x8000_0000_0000_0000_0000_0000) <= moment_x(poly, k) <= k
            * 0x8000_0000_0000_0000_0000_0000,
        -(k * 0x8000_0000_0000_0000_0000_0000) <= moment_y(poly, k) <= k
            * 0x8000_0000_0000_0000_0000_0000,
    decreases k,
{
    if k > 0 {
        lemma_moment_bound(poly, k - 1);
        let p = poly[k - 1];
        let q = poly[next_index(poly.len() as int, k - 1)];
        lemma_product_bound(p.x as int, q.y as int, 0x8000_0000, 0x8000_0000);
        lemma_product_bound(q.x as int, p.y as int, 0x8000_0000, 0x8000_0000);
        lemma_product_bound(
            p.x + q.x,
            edge_cross(p, q),
            0x1_0000_0000,
            0x8000_0000_0000_0000,
        );
        lemma_product_bound(
            p.y + q.y,
            edge_cross(p, q),
            0x1_0000_0000,
            0x8000_0000_0000_0000,
        );
    }
}

/// The area-weighted centroid of a polygon whose doubled area, as
/// `polygon_area` gives it, is `area`.
pub fn polygon_centroid(polygon: &Vec<Point>, area: i128) -> (c: Point)
    requires
        polygon.len() <= 0xffff_ffff,
        -AREA_LIMIT <= area <= AREA_LIMIT,
    ensures
        c == centroid_of(polygon@, area as int),
{
    let n = polygon.len();
    if n < 3 || area == 0 {
        return Point { x: 0, y: 0 };
    }
    let mut sum_x: i128 = 0;
    let mut sum_y: i128 = 0;
    let mut i: usize = 0;
    while i < n
        invariant
            n == polygon.len(),
            n <= 0xffff_ffff,
            i <= n,
            sum_x == moment_x(polygon@, i as int),
            sum_y == moment_y(polygon@, i as int),
        decreases n - i,
    {
        let j: usize = if i + 1 == n {
            0
        } else {
            i + 1
        };
        let p = polygon[i];
        let q = polygon[j];
        proof {
            lemma_moment_bound(polygon@, i as int);
            lemma_moment_bound(polygon@, i + 1);
            lemma_product_bound(p.x as int, q.y as int, 0x8000_0000, 0x8000_0000);
            lemma_product_bound(q.x as int, p.y as int, 0x8000_0000, 0x8000_0000);
            lemma_product_bound(
                p.x + q.x,
                edge_cross(p, q),
                0x1_0000_0000,
                0x8000_0000_0000_0000,
            );
            lemma_product_bound(
                p.y + q.y,
                edge_cross(p, q),
                0x1_0000_0000,
                0x8000_0000_0000_0000,
            );
        }
        let cross: i128 = prod(p.x as i64, q.y as i64) - prod(q.x as i64, p.y as i64);
        sum_x = sum_x + (p.x as i128 + q.x as i128) * cross;
        sum_y = sum_y + (p.y as i128 + q.y as i128) * cross;
        i = i + 1;
    }
    proof {
        lemma_moment_bound(polygon@, n as int);
    }
    Point {
        x: clamp_i32(div_signed(sum_x, 3 * area)),
        y: clamp_i32(div_signed(sum_y, 3 * area)),
    }
}

/// Determinants smaller than this count as zero when two lines are tested
/// for being parallel.
pub const PARALLEL_LIMIT: i128 = 4295;

/// The cross product of two vectors.
pub open spec fn cross(ax: int, ay: int, bx: int, by: int) -> int {
    ax * by - bx * ay
}

/// The fraction `n / d` lies between zero and one.
pub open spec fn within_unit(n: int, d: int) -> bool {
    if d > 0 {
        0 <= n <= d
    } else {
        d <= n <= 0
    }
}

/// The determinant of the directions of the segments `p1 p2` and `p3 p4`.
pub open spec fn line_determinant(p1: Wide, p2: Wide, p3: Wide, p4: Wide) -> int {
    cross(p2.x - p1.x, p2.y - p1.y, p4.x - p3.x, p4.y - p3.y)
}

/// The numerator of the parameter of the crossing point along `p3 p4`.
pub open spec fn along_second(p1: Wide, p2: Wide, p3: Wide) -> int {
    cross(p2.x - p1.x, p2.y - p1.y, p1.x - p3.x, p1.y - p3.y)
}

/// The numerator of the parameter of the crossing point along `p1 p2`.
pub open spec fn along_first(p1: Wide, p3: Wide, p4: Wide) -> int {
    cross(p4.x - p3.x, p4.y - p3.y, p1.x - p3.x, p1.y - p3.y)
}

/// The two segments are not parallel and cross within both of them.
pub open spec fn segments_cross(p1: Wide, p2: Wide, p3: Wide, p4: Wide) -> bool {
    let d = line_determinant(p1, p2, p3, p4);
    &&& magnitude(d) >= PARALLEL_LIMIT
    &&& within_unit(along_second(p1, p2, p3), d)
    &&& within_unit(along_first(p1, p3, p4), d)
}

/// The point at which the lines through `p1 p2` and `p3 p4` cross, taken
/// from `p1` along the first segment and rounded down.
pub open spec fn crossing_point(p1: Wide, p2: Wide, p3: Wide, p4: Wide) -> (int, int) {
    let d = line_determinant(p1, p2, p3, p4);
    let t = along_first(p1, p3, p4);
    (p1.x + floor_div(t * (p2.x - p1.x), d), p1.y + floor_div(t * (p2.y - p1.y), d))
}

/// Where the segments `p1 p2` and `p3 p4` cross, if they do.
pub open spec fn intersection(p1: Wide, p2: Wide, p3: Wide, p4: Wide) -> Option<(int, int)> {
    if segments_cross(p1, p2, p3, p4) {
        Some(crossing_point(p1, p2, p3, p4))
    } else {
        None
    }
}

/// The coordinates of `p` have magnitudes of at most `WIDE`.
pub open spec fn in_reach(p: Wide) -> bool {
    -crate::fixed::WIDE <= p.x <= crate::fixed::WIDE && -crate::fixed::WIDE <= p.y
        <= crate::fixed::WIDE
}

/// A fraction between zero and one of a length lies between zero and that
/// length.
pub proof fn lemma_fraction_of(t: int, d: int, s: int)
    requires
        d != 0,
        within_unit(t, d),
    ensures
        s >= 0 ==> 0 <= floor_div(t * s, d) <= s,
        s <= 0 ==> s <= floor_div(t * s, d) <= 0,
{
    let tt = if d > 0 {
        t
    } else {
        -t
    };
    let dd = if d > 0 {
        d
    } else {
        -d
    };
    assert(floor_div(t * s, d) == (tt * s) / dd) by (nonlinear_arith)
        requires
            dd == if d > 0 {
                d
            } else {
                -d
            },
            tt == if d > 0 {
                t
            } else {
                -t
            },
            d != 0,
            floor_div(t * s, d) == if d > 0 {
                (t * s) / d
            } else {
                (-(t * s)) / (-d)
            },
    ;
    let q = (tt * s) / dd;
    vstd::arithmetic::div_mod::lemma_fundamental_div_mod(tt * s, dd);
    vstd::arithmetic::div_mod::lemma_mod_bound(tt * s, dd);
    if s >= 0 {
        assert(0 <= tt * s <= dd * s) by (nonlinear_arith)
            requires
                0 <= tt <= dd,
                s >= 0,
        ;
        assert(0 <= q <= s) by (nonlinear_arith)
            requires
                0 <= tt * s <= dd * s,
                tt * s == dd * q + (tt * s) % dd,
                0 <= (tt * s) % dd < dd,
                dd > 0,
        ;
    } else {
        assert(dd * s <= tt * s <= 0) by (nonlinear_arith)
            requires
                0 <= tt <= dd,
                s <= 0,
        ;
        assert(s <= q <= 0) by (nonlinear_arith)
            requires
                dd * s <= tt * s <= 0,
                tt * s == dd * q + (tt * s) % dd,
                0 <= (tt * s) % dd < dd,
                dd > 0,
        ;
    }
}

/// Where two segments with wide end points cross, by Cramer's rule.
pub fn wide_intersection(p1: Wide, p2: Wide, p3: Wide, p4: Wide) -> (r: Option<Wide>)
    requires
        in_reach(p1),
        in_reach(p2),
        in_reach(p3),
        in_reach(p4),
    ensures
        r is Some == segments_cross(p1, p2, p3, p4),
        r is Some ==> (r->0.x as int, r->0.y as int) == crossing_point(p1, p2, p3, p4),
        r is Some ==> (p1.x <= r->0.x <= p2.x || p2.x <= r->0.x <= p1.x),
        r is Some ==> (p1.y <= r->0.y <= p2.y || p2.y <= r->0.y <= p1.y),
{
    let s1x: i64 = p2.x - p1.x;
    let s1y: i64 = p2.y - p1.y;
    let s2x: i64 = p4.x - p3.x;
    let s2y: i64 = p4.y - p3.y;
    let ex: i64 = p1.x - p3.x;
    let ey: i64 = p1.y - p3.y;
    proof {
        lemma_product_bound(s1x as int, s2y as int, 0x200_0000_0000, 0x200_0000_0000);
        lemma_product_bound(s2x as int, s1y as int, 0x200_0000_0000, 0x200_0000_0000);
        lemma_product_bound(s1x as int, ey as int, 0x200_0000_0000, 0x200_0000_0000);
        lemma_product_bound(ex as int, s1y as int, 0x200_0000_0000, 0x200_0000_0000);
        lemma_product_bound(s2x as int, ey as int, 0x200_0000_0000, 0x200_0000_0000);
        lemma_product_bound(ex as int, s2y as int, 0x200_0000_0000, 0x200_0000_0000);
    }
    let denom: i128 = prod(s1x, s2y) - prod(s2x, s1y);
    if denom < PARALLEL_LIMIT && denom > -PARALLEL_LIMIT {
        return None;
    }
    let s: i128 = prod(s1x, ey) - prod(ex, s1y);
    let t: i128 = prod(s2x, ey) - prod(ex, s2y);
    let s_in = if denom > 0 {
        0 <= s && s <= denom
    } else {
        denom <= s && s <= 0
    };
    let t_in = if denom > 0 {
        0 <= t && t <= denom
    } else {
        denom <= t && t <= 0
    };
    if !(s_in && t_in) {
        return None;
    }
    proof {
        lemma_product_bound(
            t as int,
            s1x as int,
            0x8_0000_0000_0000_0000_0000,
            0x200_0000_0000,
        );
        lemma_product_bound(
            t as int,
            s1y as int,
            0x8_0000_0000_0000_0000_0000,
            0x200_0000_0000,
        );
        lemma_fraction_of(t as int, denom as int, s1x as int);
        lemma_fraction_of(t as int, denom as int, s1y as int);
    }
    let qx: i128 = div_signed(t * (s1x as i128), denom);
    let qy: i128 = div_signed(t * (s1y as i128), denom);
    Some(Wide { x: (p1.x as i128 + qx) as i64, y: (p1.y as i128 + qy) as i64 })
}

/// Where the segments `p1 p2` and `p3 p4` cross: nothing where they are
/// parallel or the crossing lies outside either segment.
pub fn line_segment_intersection(p1: Point, p2: Point, p3: Point, p4: Point) -> (r: Option<Point>)
    ensures
        r is Some == segments_cross(p1.widened(), p2.widened(), p3.widened(), p4.widened()),
        r is Some ==> (r->0.x as int, r->0.y as int) == crossing_point(
            p1.widened(),
            p2.widened(),
            p3.widened(),
            p4.widened(),
        ),
{
    match wide_intersection(p1.wide(), p2.wide(), p3.wide(), p4.wide()) {
        Some(w) => Some(Point { x: w.x as i32, y: w.y as i32 }),
        None => None,
    }
}


/// Twice the determinant of the triangle `a b c`: zero where the three
/// points are collinear.
pub open spec fn circum_det(a: Point, b: Point, c: Point) -> int {
    2 * (a.x * (b.y - c.y) + b.x * (c.y - a.y) + c.x * (a.y - b.y))
}

/// The squared distance of `p` from the origin.
pub open spec fn norm_sq(p: Point) -> int {
    p.x * p.x + p.y * p.y
}

/// The numerator of the first coordinate of the circumcentre.
pub open spec fn circum_num_x(a: Point, b: Point, c: Point) -> int {
    norm_sq(a) * (b.y - c.y) + norm_sq(b) * (c.y - a.y) + norm_sq(c) * (a.y - b.y)
}

/// The numerator of the second coordinate of the circumcentre.
pub open spec fn circum_num_y(a: Point, b: Point, c: Point) -> int {
    norm_sq(a) * (c.x - b.x) + norm_sq(b) * (a.x - c.x) + norm_sq(c) * (b.x - a.x)
}

/// The centroid of the triangle `a b c`, rounded down.
pub open spec fn triangle_centroid(a: Point, b: Point, c: Point) -> Point {
    Point { x: ((a.x + b.x + c.x) / 3) as i32, y: ((a.y + b.y + c.y) / 3) as i32 }
}

/// The point `(ux, uy)` lies further than `bound` from `g`.
pub open spec fn beyond(ux: int, uy: int, g: Point, bound: int) -> bool {
    bound < 0 || (ux - g.x) * (ux - g.x) + (uy - g.y) * (uy - g.y) > bound * bound
}

/// The circumcentre of the triangle `a b c`, rounded down. The centroid
/// of the triangle takes its place where the triangle is degenerate or
/// the circumcentre lies further than `bound` from that centroid.
pub open spec fn circumcenter(a: Point, b: Point, c: Point, bound: int) -> Point {
    let d = circum_det(a, b, c);
    let g = triangle_centroid(a, b, c);
    if d == 0 {
        g
    } else {
        let ux = floor_div(circum_num_x(a, b, c), d);
        let uy = floor_div(circum_num_y(a, b, c), d);
        if beyond(ux, uy, g, bound) {
            g
        } else {
            Point { x: on_grid(ux), y: on_grid(uy) }
        }
    }
}

/// The square of `d * c - n`.
proof fn lemma_scaled_square(d: int, c: int, n: int)
    ensures
        (d * c - n) * (d * c - n) == d * d * (c * c) - 2 * d * (c * n) + n * n,
{
    assert((d * c - n) * (d * c - n) == d * d * (c * c) - 2 * d * (c * n) + n * n)
        by (nonlinear_arith);
}

/// The exact circumcentre lies on the bisector of two corners: the
/// corners are `p` and `q`, with the squares `sp` and `sq` of their
/// distances from the origin, and `e` is twice what the side from `p` to
/// `q` and the centre `(nx, ny) / d` enclose.
proof fn lemma_on_bisector(p: Point, q: Point, sp: int, sq: int, d: int, nx: int, ny: int)
    requires
        sp == norm_sq(p),
        sq == norm_sq(q),
        2 * ((q.x - p.x) * nx + (q.y - p.y) * ny) == d * (sq - sp),
    ensures
        (d * p.x - nx) * (d * p.x - nx) + (d * p.y - ny) * (d * p.y - ny) == (d * q.x - nx) * (d
            * q.x - nx) + (d * q.y - ny) * (d * q.y - ny),
{
    let px = p.x as int;
    let py = p.y as int;
    let qx = q.x as int;
    let qy = q.y as int;
    lemma_scaled_square(d, px, nx);
    lemma_scaled_square(d, py, ny);
    lemma_scaled_square(d, qx, nx);
    lemma_scaled_square(d, qy, ny);
    let left = (d * px - nx) * (d * px - nx) + (d * py - ny) * (d * py - ny);
    let right = (d * qx - nx) * (d * qx - nx) + (d * qy - ny) * (d * qy - ny);
    assert(d * d * (px * px) + d * d * (py * py) == d * d * sp) by (nonlinear_arith)
        requires
            sp == px * px + py * py,
    ;
    assert(d * d * (qx * qx) + d * d * (qy * qy) == d * d * sq) by (nonlinear_arith)
        requires
            sq == qx * qx + qy * qy,
    ;
    let s = (qx - px) * nx + (qy - py) * ny;
    assert(2 * d * (qx * nx) + 2 * d * (qy * ny) - 2 * d * (px * nx) - 2 * d * (py * ny) == d
        * (2 * s)) by (nonlinear_arith)
        requires
            s == (qx - px) * nx + (qy - py) * ny,
    ;
    assert(d * (2 * s) == d * d * sq - d * d * sp) by (nonlinear_arith)
        requires
            2 * s == d * (sq - sp),
    ;
    assert(left == right);
}

/// The weighted sums of two triples that each add up to zero, taken
/// along the last of each, leave the difference of two weights.
proof fn lemma_weighted_sums(
    sa: int,
    sb: int,
    sc: int,
    u1: int,
    u2: int,
    u3: int,
    v1: int,
    v2: int,
    v3: int,
)
    requires
        u1 + u2 + u3 == 0,
        v1 + v2 + v3 == 0,
    ensures
        v3 * (sa * u1 + sb * u2 + sc * u3) - u3 * (sa * v1 + sb * v2 + sc * v3) == (v3 * u2 - u3
            * v2) * (sb - sa),
{
    let p = v3 * u2 - u3 * v2;
    assert(v3 * u1 - u3 * v1 == -p) by (nonlinear_arith)
        requires
            u1 == -u2 - u3,
            v1 == -v2 - v3,
            p == v3 * u2 - u3 * v2,
    ;
    assert(v3 * u3 - u3 * v3 == 0) by (nonlinear_arith);
    lemma_spread(v3, sa, u1, sb, u2, sc, u3);
    lemma_spread(u3, sa, v1, sb, v2, sc, v3);
    vstd::arithmetic::mul::lemma_mul_is_distributive_sub(sa, v3 * u1, u3 * v1);
    vstd::arithmetic::mul::lemma_mul_is_distributive_sub(sb, v3 * u2, u3 * v2);
    vstd::arithmetic::mul::lemma_mul_is_distributive_sub(sc, v3 * u3, u3 * v3);
    vstd::arithmetic::mul::lemma_mul_is_distributive_sub(p, sb, sa);
    vstd::arithmetic::mul::lemma_mul_is_commutative(p, sb);
    vstd::arithmetic::mul::lemma_mul_is_commutative(p, sa);
    assert(sa * (-p) == -(sa * p)) by (nonlinear_arith);
    assert(sc * 0 == 0);
}

/// A factor spread over a sum of three products.
proof fn lemma_spread(k: int, a: int, x: int, b: int, y: int, c: int, z: int)
    ensures
        k * (a * x + b * y + c * z) == a * (k * x) + b * (k * y) + c * (k * z),
{
    vstd::arithmetic::mul::lemma_mul_is_distributive_add(k, a * x + b * y, c * z);
    vstd::arithmetic::mul::lemma_mul_is_distributive_add(k, a * x, b * y);
    lemma_exchange(k, a, x);
    lemma_exchange(k, b, y);
    lemma_exchange(k, c, z);
}

/// The two outer factors of a product of three change places.
proof fn lemma_exchange(k: int, a: int, x: int)
    ensures
        k * (a * x) == a * (k * x),
{
    vstd::arithmetic::mul::lemma_mul_is_associative(k, a, x);
    vstd::arithmetic::mul::lemma_mul_is_commutative(k, a);
    vstd::arithmetic::mul::lemma_mul_is_associative(a, k, x);
}

/// Where the triangle is not degenerate, the exact circumcentre, before
/// rounding, has the same distance from all three corners. The centre is
/// `(circum_num_x, circum_num_y) / circum_det`; the statement is scaled by
/// the determinant to stay within the integers.
pub proof fn lemma_circumcenter_equidistant(a: Point, b: Point, c: Point)
    ensures
        ({
            let d = circum_det(a, b, c);
            let nx = circum_num_x(a, b, c);
            let ny = circum_num_y(a, b, c);
            let ra = (d * a.x - nx) * (d * a.x - nx) + (d * a.y - ny) * (d * a.y - ny);
            let rb = (d * b.x - nx) * (d * b.x - nx) + (d * b.y - ny) * (d * b.y - ny);
            let rc = (d * c.x - nx) * (d * c.x - nx) + (d * c.y - ny) * (d * c.y - ny);
            ra == rb && rb == rc
        }),
{
    let ax = a.x as int;
    let ay = a.y as int;
    let bx = b.x as int;
    let by = b.y as int;
    let cx = c.x as int;
    let cy = c.y as int;
    let sa = norm_sq(a);
    let sb = norm_sq(b);
    let sc = norm_sq(c);
    let d = circum_det(a, b, c);
    let nx = circum_num_x(a, b, c);
    let ny = circum_num_y(a, b, c);
    let det = ax * (by - cy) + bx * (cy - ay) + cx * (ay - by);
    let u1 = by - cy;
    let u2 = cy - ay;
    let u3 = ay - by;
    let v1 = cx - bx;
    let v2 = ax - cx;
    let v3 = bx - ax;
    lemma_weighted_sums(sa, sb, sc, u1, u2, u3, v1, v2, v3);
    lemma_weighted_sums(sb, sc, sa, u2, u3, u1, v2, v3, v1);
    assert(v3 * u2 - u3 * v2 == det) by (nonlinear_arith)
        requires
            u2 == cy - ay,
            u3 == ay - by,
            v2 == ax - cx,
            v3 == bx - ax,
            det == ax * (by - cy) + bx * (cy - ay) + cx * (ay - by),
    ;
    assert(v1 * u3 - u1 * v3 == det) by (nonlinear_arith)
        requires
            u1 == by - cy,
            u3 == ay - by,
            v1 == cx - bx,
            v3 == bx - ax,
            det == ax * (by - cy) + bx * (cy - ay) + cx * (ay - by),
    ;
    assert((bx - ax) * nx + (by - ay) * ny == v3 * nx - u3 * ny) by (nonlinear_arith)
        requires
            v3 == bx - ax,
            u3 == ay - by,
    ;
    assert((cx - bx) * nx + (cy - by) * ny == v1 * nx - u1 * ny) by (nonlinear_arith)
        requires
            v1 == cx - bx,
            u1 == by - cy,
    ;
    assert(nx == sb * u2 + sc * u3 + sa * u1);
    assert(ny == sb * v2 + sc * v3 + sa * v1);
    assert(d * (sb - sa) == 2 * (det * (sb - sa))) by (nonlinear_arith)
        requires
            d == 2 * det,
    ;
    assert(d * (sc - sb) == 2 * (det * (sc - sb))) by (nonlinear_arith)
        requires
            d == 2 * det,
    ;
    lemma_on_bisector(a, b, sa, sb, d, nx, ny);
    lemma_on_bisector(b, c, sb, sc, d, nx, ny);
}

/// The circumcentre of a triangle, with the centroid in its place where
/// the triangle is degenerate or the circumcentre lies further than
/// `bound` from the centroid.
pub fn circumcenter_within(a: Point, b: Point, c: Point, bound: i32) -> (u: Point)
    ensures
        u == circumcenter(a, b, c, bound as int),
{
    let ax = a.x as i64;
    let ay = a.y as i64;
    let bx = b.x as i64;
    let by = b.y as i64;
    let cx = c.x as i64;
    let cy = c.y as i64;
    let gx: i64 = div_floor((ax + bx + cx) as i128, 3) as i64;
    let gy: i64 = div_floor((ay + by + cy) as i128, 3) as i64;
    let g = Point { x: gx as i32, y: gy as i32 };
    proof {
        lemma_product_bound(ax as int, by - cy, 0x8000_0000, 0x1_0000_0000);
        lemma_product_bound(bx as int, cy - ay, 0x8000_0000, 0x1_0000_0000);
        lemma_product_bound(cx as int, ay - by, 0x8000_0000, 0x1_0000_0000);
    }
    let d: i128 = 2 * (prod(ax, by - cy) + prod(bx, cy - ay) + prod(cx, ay - by));
    if d == 0 {
        return g;
    }
    proof {
        lemma_product_bound(ax as int, ax as int, 0x8000_0000, 0x8000_0000);
        lemma_product_bound(ay as int, ay as int, 0x8000_0000, 0x8000_0000);
        lemma_product_bound(bx as int, bx as int, 0x8000_0000, 0x8000_0000);
        lemma_product_bound(by as int, by as int, 0x8000_0000, 0x8000_0000);
        lemma_product_bound(cx as int, cx as int, 0x8000_0000, 0x8000_0000);
        lemma_product_bound(cy as int, cy as int, 0x8000_0000, 0x8000_0000);
    }
    let na: i128 = prod(ax, ax) + prod(ay, ay);
    let nb: i128 = prod(bx, bx) + prod(by, by);
    let nc: i128 = prod(cx, cx) + prod(cy, cy);
    proof {
        lemma_product_bound(na as int, by - cy, 0x8000_0000_0000_0000, 0x1_0000_0000);
        lemma_product_bound(nb as int, cy - ay, 0x8000_0000_0000_0000, 0x1_0000_0000);
        lemma_product_bound(nc as int, ay - by, 0x8000_0000_0000_0000, 0x1_0000_0000);
        lemma_product_bound(na as int, cx - bx, 0x8000_0000_0000_0000, 0x1_0000_0000);
        lemma_product_bound(nb as int, ax - cx, 0x8000_0000_0000_0000, 0x1_0000_0000);
        lemma_product_bound(nc as int, bx - ax, 0x8000_0000_0000_0000, 0x1_0000_0000);
    }
    let nx: i128 = na * ((by - cy) as i128) + nb * ((cy - ay) as i128) + nc * ((ay - by) as i128);
    let ny: i128 = na * ((cx - bx) as i128) + nb * ((ax - cx) as i128) + nc * ((bx - ax) as i128);
    let ux: i128 = div_signed(nx, d);
    let uy: i128 = div_signed(ny, d);
    if bound < 0 {
        return g;
    }
    let lim = bound as i128;
    let wx: i128 = ux - gx as i128;
    let wy: i128 = uy - gy as i128;
    if wx > lim || wx < -lim || wy > lim || wy < -lim {
        proof {
            assert(wx * wx >= 0 && wy * wy >= 0) by (nonlinear_arith);
            if wx > lim || wx < -lim {
                assert(wx * wx > lim * lim) by (nonlinear_arith)
                    requires
                        lim >= 0,
                        wx > lim || wx < -lim,
                ;
            } else {
                assert(wy * wy > lim * lim) by (nonlinear_arith)
                    requires
                        lim >= 0,
                        wy > lim || wy < -lim,
                ;
            }
        }
        return g;
    }
    let ex: i64 = wx as i64;
    let ey: i64 = wy as i64;
    proof {
        lemma_product_bound(ex as int, ex as int, 0x8000_0000, 0x8000_0000);
        lemma_product_bound(ey as int, ey as int, 0x8000_0000, 0x8000_0000);
    }
    if prod(ex, ex) + prod(ey, ey) > prod(bound as i64, bound as i64) {
        return g;
    }
    Point { x: clamp_i32(ux), y: clamp_i32(uy) }
}

/// The circumcentre of a triangle with the default bound of five canvas
/// widths.
pub fn calculate_circumcenter(p1: Point, p2: Point, p3: Point) -> (u: Point)
    ensures
        u == circumcenter(p1, p2, p3, crate::config::CIRCUMCENTER_BOUND as int),
{
    circumcenter_within(p1, p2, p3, crate::config::CIRCUMCENTER_BOUND)
}

/// The vertex that precedes vertex `i` on the ring.
pub open spec fn prev_index(n: int, i: int) -> int {
    if i == 0 {
        n - 1
    } else {
        i - 1
    }
}

/// A ray from `p` towards greater first coordinates crosses the edge from
/// `a` to `b`.
pub open spec fn ray_crosses(p: Point, a: Point, b: Point) -> bool {
    let d = b.y - a.y;
    &&& (a.y > p.y) != (b.y > p.y)
    &&& if d > 0 {
        (p.x - a.x) * d < (b.x - a.x) * (p.y - a.y)
    } else {
        (p.x - a.x) * d > (b.x - a.x) * (p.y - a.y)
    }
}

/// The ray from `p` crosses an odd number of the first `k` edges.
pub open spec fn odd_crossings(p: Point, poly: Seq<Point>, k: int) -> bool
    decreases k,
{
    if k <= 0 {
        false
    } else {
        odd_crossings(p, poly, k - 1) != ray_crosses(
            p,
            poly[k - 1],
            poly[prev_index(poly.len() as int, k - 1)],
        )
    }
}

/// `p` lies inside `poly` by the crossing-number rule.
pub open spec fn inside(p: Point, poly: Seq<Point>) -> bool {
    poly.len() >= 3 && odd_crossings(p, poly, poly.len() as int)
}

/// Whether a point lies inside a polygon, by casting a ray and counting
/// the edges it crosses. False for fewer than three vertices.
pub fn point_in_polygon(point: &Point, polygon: &Vec<Point>) -> (r: bool)
    ensures
        r == inside(*point, polygon@),
{
    let n = polygon.len();
    if n < 3 {
        return false;
    }
    let mut odd = false;
    let mut j: usize = n - 1;
    let mut i: usize = 0;
    while i < n
        invariant
            n == polygon.len(),
            n >= 3,
            i <= n,
            j == prev_index(n as int, i as int) || i == n,
            j < n,
            odd == odd_crossings(*point, polygon@, i as int),
        decreases n - i,
    {
        let a = polygon[i];
        let b = polygon[j];
        if (a.y > point.y) != (b.y > point.y) {
            let d: i64 = b.y as i64 - a.y as i64;
            let lhs: i128 = prod(point.x as i64 - a.x as i64, d);
            let rhs: i128 = prod(b.x as i64 - a.x as i64, point.y as i64 - a.y as i64);
            let hit = if d > 0 {
                lhs < rhs
            } else {
                lhs > rhs
            };
            if hit {
                odd = !odd;
            }
        }
        j = i;
        i = i + 1;
    }
    odd
}

} // verus!
