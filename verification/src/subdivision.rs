//! Recursive subdivision of a cell into building plots.
use vstd::prelude::*;
use crate::fixed::clamp_between;
use crate::fixed::clamp_i32;
use crate::fixed::clamped;
use crate::fixed::div_floor;
use crate::fixed::length;
use crate::fixed::magnitude;
use crate::fixed::lemma_product_bound;
use crate::fixed::prod;
use crate::fixed::sqrt_floor;
use crate::fixed::unit_part;
use crate::fixed::unit_vector;
use crate::fixed::vector_length;
use crate::fixed::ONE;
use crate::fixed::UNIT;
use crate::geometry::centroid_of;
use crate::geometry::in_reach;
use crate::geometry::lemma_area_bound;
use crate::geometry::lemma_fraction_of;
use crate::geometry::next_index;
use crate::geometry::on_grid;
use crate::geometry::polygon_area;
use crate::geometry::polygon_centroid;
use crate::geometry::twice_area;
use crate::geometry::Point;
use crate::geometry::Wide;
use crate::rng::advanced;
use crate::rng::draw_unit;
use crate::rng::lemma_advanced_twice;
use crate::rng::unit_of;
use crate::rng::upcoming;
use crate::trig::exp2;
use crate::trig::exp2_of;
use crate::trig::two_to;
use crate::config::ROAD_WIDTH;
use crate::point_gen::ring_of;
use crate::point_gen::SHORT_STRETCH;
use crate::skeleton::cell_polygon;
use crate::skeleton::in_bounds;
use crate::voronoi::dist_sq;
use rand::rngs::StdRng;

verus! {

/// A copy of the polygon.
pub fn copy_of(polygon: &Vec<Point>) -> (r: Vec<Point>)
    ensures
        r@ == polygon@,
{
    let mut r: Vec<Point> = Vec::new();
    let mut i: usize = 0;
    while i < polygon.len()
        invariant
            i <= polygon.len(),
            r@ == polygon@.subrange(0, i as int),
        decreases polygon.len() - i,
    {
        r.push(polygon[i]);
        proof {
            assert(r@ =~= polygon@.subrange(0, i + 1));
        }
        i = i + 1;
    }
    proof {
        assert(r@ =~= polygon@);
    }
    r
}

/// The squared length of the edge that starts at vertex `i`.
pub open spec fn edge_length_sq(poly: Seq<Point>, i: int) -> int {
    let p = poly[i];
    let q = poly[next_index(poly.len() as int, i)];
    (q.x - p.x) * (q.x - p.x) + (q.y - p.y) * (q.y - p.y)
}

/// Vertex `i` starts the first of the longest edges of the ring.
pub open spec fn is_longest_edge(poly: Seq<Point>, i: int) -> bool {
    &&& 0 <= i < poly.len()
    &&& forall|j: int| 0 <= j < poly.len() ==> edge_length_sq(poly, j) <= edge_length_sq(poly, i)
    &&& forall|j: int| 0 <= j < i ==> edge_length_sq(poly, j) < edge_length_sq(poly, i)
}

/// The start of the first of the longest among the first `k` edges.
pub open spec fn longest_among(poly: Seq<Point>, k: int) -> int
    decreases k,
{
    if k <= 1 {
        0
    } else {
        let best = longest_among(poly, k - 1);
        if edge_length_sq(poly, k - 1) > edge_length_sq(poly, best) {
            k - 1
        } else {
            best
        }
    }
}

/// The start of the first of the longest edges of the ring.
pub open spec fn longest_edge(poly: Seq<Point>) -> int {
    longest_among(poly, poly.len() as int)
}

/// The vertex that starts the longest edge of the polygon, with its
/// index and the length of the edge, rounded down. Of several longest
/// edges the first is taken. Nothing for fewer than two vertices.
pub fn vlongest_edge(polygon: &Vec<Point>) -> (r: Option<(usize, Point, i64)>)
    ensures
        r is Some == (polygon.len() >= 2),
        r is Some ==> {
            let (i, v, l) = r->0;
            &&& is_longest_edge(polygon@, i as int)
            &&& i == longest_edge(polygon@)
            &&& v == polygon@[i as int]
            &&& l == sqrt_floor(edge_length_sq(polygon@, i as int))
        },
{
    let n = polygon.len();
    if n < 2 {
        return None;
    }
    let mut best: usize = 0;
    let mut best_sq: i128 = 0;
    let mut i: usize = 0;
    while i < n
        invariant
            n == polygon.len(),
            n >= 2,
            i <= n,
            i == 0 ==> best == 0 && best_sq == 0,
            i > 0 ==> best < i && best_sq == edge_length_sq(polygon@, best as int),
            i > 0 ==> best == longest_among(polygon@, i as int),
            forall|j: int| 0 <= j < i ==> edge_length_sq(polygon@, j) <= best_sq,
            forall|j: int| 0 <= j < best ==> edge_length_sq(polygon@, j) < best_sq,
            0 <= best_sq,
        decreases n - i,
    {
        let j: usize = if i + 1 == n {
            0
        } else {
            i + 1
        };
        let dx: i64 = polygon[j].x as i64 - polygon[i].x as i64;
        let dy: i64 = polygon[j].y as i64 - polygon[i].y as i64;
        proof {
            lemma_product_bound(dx as int, dx as int, 0x1_0000_0000, 0x1_0000_0000);
            lemma_product_bound(dy as int, dy as int, 0x1_0000_0000, 0x1_0000_0000);
            assert(dx * dx >= 0) by (nonlinear_arith);
            assert(dy * dy >= 0) by (nonlinear_arith);
        }
        let sq: i128 = prod(dx, dx) + prod(dy, dy);
        assert(sq == edge_length_sq(polygon@, i as int));
        if i == 0 || sq > best_sq {
            best = i;
            best_sq = sq;
        }
        i = i + 1;
    }
    let k: usize = if best + 1 == n {
        0
    } else {
        best + 1
    };
    let dx: i64 = polygon[k].x as i64 - polygon[best].x as i64;
    let dy: i64 = polygon[k].y as i64 - polygon[best].y as i64;
    Some((best, polygon[best], vector_length(dx, dy)))
}

/// The dot product of two vectors.
pub open spec fn dot(ax: int, ay: int, bx: int, by: int) -> int {
    ax * bx + ay * by
}

/// The point of the segment `a b` that lies closest to `v`, rounded down.
/// The segment must have a length.
pub open spec fn foot(v: Point, a: Wide, b: Wide) -> (int, int) {
    let lx = b.x - a.x;
    let ly = b.y - a.y;
    let len2 = dot(lx, ly, lx, ly);
    let t = clamped(dot(v.x - a.x, v.y - a.y, lx, ly), 0, len2);
    (a.x + (t * lx) / len2, a.y + (t * ly) / len2)
}

/// The distance of `v` from the segment `a b`, rounded down.
pub open spec fn segment_distance(v: Point, a: Wide, b: Wide) -> int {
    let lx = b.x - a.x;
    let ly = b.y - a.y;
    if dot(lx, ly, lx, ly) == 0 {
        length(v.x - a.x, v.y - a.y)
    } else {
        let f = foot(v, a, b);
        length(v.x - f.0, v.y - f.1)
    }
}

/// The distance of a point from a segment, rounded down.
pub fn point_to_line_distance(point: Point, line_start: Wide, line_end: Wide) -> (d: i64)
    requires
        in_reach(line_start),
        in_reach(line_end),
    ensures
        d == segment_distance(point, line_start, line_end),
        d >= 0,
{
    let lx: i64 = line_end.x - line_start.x;
    let ly: i64 = line_end.y - line_start.y;
    let px: i64 = point.x as i64 - line_start.x;
    let py: i64 = point.y as i64 - line_start.y;
    proof {
        lemma_product_bound(lx as int, lx as int, 0x200_0000_0000, 0x200_0000_0000);
        lemma_product_bound(ly as int, ly as int, 0x200_0000_0000, 0x200_0000_0000);
        lemma_product_bound(px as int, lx as int, 0x200_0000_0000, 0x200_0000_0000);
        lemma_product_bound(py as int, ly as int, 0x200_0000_0000, 0x200_0000_0000);
        assert(lx * lx >= 0) by (nonlinear_arith);
        assert(ly * ly >= 0) by (nonlinear_arith);
    }
    let len2: i128 = prod(lx, lx) + prod(ly, ly);
    if len2 == 0 {
        return vector_length(px, py);
    }
    let d: i128 = prod(px, lx) + prod(py, ly);
    let t: i128 = if d < 0 {
        0
    } else if d > len2 {
        len2
    } else {
        d
    };
    proof {
        lemma_product_bound(t as int, lx as int, 0x8_0000_0000_0000_0000_0000, 0x200_0000_0000);
        lemma_product_bound(t as int, ly as int, 0x8_0000_0000_0000_0000_0000, 0x200_0000_0000);
        lemma_fraction_of(t as int, len2 as int, lx as int);
        lemma_fraction_of(t as int, len2 as int, ly as int);
    }
    let fx: i64 = (line_start.x as i128 + div_floor(t * (lx as i128), len2)) as i64;
    let fy: i64 = (line_start.y as i128 + div_floor(t * (ly as i128), len2)) as i64;
    vector_length(point.x as i64 - fx, point.y as i64 - fy)
}

/// `v` projects onto the segment `a b`, or no further beyond either end
/// than a tenth of its length.
pub open spec fn projects_onto(v: Point, a: Wide, b: Wide) -> bool {
    let lx = b.x - a.x;
    let ly = b.y - a.y;
    let len2 = dot(lx, ly, lx, ly);
    let d = dot(v.x - a.x, v.y - a.y, lx, ly);
    len2 > 0 && -len2 <= 10 * d <= 11 * len2
}

/// The unit normal of the line `a b` that points to the side on which the
/// centroid of `poly` lies.
pub open spec fn away_direction(poly: Seq<Point>, a: Wide, b: Wide) -> (int, int) {
    let nx = -unit_part(b.y - a.y, b.x - a.x, b.y - a.y);
    let ny = unit_part(b.x - a.x, b.x - a.x, b.y - a.y);
    let c = centroid_of(poly, twice_area(poly));
    if dot(c.x - a.x, c.y - a.y, nx, ny) > 0 {
        (nx, ny)
    } else {
        (-nx, -ny)
    }
}

/// Where `v` stands after the push: moved by `distance` along `dir` where
/// it lies closer than twice the distance to the segment `a b` and
/// projects onto it.
pub open spec fn moved_vertex(v: Point, a: Wide, b: Wide, dir: (int, int), distance: int) -> Point {
    if segment_distance(v, a, b) < 2 * distance && projects_onto(v, a, b) {
        Point {
            x: on_grid(v.x + (dir.0 * distance) / (UNIT as int)),
            y: on_grid(v.y + (dir.1 * distance) / (UNIT as int)),
        }
    } else {
        v
    }
}

/// The polygon with every vertex near the line moved away from it.
pub open spec fn shrunk(poly: Seq<Point>, a: Wide, b: Wide, distance: int) -> Seq<Point> {
    let dir = away_direction(poly, a, b);
    Seq::new(poly.len(), |i: int| moved_vertex(poly[i], a, b, dir, distance))
}

/// The polygon pushed away from the line `a b` by `distance`; the polygon
/// itself where it has fewer than three vertices or the push would leave
/// less than a fifth of its area, whichever way the ring winds.
pub open spec fn pushed_from_line(poly: Seq<Point>, a: Wide, b: Wide, distance: int) -> Seq<
    Point,
> {
    if poly.len() < 3 {
        poly
    } else {
        let s = shrunk(poly, a, b, distance);
        if 5 * magnitude(twice_area(s)) < magnitude(twice_area(poly)) {
            poly
        } else {
            s
        }
    }
}

fn projects(v: Point, a: Wide, b: Wide) -> (r: bool)
    requires
        in_reach(a),
        in_reach(b),
    ensures
        r == projects_onto(v, a, b),
{
    let lx: i64 = b.x - a.x;
    let ly: i64 = b.y - a.y;
    let px: i64 = v.x as i64 - a.x;
    let py: i64 = v.y as i64 - a.y;
    proof {
        lemma_product_bound(lx as int, lx as int, 0x200_0000_0000, 0x200_0000_0000);
        lemma_product_bound(ly as int, ly as int, 0x200_0000_0000, 0x200_0000_0000);
        lemma_product_bound(px as int, lx as int, 0x200_0000_0000, 0x200_0000_0000);
        lemma_product_bound(py as int, ly as int, 0x200_0000_0000, 0x200_0000_0000);
    }
    let len2: i128 = prod(lx, lx) + prod(ly, ly);
    let d: i128 = prod(px, lx) + prod(py, ly);
    len2 > 0 && -len2 <= 10 * d && 10 * d <= 11 * len2
}

/// Shrinks a polygon away from a line with wide end points.
pub fn push_from_wide_line(polygon: &Vec<Point>, a: Wide, b: Wide, distance: i32) -> (r: Vec<
    Point,
>)
    requires
        in_reach(a),
        in_reach(b),
        polygon.len() <= 0xffff_ffff,
    ensures
        r@ == pushed_from_line(polygon@, a, b, distance as int),
        r@.len() == polygon@.len(),
{
    let n = polygon.len();
    if n < 3 {
        return copy_of(polygon);
    }
    let (ux, uy) = unit_vector(b.x - a.x, b.y - a.y);
    let nx: i64 = -uy;
    let ny: i64 = ux;
    let area = polygon_area(polygon);
    proof {
        lemma_area_bound(polygon@);
    }
    let c = polygon_centroid(polygon, area);
    let cx: i64 = c.x as i64 - a.x;
    let cy: i64 = c.y as i64 - a.y;
    proof {
        lemma_product_bound(cx as int, nx as int, 0x200_0000_0000, 0x4000_0000);
        lemma_product_bound(cy as int, ny as int, 0x200_0000_0000, 0x4000_0000);
    }
    let side: i128 = prod(cx, nx) + prod(cy, ny);
    let (dx, dy): (i64, i64) = if side > 0 {
        (nx, ny)
    } else {
        (-nx, -ny)
    };
    assert((dx as int, dy as int) == away_direction(polygon@, a, b));
    proof {
        lemma_product_bound(dx as int, distance as int, 0x4000_0000, 0x8000_0000);
        lemma_product_bound(dy as int, distance as int, 0x4000_0000, 0x8000_0000);
    }
    let mx: i128 = div_floor(prod(dx, distance as i64), UNIT as i128);
    let my: i128 = div_floor(prod(dy, distance as i64), UNIT as i128);
    proof {
        vstd::arithmetic::div_mod::lemma_div_is_ordered(
            -0x2000_0000_0000_0000int,
            dx * distance,
            UNIT as int,
        );
        vstd::arithmetic::div_mod::lemma_div_is_ordered(
            dx * distance,
            0x2000_0000_0000_0000int,
            UNIT as int,
        );
        vstd::arithmetic::div_mod::lemma_div_is_ordered(
            -0x2000_0000_0000_0000int,
            dy * distance,
            UNIT as int,
        );
        vstd::arithmetic::div_mod::lemma_div_is_ordered(
            dy * distance,
            0x2000_0000_0000_0000int,
            UNIT as int,
        );
    }
    let mut out: Vec<Point> = Vec::new();
    let mut i: usize = 0;
    while i < n
        invariant
            n == polygon.len(),
            i <= n,
            in_reach(a),
            in_reach(b),
            out@.len() == i,
            mx == (dx * distance) / (UNIT as int),
            my == (dy * distance) / (UNIT as int),
            -0x1_0000_0000 <= mx <= 0x1_0000_0000,
            -0x1_0000_0000 <= my <= 0x1_0000_0000,
            forall|j: int|
                0 <= j < i ==> out@[j] == moved_vertex(
                    polygon@[j],
                    a,
                    b,
                    (dx as int, dy as int),
                    distance as int,
                ),
        decreases n - i,
    {
        let v = polygon[i];
        let near = point_to_line_distance(v, a, b) < 2 * (distance as i64);
        let moved = if near && projects(v, a, b) {
            Point { x: clamp_i32(v.x as i128 + mx), y: clamp_i32(v.y as i128 + my) }
        } else {
            v
        };
        out.push(moved);
        i = i + 1;
    }
    proof {
        assert(out@ =~= shrunk(polygon@, a, b, distance as int));
        lemma_area_bound(out@);
    }
    let after = polygon_area(&out);
    let kept: i128 = if after < 0 {
        -after
    } else {
        after
    };
    let whole: i128 = if area < 0 {
        -area
    } else {
        area
    };
    if 5 * kept < whole {
        copy_of(polygon)
    } else {
        out
    }
}

/// Shrinks a polygon away from a line: every vertex that lies closer to
/// the segment than twice the distance, and projects onto it, moves by
/// the distance to the side of the polygon's centroid. The polygon comes
/// back unchanged where that would leave less than a fifth of its area.
pub fn push_polygon_from_line(
    polygon: &Vec<Point>,
    line_start: Point,
    line_end: Point,
    distance: i32,
) -> (r: Vec<Point>)
    requires
        polygon.len() <= 0xffff_ffff,
    ensures
        r@ == pushed_from_line(
            polygon@,
            line_start.widened(),
            line_end.widened(),
            distance as int,
        ),
{
    push_from_wide_line(polygon, line_start.wide(), line_end.wide(), distance)
}

/// A piece of a cut polygon is kept where its doubled area exceeds this:
/// a tenth of a square metre.
pub const MIN_PIECE_AREA: i128 = 858_993_459;

/// The rings that the polygons of `v` stand for.
pub open spec fn rings(v: Seq<Vec<Point>>) -> Seq<Seq<Point>> {
    Seq::new(v.len(), |i: int| v[i]@)
}

/// The least first coordinate among the first `k` vertices.
pub open spec fn lo_x(poly: Seq<Point>, k: int) -> int
    decreases k,
{
    if k <= 1 {
        poly[0].x as int
    } else if poly[k - 1].x < lo_x(poly, k - 1) {
        poly[k - 1].x as int
    } else {
        lo_x(poly, k - 1)
    }
}

/// The greatest first coordinate among the first `k` vertices.
pub open spec fn hi_x(poly: Seq<Point>, k: int) -> int
    decreases k,
{
    if k <= 1 {
        poly[0].x as int
    } else if poly[k - 1].x > hi_x(poly, k - 1) {
        poly[k - 1].x as int
    } else {
        hi_x(poly, k - 1)
    }
}

/// The least second coordinate among the first `k` vertices.
pub open spec fn lo_y(poly: Seq<Point>, k: int) -> int
    decreases k,
{
    if k <= 1 {
        poly[0].y as int
    } else if poly[k - 1].y < lo_y(poly, k - 1) {
        poly[k - 1].y as int
    } else {
        lo_y(poly, k - 1)
    }
}

/// The greatest second coordinate among the first `k` vertices.
pub open spec fn hi_y(poly: Seq<Point>, k: int) -> int
    decreases k,
{
    if k <= 1 {
        poly[0].y as int
    } else if poly[k - 1].y > hi_y(poly, k - 1) {
        poly[k - 1].y as int
    } else {
        hi_y(poly, k - 1)
    }
}

/// A length that reaches across the polygon: the diagonal of its bounding
/// box, rounded up.
pub open spec fn extent(poly: Seq<Point>) -> int {
    let n = poly.len() as int;
    length(hi_x(poly, n) - lo_x(poly, n), hi_y(poly, n) - lo_y(poly, n)) + 1
}

/// The point on the edge that starts at vertex `idx`, at the fraction
/// `ratio` of the edge; the ratio is limited to the edge.
pub open spec fn cut_point(poly: Seq<Point>, idx: int, ratio: int) -> (int, int) {
    let p = poly[idx];
    let q = poly[next_index(poly.len() as int, idx)];
    let r = clamped(ratio, 0, ONE as int);
    (p.x + (r * (q.x - p.x)) / (ONE as int), p.y + (r * (q.y - p.y)) / (ONE as int))
}

/// The direction of the cut: the left normal of the edge that starts at
/// vertex `idx`, turned by `angle`, in parts of `UNIT`.
pub open spec fn cut_direction(poly: Seq<Point>, idx: int, angle: int) -> (int, int) {
    let p = poly[idx];
    let q = poly[next_index(poly.len() as int, idx)];
    let ex = q.x - p.x;
    let ey = q.y - p.y;
    let px = unit_part(-ey, -ey, ex);
    let py = unit_part(ex, -ey, ex);
    let cs = crate::trig::cos_sin_of(angle);
    ((px * cs.0 - py * cs.1) / (UNIT as int), (px * cs.1 + py * cs.0) / (UNIT as int))
}

/// The two ends of the cutting line.
pub open spec fn cut_line(poly: Seq<Point>, idx: int, ratio: int, angle: int) -> (Wide, Wide) {
    let c = cut_point(poly, idx, ratio);
    let d = cut_direction(poly, idx, angle);
    let e = extent(poly);
    let ox = (d.0 * e) / (UNIT as int);
    let oy = (d.1 * e) / (UNIT as int);
    (
        Wide { x: (c.0 - ox) as i64, y: (c.1 - oy) as i64 },
        Wide { x: (c.0 + ox) as i64, y: (c.1 + oy) as i64 },
    )
}

/// The crossings of the line `a b` with the first `k` edges of the ring,
/// each with the index of its edge.
pub open spec fn hits(poly: Seq<Point>, a: Wide, b: Wide, k: int) -> Seq<(usize, Point)>
    decreases k,
{
    if k <= 0 {
        Seq::empty()
    } else {
        let before = hits(poly, a, b, k - 1);
        let p = poly[k - 1];
        let q = poly[next_index(poly.len() as int, k - 1)];
        match crate::geometry::intersection(a, b, p.widened(), q.widened()) {
            Some(c) => before.push(((k - 1) as usize, Point { x: on_grid(c.0), y: on_grid(c.1) })),
            None => before,
        }
    }
}

/// The part of the ring between the two crossings.
pub open spec fn first_piece(poly: Seq<Point>, h: Seq<(usize, Point)>) -> Seq<Point> {
    seq![h[0].1] + poly.subrange(h[0].0 + 1, h[1].0 + 1) + seq![h[1].1]
}

/// The part of the ring from the second crossing round to the first.
pub open spec fn second_piece(poly: Seq<Point>, h: Seq<(usize, Point)>) -> Seq<Point> {
    seq![h[1].1] + poly.subrange(h[1].0 + 1, poly.len() as int) + poly.subrange(0, h[0].0 + 1)
        + seq![h[0].1]
}

/// A piece is kept where it has three vertices and more than a tenth of
/// a square metre of area, whichever way it winds.
pub open spec fn keeps(piece: Seq<Point>) -> bool {
    piece.len() >= 3 && magnitude(twice_area(piece)) > MIN_PIECE_AREA
}

/// A kept piece, pushed from the cutting line by half the separation.
pub open spec fn finished(piece: Seq<Point>, a: Wide, b: Wide, separation: int) -> Seq<Point> {
    if separation > 0 {
        pushed_from_line(piece, a, b, separation / 2)
    } else {
        piece
    }
}

/// The pieces into which the cut divides the polygon; the polygon alone
/// where it cannot be cut.
pub open spec fn bisection(
    poly: Seq<Point>,
    idx: int,
    ratio: int,
    angle: int,
    separation: int,
) -> Seq<Seq<Point>> {
    if poly.len() < 3 || idx >= poly.len() {
        seq![poly]
    } else {
        let line = cut_line(poly, idx, ratio, angle);
        let h = hits(poly, line.0, line.1, poly.len() as int);
        if h.len() != 2 {
            seq![poly]
        } else {
            let p1 = first_piece(poly, h);
            let p2 = second_piece(poly, h);
            let r1 = if keeps(p1) {
                seq![finished(p1, line.0, line.1, separation)]
            } else {
                Seq::empty()
            };
            let r2 = if keeps(p2) {
                seq![finished(p2, line.0, line.1, separation)]
            } else {
                Seq::empty()
            };
            if r1.len() + r2.len() == 0 {
                seq![poly]
            } else {
                r1 + r2
            }
        }
    }
}

fn bounding_extent(polygon: &Vec<Point>) -> (e: i64)
    requires
        polygon.len() >= 1,
    ensures
        e == extent(polygon@),
        1 <= e <= 0x2_0000_0001,
{
    let n = polygon.len();
    let mut min_x: i32 = polygon[0].x;
    let mut max_x: i32 = polygon[0].x;
    let mut min_y: i32 = polygon[0].y;
    let mut max_y: i32 = polygon[0].y;
    let mut i: usize = 1;
    while i < n
        invariant
            n == polygon.len(),
            1 <= i <= n,
            min_x == lo_x(polygon@, i as int),
            max_x == hi_x(polygon@, i as int),
            min_y == lo_y(polygon@, i as int),
            max_y == hi_y(polygon@, i as int),
            min_x <= max_x,
            min_y <= max_y,
        decreases n - i,
    {
        let v = polygon[i];
        if v.x < min_x {
            min_x = v.x;
        }
        if v.x > max_x {
            max_x = v.x;
        }
        if v.y < min_y {
            min_y = v.y;
        }
        if v.y > max_y {
            max_y = v.y;
        }
        i = i + 1;
    }
    vector_length(max_x as i64 - min_x as i64, max_y as i64 - min_y as i64) + 1
}

fn cutting_line(polygon: &Vec<Point>, idx: usize, ratio: i32, angle: i32) -> (line: (Wide, Wide))
    requires
        idx < polygon.len(),
    ensures
        line == cut_line(polygon@, idx as int, ratio as int, angle as int),
        in_reach(line.0),
        in_reach(line.1),
{
    let n = polygon.len();
    let j: usize = if idx + 1 == n {
        0
    } else {
        idx + 1
    };
    let p = polygon[idx];
    let q = polygon[j];
    let ex: i64 = q.x as i64 - p.x as i64;
    let ey: i64 = q.y as i64 - p.y as i64;
    let r: i64 = clamp_between(ratio as i128, 0, ONE);
    proof {
        lemma_product_bound(r as int, ex as int, 0x1_0000, 0x1_0000_0000);
        lemma_product_bound(r as int, ey as int, 0x1_0000, 0x1_0000_0000);
        lemma_fraction_of(r as int, ONE as int, ex as int);
        lemma_fraction_of(r as int, ONE as int, ey as int);
    }
    let cx: i64 = p.x as i64 + div_floor(prod(r, ex), ONE as i128) as i64;
    let cy: i64 = p.y as i64 + div_floor(prod(r, ey), ONE as i128) as i64;
    let (px, py) = unit_vector(-ey, ex);
    let (c, s) = crate::trig::cos_sin(angle as i64);
    proof {
        lemma_product_bound(px as int, c as int, 0x4000_0000, 0x4000_0000);
        lemma_product_bound(py as int, s as int, 0x4000_0000, 0x4000_0000);
        lemma_product_bound(px as int, s as int, 0x4000_0000, 0x4000_0000);
        lemma_product_bound(py as int, c as int, 0x4000_0000, 0x4000_0000);
        vstd::arithmetic::div_mod::lemma_div_is_ordered(
            -0x2000_0000_0000_0000int,
            px * c - py * s,
            0x4000_0000,
        );
        vstd::arithmetic::div_mod::lemma_div_is_ordered(
            px * c - py * s,
            0x2000_0000_0000_0000int,
            0x4000_0000,
        );
        vstd::arithmetic::div_mod::lemma_div_is_ordered(
            -0x2000_0000_0000_0000int,
            px * s + py * c,
            0x4000_0000,
        );
        vstd::arithmetic::div_mod::lemma_div_is_ordered(
            px * s + py * c,
            0x2000_0000_0000_0000int,
            0x4000_0000,
        );
    }
    let dx: i64 = div_floor(prod(px, c) - prod(py, s), 0x4000_0000) as i64;
    let dy: i64 = div_floor(prod(px, s) + prod(py, c), 0x4000_0000) as i64;
    let e = bounding_extent(polygon);
    proof {
        lemma_product_bound(dx as int, e as int, 0x8000_0000, 0x2_0000_0001);
        lemma_product_bound(dy as int, e as int, 0x8000_0000, 0x2_0000_0001);
        vstd::arithmetic::div_mod::lemma_div_is_ordered(
            -0x1_0000_0000_8000_0000int,
            dx * e,
            0x4000_0000,
        );
        vstd::arithmetic::div_mod::lemma_div_is_ordered(
            dx * e,
            0x1_0000_0000_8000_0000int,
            0x4000_0000,
        );
        vstd::arithmetic::div_mod::lemma_div_is_ordered(
            -0x1_0000_0000_8000_0000int,
            dy * e,
            0x4000_0000,
        );
        vstd::arithmetic::div_mod::lemma_div_is_ordered(
            dy * e,
            0x1_0000_0000_8000_0000int,
            0x4000_0000,
        );
    }
    let ox: i64 = div_floor(prod(dx, e), 0x4000_0000) as i64;
    let oy: i64 = div_floor(prod(dy, e), 0x4000_0000) as i64;
    (Wide { x: cx - ox, y: cy - oy }, Wide { x: cx + ox, y: cy + oy })
}

/// The crossings of a line with every edge of the polygon, in the order
/// of the edges.
fn crossings(polygon: &Vec<Point>, a: Wide, b: Wide) -> (h: Vec<(usize, Point)>)
    requires
        in_reach(a),
        in_reach(b),
    ensures
        h@ == hits(polygon@, a, b, polygon.len() as int),
        forall|j: int| 0 <= j < h@.len() ==> h@[j].0 < polygon.len(),
        forall|j: int, k: int| 0 <= j < k < h@.len() ==> h@[j].0 < h@[k].0,
{
    let n = polygon.len();
    let mut h: Vec<(usize, Point)> = Vec::new();
    let mut i: usize = 0;
    while i < n
        invariant
            n == polygon.len(),
            i <= n,
            in_reach(a),
            in_reach(b),
            h@ == hits(polygon@, a, b, i as int),
            forall|j: int| 0 <= j < h@.len() ==> h@[j].0 < i,
            forall|j: int, k: int| 0 <= j < k < h@.len() ==> h@[j].0 < h@[k].0,
        decreases n - i,
    {
        let j: usize = if i + 1 == n {
            0
        } else {
            i + 1
        };
        match crate::geometry::wide_intersection(a, b, polygon[i].wide(), polygon[j].wide()) {
            Some(c) => {
                h.push((i, Point { x: clamp_i32(c.x as i128), y: clamp_i32(c.y as i128) }));
            },
            None => {},
        }
        i = i + 1;
    }
    h
}

fn first_part(polygon: &Vec<Point>, h: &Vec<(usize, Point)>) -> (r: Vec<Point>)
    requires
        h@.len() == 2,
        h@[0].0 < h@[1].0 < polygon.len(),
    ensures
        r@ == first_piece(polygon@, h@),
        r@.len() == h@[1].0 - h@[0].0 + 2,
{
    let first = h[0].0;
    let last = h[1].0;
    let mut r: Vec<Point> = Vec::new();
    r.push(h[0].1);
    let mut i: usize = first + 1;
    while i <= last
        invariant
            first + 1 <= i <= last + 1,
            last < polygon.len(),
            r@ == seq![h@[0].1] + polygon@.subrange(first + 1, i as int),
        decreases last + 1 - i,
    {
        r.push(polygon[i]);
        proof {
            assert(r@ =~= seq![h@[0].1] + polygon@.subrange(first + 1, i + 1));
        }
        i = i + 1;
    }
    r.push(h[1].1);
    proof {
        assert(r@ =~= first_piece(polygon@, h@));
    }
    r
}

fn second_part(polygon: &Vec<Point>, h: &Vec<(usize, Point)>) -> (r: Vec<Point>)
    requires
        h@.len() == 2,
        h@[0].0 < h@[1].0 < polygon.len(),
    ensures
        r@ == second_piece(polygon@, h@),
        r@.len() == polygon.len() - (h@[1].0 - h@[0].0) + 2,
{
    let first = h[0].0;
    let last = h[1].0;
    let n = polygon.len();
    let mut r: Vec<Point> = Vec::new();
    r.push(h[1].1);
    let mut i: usize = last + 1;
    while i < n
        invariant
            last + 1 <= i <= n,
            n == polygon.len(),
            r@ == seq![h@[1].1] + polygon@.subrange(last + 1, i as int),
        decreases n - i,
    {
        r.push(polygon[i]);
        proof {
            assert(r@ =~= seq![h@[1].1] + polygon@.subrange(last + 1, i + 1));
        }
        i = i + 1;
    }
    let mut k: usize = 0;
    while k <= first
        invariant
            k <= first + 1,
            first < n,
            n == polygon.len(),
            r@ == seq![h@[1].1] + polygon@.subrange(last + 1, n as int) + polygon@.subrange(
                0,
                k as int,
            ),
        decreases first + 1 - k,
    {
        r.push(polygon[k]);
        proof {
            assert(r@ =~= seq![h@[1].1] + polygon@.subrange(last + 1, n as int)
                + polygon@.subrange(0, k + 1));
        }
        k = k + 1;
    }
    r.push(h[0].1);
    proof {
        assert(r@ =~= second_piece(polygon@, h@));
    }
    r
}

/// The doubled area of a polygon, whichever way it winds.
fn area_of(polygon: &Vec<Point>) -> (area: i128)
    ensures
        area == magnitude(twice_area(polygon@)),
{
    let n = polygon.len();
    let signed = polygon_area(polygon);
    proof {
        lemma_area_bound(polygon@);
        assert(n <= 0xffff_ffff_ffff_ffff);
    }
    if signed < 0 {
        -signed
    } else {
        signed
    }
}

fn has_area(piece: &Vec<Point>) -> (r: bool)
    ensures
        r == (magnitude(twice_area(piece@)) > MIN_PIECE_AREA),
{
    let area = polygon_area(piece);
    area > MIN_PIECE_AREA || area < -MIN_PIECE_AREA
}

fn finish(piece: Vec<Point>, a: Wide, b: Wide, separation: i32) -> (r: Vec<Point>)
    requires
        in_reach(a),
        in_reach(b),
        piece.len() <= 0xffff_ffff,
    ensures
        r@ == finished(piece@, a, b, separation as int),
        r@.len() == piece@.len(),
{
    if separation > 0 {
        push_from_wide_line(&piece, a, b, separation / 2)
    } else {
        piece
    }
}

/// Cuts a polygon in two along a line through the edge that starts at
/// `start_idx`. The line passes through the edge at the fraction `ratio`
/// of its length, at a right angle to it turned by `angle_offset`. Each
/// piece that is large enough is kept, and pushed from the line by half
/// the `separation` where that is positive. The polygon alone comes back
/// where the line does not cross exactly two edges or no piece is kept.
pub fn bisect_poly(
    polygon: &Vec<Point>,
    start_idx: usize,
    ratio: i32,
    angle_offset: i32,
    separation: i32,
) -> (r: Vec<Vec<Point>>)
    requires
        polygon.len() < 0xffff_ffff,
    ensures
        rings(r@) == bisection(
            polygon@,
            start_idx as int,
            ratio as int,
            angle_offset as int,
            separation as int,
        ),
        1 <= r@.len() <= 2,
        forall|i: int| 0 <= i < r@.len() ==> r@[i]@.len() <= polygon.len() + 1,
{
    let n = polygon.len();
    let mut out: Vec<Vec<Point>> = Vec::new();
    if n < 3 || start_idx >= n {
        out.push(copy_of(polygon));
        proof {
            assert(rings(out@) =~= seq![polygon@]);
        }
        return out;
    }
    let (a, b) = cutting_line(polygon, start_idx, ratio, angle_offset);
    let h = crossings(polygon, a, b);
    if h.len() != 2 {
        out.push(copy_of(polygon));
        proof {
            assert(rings(out@) =~= seq![polygon@]);
        }
        return out;
    }
    let p1 = first_part(polygon, &h);
    let p2 = second_part(polygon, &h);
    let ghost r1: Seq<Seq<Point>> = if keeps(p1@) {
        seq![finished(p1@, a, b, separation as int)]
    } else {
        Seq::empty()
    };
    let ghost r2: Seq<Seq<Point>> = if keeps(p2@) {
        seq![finished(p2@, a, b, separation as int)]
    } else {
        Seq::empty()
    };
    if p1.len() >= 3 && has_area(&p1) {
        let f = finish(p1, a, b, separation);
        out.push(f);
    }
    proof {
        assert(rings(out@) =~= r1);
    }
    if p2.len() >= 3 && has_area(&p2) {
        let f = finish(p2, a, b, separation);
        out.push(f);
    }
    proof {
        assert(rings(out@) =~= r1 + r2);
    }
    if out.len() == 0 {
        out.push(copy_of(polygon));
        proof {
            assert(rings(out@) =~= seq![polygon@]);
        }
    }
    out
}

/// A sixth of a half turn, in parts of `ONE` of a radian.
pub const PI_SIXTH: i64 = 34_315;

/// The width of the interval from which the ratio of a cut is drawn:
/// four fifths of the chaos, which is limited to the range from zero to
/// one.
pub open spec fn cut_spread(grid_chaos: int) -> int {
    (4 * clamped(grid_chaos, 0, ONE as int)) / 5
}

/// The ratio of a cut for the draw `u`: uniform around one half.
pub open spec fn cut_ratio(grid_chaos: int, u: int) -> int {
    (ONE - cut_spread(grid_chaos)) / 2 + (u * cut_spread(grid_chaos)) / (ONE as int)
}

/// The angle of a cut for the draw `u`: uniform around zero within a
/// twelfth of a half turn times the chaos, and zero where the doubled
/// area is below four times the least area.
pub open spec fn cut_angle(grid_chaos: int, area: int, min_sq: int, u: int) -> int {
    let spread = if area < min_sq * 0x8_0000 {
        0
    } else {
        (PI_SIXTH * clamped(grid_chaos, 0, ONE as int)) / (ONE as int)
    };
    ((u - ONE / 2) * spread) / (ONE as int)
}

/// The chance of an alley at `depth`: it falls linearly to zero at the
/// greatest depth.
pub open spec fn decayed_chance(alley_chance: int, depth: int, max_depth: int) -> int {
    if max_depth <= 0 {
        0
    } else {
        (alley_chance * (ONE - (depth * ONE) / max_depth)) / (ONE as int)
    }
}

/// The doubled area below which a piece becomes a plot for the draw `u`:
/// twice the least area, scaled by two to the power of four times the
/// size chaos times the draw around zero.
pub open spec fn size_threshold(min_sq: int, size_chaos: int, u: int) -> int {
    let factor = exp2_of((4 * clamped(size_chaos, 0, ONE as int) * (u - ONE / 2)) / (ONE as int));
    ((min_sq * factor) / (ONE as int)) * 0x4_0000
}

/// The plots of one piece of a cut and the number of words drawn: the
/// piece itself, unless a draw leaves it empty, where its area is below
/// its threshold, else the plots of its subdivision one level deeper,
/// with the same settings.
pub open spec fn half_plots(
    half: Seq<Point>,
    min_sq: int,
    grid_chaos: int,
    size_chaos: int,
    empty_prob: int,
    depth: int,
    max_depth: int,
    alley_chance: int,
    alley_width: int,
    stream: Map<nat, u32>,
) -> (Seq<Seq<Point>>, nat)
    decreases max_depth + 1 - depth, 0int,
{
    if depth > max_depth {
        (Seq::empty(), 0)
    } else if magnitude(twice_area(half)) < size_threshold(min_sq, size_chaos, unit_of(stream[0])) {
        if unit_of(stream[1]) >= empty_prob {
            (seq![half], 2)
        } else {
            (Seq::empty(), 2)
        }
    } else {
        let r = plots(
            half,
            min_sq,
            grid_chaos,
            size_chaos,
            empty_prob,
            depth + 1,
            max_depth,
            alley_chance,
            alley_width,
            advanced(stream, 1),
        );
        (r.0, r.1 + 1)
    }
}

/// The plots into which `poly` is subdivided and the number of words
/// drawn from `stream`. Three words decide the cut: its ratio, its angle
/// and whether it is an alley; each piece is then settled in turn. Areas
/// count whichever way a polygon winds.
pub open spec fn plots(
    poly: Seq<Point>,
    min_sq: int,
    grid_chaos: int,
    size_chaos: int,
    empty_prob: int,
    depth: int,
    max_depth: int,
    alley_chance: int,
    alley_width: int,
    stream: Map<nat, u32>,
) -> (Seq<Seq<Point>>, nat)
    decreases max_depth + 1 - depth, 1int,
{
    if depth > max_depth || magnitude(twice_area(poly)) < min_sq * 0x2_0000 || poly.len() < 2 {
        (seq![poly], 0)
    } else {
        let area = magnitude(twice_area(poly));
        let ratio = cut_ratio(grid_chaos, unit_of(stream[0]));
        let angle = cut_angle(grid_chaos, area, min_sq, unit_of(stream[1]));
        let chance = decayed_chance(alley_chance, depth, max_depth);
        let width = if unit_of(stream[2]) < chance {
            alley_width
        } else {
            0
        };
        let halves = bisection(poly, longest_edge(poly), ratio, angle, width);
        if halves.len() == 1 && halves[0].len() == poly.len() {
            (seq![poly], 3)
        } else {
            let first = half_plots(
                halves[0],
                min_sq,
                grid_chaos,
                size_chaos,
                empty_prob,
                depth,
                max_depth,
                alley_chance,
                alley_width,
                advanced(stream, 3),
            );
            if halves.len() == 1 {
                (first.0, 3 + first.1)
            } else {
                let second = half_plots(
                    halves[1],
                    min_sq,
                    grid_chaos,
                    size_chaos,
                    empty_prob,
                    depth,
                    max_depth,
                    alley_chance,
                    alley_width,
                    advanced(stream, 3 + first.1),
                );
                (first.0 + second.0, 3 + first.1 + second.1)
            }
        }
    }
}

fn ratio_for(grid_chaos: i32, u: i64) -> (r: i32)
    requires
        0 <= u < ONE,
    ensures
        r == cut_ratio(grid_chaos as int, u as int),
        0 <= r <= ONE,
{
    let spread: i64 = (4 * clamp_between(grid_chaos as i128, 0, ONE)) / 5;
    proof {
        lemma_product_bound(u as int, spread as int, 0x1_0000, 0x1_0000);
        assert(0 <= u * spread <= ONE * spread) by (nonlinear_arith)
            requires
                0 <= u <= ONE,
                0 <= spread,
        ;
        vstd::arithmetic::div_mod::lemma_div_is_ordered(0, u * spread, ONE as int);
        vstd::arithmetic::div_mod::lemma_div_is_ordered(u * spread, ONE * spread, ONE as int);
        vstd::arithmetic::div_mod::lemma_div_multiples_vanish(spread as int, ONE as int);
    }
    ((ONE - spread) / 2 + (u * spread) / ONE) as i32
}

fn angle_for(grid_chaos: i32, area: i128, min_sq: i32, u: i64) -> (r: i32)
    requires
        0 <= u < ONE,
    ensures
        r == cut_angle(grid_chaos as int, area as int, min_sq as int, u as int),
{
    let spread: i64 = if area < (min_sq as i128) * 0x8_0000 {
        0
    } else {
        (PI_SIXTH * clamp_between(grid_chaos as i128, 0, ONE)) / ONE
    };
    assert(0 <= spread <= PI_SIXTH) by {
        if area >= min_sq * 0x8_0000 {
            let g = clamped(grid_chaos as int, 0, ONE as int);
            vstd::arithmetic::div_mod::lemma_div_is_ordered(0, PI_SIXTH * g, ONE as int);
            vstd::arithmetic::div_mod::lemma_div_is_ordered(
                PI_SIXTH * g,
                PI_SIXTH * ONE,
                ONE as int,
            );
        }
    }
    let off: i64 = u - ONE / 2;
    proof {
        lemma_product_bound(off as int, spread as int, 0x8000, 34_315);
        vstd::arithmetic::div_mod::lemma_div_is_ordered(
            -1_124_433_920int,
            off * spread,
            ONE as int,
        );
        vstd::arithmetic::div_mod::lemma_div_is_ordered(
            off * spread,
            1_124_433_920int,
            ONE as int,
        );
    }
    div_floor((off * spread) as i128, ONE as i128) as i32
}

fn chance_at(alley_chance: i32, depth: usize, max_depth: usize) -> (r: i32)
    requires
        depth <= max_depth,
    ensures
        r == decayed_chance(alley_chance as int, depth as int, max_depth as int),
{
    if max_depth == 0 {
        return 0;
    }
    proof {
        assert(0 <= depth * ONE <= max_depth * ONE) by (nonlinear_arith)
            requires
                0 <= depth <= max_depth,
        ;
        vstd::arithmetic::div_mod::lemma_div_is_ordered(0, depth * ONE, max_depth as int);
        vstd::arithmetic::div_mod::lemma_div_is_ordered(
            depth * ONE,
            max_depth * ONE,
            max_depth as int,
        );
        vstd::arithmetic::div_mod::lemma_div_multiples_vanish(ONE as int, max_depth as int);
    }
    let gone: i64 = (((depth as i128) * 65536) / (max_depth as i128)) as i64;
    let left: i64 = ONE - gone;
    proof {
        lemma_product_bound(alley_chance as int, left as int, 0x8000_0000, 0x1_0000);
        vstd::arithmetic::div_mod::lemma_div_is_ordered(
            -0x8000_0000_0000int,
            alley_chance * left,
            ONE as int,
        );
        assert(alley_chance * left <= 0x7fff_ffff_0000) by (nonlinear_arith)
            requires
                alley_chance <= 0x7fff_ffff,
                0 <= left <= 0x1_0000,
        ;
        vstd::arithmetic::div_mod::lemma_div_is_ordered(
            alley_chance * left,
            0x7fff_ffff_0000int,
            ONE as int,
        );
    }
    div_floor(prod(alley_chance as i64, left), ONE as i128) as i32
}

fn threshold_for(min_sq: i32, size_chaos: i32, u: i64) -> (r: i128)
    requires
        0 <= u < ONE,
    ensures
        r == size_threshold(min_sq as int, size_chaos as int, u as int),
{
    let sc: i64 = clamp_between(size_chaos as i128, 0, ONE);
    let off: i64 = u - ONE / 2;
    proof {
        lemma_product_bound(4 * sc, off as int, 0x4_0000, 0x8000);
    }
    let e: i64 = div_floor((4 * sc * off) as i128, ONE as i128) as i64;
    let factor: i64 = exp2(e);
    proof {
        lemma_product_bound(min_sq as int, factor as int, 0x8000_0000, 0x2_0000_0000_0000);
        vstd::arithmetic::div_mod::lemma_div_is_ordered(
            -0x1_0000_0000_0000_0000_0000int,
            min_sq * factor,
            ONE as int,
        );
        vstd::arithmetic::div_mod::lemma_div_is_ordered(
            min_sq * factor,
            0x1_0000_0000_0000_0000_0000int,
            ONE as int,
        );
    }
    div_floor(prod(min_sq as i64, factor), ONE as i128) * 0x4_0000
}

/// Settles one piece of a cut: it becomes a plot, is left empty, or is
/// subdivided one level deeper.
fn settle_half(
    half: Vec<Point>,
    min_sq: i32,
    grid_chaos: i32,
    size_chaos: i32,
    empty_prob: i32,
    depth: usize,
    rng: &mut StdRng,
    max_recursion_depth: usize,
    alley_chance: i32,
    alley_width: i32,
) -> (r: Vec<Vec<Point>>)
    requires
        depth <= max_recursion_depth,
        half.len() + (max_recursion_depth - depth) <= 0xffff_ffff,
    ensures
        rings(r@) == half_plots(
            half@,
            min_sq as int,
            grid_chaos as int,
            size_chaos as int,
            empty_prob as int,
            depth as int,
            max_recursion_depth as int,
            alley_chance as int,
            alley_width as int,
            upcoming(*old(rng)),
        ).0,
        upcoming(*final(rng)) == advanced(
            upcoming(*old(rng)),
            half_plots(
                half@,
                min_sq as int,
                grid_chaos as int,
                size_chaos as int,
                empty_prob as int,
                depth as int,
                max_recursion_depth as int,
                alley_chance as int,
                alley_width as int,
                upcoming(*old(rng)),
            ).1,
        ),
    decreases max_recursion_depth + 1 - depth, 0int,
{
    let ghost stream = upcoming(*rng);
    let u = draw_unit(rng);
    let threshold = threshold_for(min_sq, size_chaos, u);
    if area_of(&half) < threshold {
        let v = draw_unit(rng);
        proof {
            lemma_advanced_twice(stream, 1, 1);
            assert(v == unit_of(stream[1]));
        }
        let mut out: Vec<Vec<Point>> = Vec::new();
        if v >= empty_prob as i64 {
            out.push(half);
            proof {
                assert(rings(out@) =~= seq![half@]);
            }
        } else {
            proof {
                assert(rings(out@) =~= Seq::<Seq<Point>>::empty());
            }
        }
        out
    } else if depth == max_recursion_depth {
        let mut out: Vec<Vec<Point>> = Vec::new();
        out.push(half);
        proof {
            assert(rings(out@) =~= seq![half@]);
        }
        out
    } else {
        let r = divide(
            &half,
            min_sq,
            grid_chaos,
            size_chaos,
            empty_prob,
            depth + 1,
            rng,
            max_recursion_depth,
            alley_chance,
            alley_width,
        );
        proof {
            let inner = plots(
                half@,
                min_sq as int,
                grid_chaos as int,
                size_chaos as int,
                empty_prob as int,
                depth + 1,
                max_recursion_depth as int,
                alley_chance as int,
                alley_width as int,
                advanced(stream, 1),
            );
            lemma_advanced_twice(stream, 1, inner.1);
        }
        r
    }
}

/// Subdivides a polygon into plots, level by level.
fn divide(
    polygon: &Vec<Point>,
    min_sq: i32,
    grid_chaos: i32,
    size_chaos: i32,
    empty_prob: i32,
    depth: usize,
    rng: &mut StdRng,
    max_recursion_depth: usize,
    alley_chance: i32,
    alley_width: i32,
) -> (r: Vec<Vec<Point>>)
    requires
        depth <= max_recursion_depth ==> polygon.len() + (max_recursion_depth - depth)
            < 0xffff_ffff,
    ensures
        rings(r@) == plots(
            polygon@,
            min_sq as int,
            grid_chaos as int,
            size_chaos as int,
            empty_prob as int,
            depth as int,
            max_recursion_depth as int,
            alley_chance as int,
            alley_width as int,
            upcoming(*old(rng)),
        ).0,
        upcoming(*final(rng)) == advanced(
            upcoming(*old(rng)),
            plots(
                polygon@,
                min_sq as int,
                grid_chaos as int,
                size_chaos as int,
                empty_prob as int,
                depth as int,
                max_recursion_depth as int,
                alley_chance as int,
                alley_width as int,
                upcoming(*old(rng)),
            ).1,
        ),
    decreases max_recursion_depth + 1 - depth, 1int,
{
    let ghost stream = upcoming(*rng);
    if depth > max_recursion_depth {
        let mut out: Vec<Vec<Point>> = Vec::new();
        out.push(copy_of(polygon));
        proof {
            assert(rings(out@) =~= seq![polygon@]);
        }
        return out;
    }
    let area = area_of(polygon);
    if area < (min_sq as i128) * 0x2_0000 {
        let mut out: Vec<Vec<Point>> = Vec::new();
        out.push(copy_of(polygon));
        proof {
            assert(rings(out@) =~= seq![polygon@]);
        }
        return out;
    }
    let longest = match vlongest_edge(polygon) {
        Some(found) => found.0,
        None => {
            let mut out: Vec<Vec<Point>> = Vec::new();
            out.push(copy_of(polygon));
            proof {
                assert(rings(out@) =~= seq![polygon@]);
            }
            return out;
        },
    };
    let u1 = draw_unit(rng);
    let ratio = ratio_for(grid_chaos, u1);
    let u2 = draw_unit(rng);
    let angle = angle_for(grid_chaos, area, min_sq, u2);
    let chance = chance_at(alley_chance, depth, max_recursion_depth);
    let u3 = draw_unit(rng);
    let width: i32 = if u3 < chance as i64 {
        alley_width
    } else {
        0
    };
    proof {
        lemma_advanced_twice(stream, 1, 1);
        lemma_advanced_twice(stream, 2, 1);
        assert(u2 == unit_of(stream[1]));
        assert(u3 == unit_of(stream[2]));
        assert(upcoming(*rng) == advanced(stream, 3));
    }
    let mut halves = bisect_poly(polygon, longest, ratio, angle, width);
    let ghost pieces = rings(halves@);
    if halves.len() == 1 && halves[0].len() == polygon.len() {
        let mut out: Vec<Vec<Point>> = Vec::new();
        out.push(copy_of(polygon));
        proof {
            assert(rings(out@) =~= seq![polygon@]);
        }
        return out;
    }
    let second = if halves.len() == 2 {
        halves.pop()
    } else {
        None
    };
    let first = halves.pop().unwrap();
    assert(first@ == pieces[0]);
    let mut out = settle_half(
        first,
        min_sq,
        grid_chaos,
        size_chaos,
        empty_prob,
        depth,
        rng,
        max_recursion_depth,
        alley_chance,
        alley_width,
    );
    let ghost first_plots = half_plots(
        pieces[0],
        min_sq as int,
        grid_chaos as int,
        size_chaos as int,
        empty_prob as int,
        depth as int,
        max_recursion_depth as int,
        alley_chance as int,
        alley_width as int,
        advanced(stream, 3),
    );
    proof {
        lemma_advanced_twice(stream, 3, first_plots.1);
    }
    match second {
        Some(other) => {
            assert(other@ == pieces[1]);
            let mut more = settle_half(
                other,
                min_sq,
                grid_chaos,
                size_chaos,
                empty_prob,
                depth,
                rng,
                max_recursion_depth,
                alley_chance,
                alley_width,
            );
            let ghost second_plots = half_plots(
                pieces[1],
                min_sq as int,
                grid_chaos as int,
                size_chaos as int,
                empty_prob as int,
                depth as int,
                max_recursion_depth as int,
                alley_chance as int,
                alley_width as int,
                advanced(stream, 3 + first_plots.1),
            );
            proof {
                lemma_advanced_twice(stream, 3 + first_plots.1, second_plots.1);
            }
            let ghost before = out@;
            let ghost added = more@;
            out.append(&mut more);
            proof {
                assert(out@ =~= before + added);
                assert(rings(out@) =~= rings(before) + rings(added));
            }
            out
        },
        None => out,
    }
}

/// The number of levels that remain below `depth`, the level itself
/// counted.
pub open spec fn levels_left(depth: int, max_depth: int) -> nat {
    if depth > max_depth {
        0
    } else {
        (max_depth + 1 - depth) as nat
    }
}

/// Every piece of a cut that went through has more than a fifth of the
/// least doubled area of a piece.
pub proof fn lemma_bisection_pieces(
    poly: Seq<Point>,
    idx: int,
    ratio: int,
    angle: int,
    separation: int,
)
    ensures
        ({
            let h = bisection(poly, idx, ratio, angle, separation);
            &&& 1 <= h.len() <= 2
            &&& (h.len() == 1 && h[0].len() == poly.len()) || forall|i: int|
                0 <= i < h.len() ==> 5 * magnitude(twice_area(#[trigger] h[i])) > MIN_PIECE_AREA
        }),
{
    let h = bisection(poly, idx, ratio, angle, separation);
    if !(poly.len() < 3 || idx >= poly.len()) {
        let line = cut_line(poly, idx, ratio, angle);
        let c = hits(poly, line.0, line.1, poly.len() as int);
        if c.len() == 2 {
            let p1 = first_piece(poly, c);
            let p2 = second_piece(poly, c);
            let f1 = finished(p1, line.0, line.1, separation);
            let f2 = finished(p2, line.0, line.1, separation);
            if keeps(p1) && keeps(p2) {
                assert(h =~= seq![f1, f2]);
            } else if keeps(p1) {
                assert(h =~= seq![f1]);
            } else if keeps(p2) {
                assert(h =~= seq![f2]);
            }
        }
    }
}

/// Subdivision ends: beyond the greatest depth a polygon comes back as it
/// is and no word is drawn; the number of plots is at most two to the
/// power of the levels that remain; and every plot is the polygon itself
/// or has more than a fifth of the least doubled area of a piece.
pub proof fn lemma_plots_bounded(
    poly: Seq<Point>,
    min_sq: int,
    grid_chaos: int,
    size_chaos: int,
    empty_prob: int,
    depth: int,
    max_depth: int,
    alley_chance: int,
    alley_width: int,
    stream: Map<nat, u32>,
)
    requires
        0 <= depth,
    ensures
        ({
            let r = plots(
                poly,
                min_sq,
                grid_chaos,
                size_chaos,
                empty_prob,
                depth,
                max_depth,
                alley_chance,
                alley_width,
                stream,
            );
            &&& depth > max_depth ==> r == (seq![poly], 0nat)
            &&& r.0.len() <= two_to(levels_left(depth, max_depth))
            &&& forall|i: int|
                0 <= i < r.0.len() ==> #[trigger] r.0[i] == poly || 5 * magnitude(twice_area(r.0[i]))
                    > MIN_PIECE_AREA
        }),
    decreases max_depth + 1 - depth, 1int,
{
    let r = plots(
        poly,
        min_sq,
        grid_chaos,
        size_chaos,
        empty_prob,
        depth,
        max_depth,
        alley_chance,
        alley_width,
        stream,
    );
    reveal_with_fuel(two_to, 2);
    if depth > max_depth || magnitude(twice_area(poly)) < min_sq * 0x2_0000 || poly.len() < 2 {
        crate::trig::lemma_two_to_positive(levels_left(depth, max_depth));
    } else {
        let area = magnitude(twice_area(poly));
        let ratio = cut_ratio(grid_chaos, unit_of(stream[0]));
        let angle = cut_angle(grid_chaos, area, min_sq, unit_of(stream[1]));
        let chance = decayed_chance(alley_chance, depth, max_depth);
        let width = if unit_of(stream[2]) < chance {
            alley_width
        } else {
            0
        };
        let halves = bisection(poly, longest_edge(poly), ratio, angle, width);
        lemma_bisection_pieces(poly, longest_edge(poly), ratio, angle, width);
        crate::trig::lemma_two_to_positive(levels_left(depth + 1, max_depth));
        assert(levels_left(depth, max_depth) == levels_left(depth + 1, max_depth) + 1);
        if !(halves.len() == 1 && halves[0].len() == poly.len()) {
            lemma_half_plots_bounded(
                halves[0],
                min_sq,
                grid_chaos,
                size_chaos,
                empty_prob,
                depth,
                max_depth,
                alley_chance,
                alley_width,
                advanced(stream, 3),
            );
            let first = half_plots(
                halves[0],
                min_sq,
                grid_chaos,
                size_chaos,
                empty_prob,
                depth,
                max_depth,
                alley_chance,
                alley_width,
                advanced(stream, 3),
            );
            if halves.len() == 2 {
                lemma_half_plots_bounded(
                    halves[1],
                    min_sq,
                    grid_chaos,
                    size_chaos,
                    empty_prob,
                    depth,
                    max_depth,
                    alley_chance,
                    alley_width,
                    advanced(stream, 3 + first.1),
                );
            }
        }
    }
}

/// The plots of one piece are at most two to the power of the levels
/// below it, and each is the piece itself or has more than a fifth of
/// the least doubled area of a piece.
pub proof fn lemma_half_plots_bounded(
    half: Seq<Point>,
    min_sq: int,
    grid_chaos: int,
    size_chaos: int,
    empty_prob: int,
    depth: int,
    max_depth: int,
    alley_chance: int,
    alley_width: int,
    stream: Map<nat, u32>,
)
    requires
        0 <= depth <= max_depth,
    ensures
        ({
            let r = half_plots(
                half,
                min_sq,
                grid_chaos,
                size_chaos,
                empty_prob,
                depth,
                max_depth,
                alley_chance,
                alley_width,
                stream,
            );
            &&& r.0.len() <= two_to(levels_left(depth + 1, max_depth))
            &&& forall|i: int|
                0 <= i < r.0.len() ==> #[trigger] r.0[i] == half || 5 * magnitude(twice_area(r.0[i]))
                    > MIN_PIECE_AREA
        }),
    decreases max_depth + 1 - depth, 0int,
{
    crate::trig::lemma_two_to_positive(levels_left(depth + 1, max_depth));
    if !(magnitude(twice_area(half)) < size_threshold(min_sq, size_chaos, unit_of(stream[0]))) {
        lemma_plots_bounded(
            half,
            min_sq,
            grid_chaos,
            size_chaos,
            empty_prob,
            depth + 1,
            max_depth,
            alley_chance,
            alley_width,
            advanced(stream, 1),
        );
    }
}

/// Subdivides a polygon into plots. A polygon deeper than the greatest
/// depth, smaller than the least area or without a longest edge comes
/// back as it is, and so does one that cannot be cut. Otherwise it is cut
/// across its longest edge, and each piece becomes a plot, is left empty,
/// or is subdivided in turn with the same settings. Areas count whichever
/// way a polygon winds. All draws come from `rng`, in a fixed order. There
/// are at most two to the power of the remaining levels plots, and each
/// is the polygon itself or has more than a fifth of the least area of a
/// piece.
pub fn subdivide_to_plots(
    polygon: &Vec<Point>,
    min_sq: i32,
    grid_chaos: i32,
    size_chaos: i32,
    empty_prob: i32,
    depth: usize,
    rng: &mut StdRng,
    max_recursion_depth: usize,
    alley_chance: i32,
    alley_width: i32,
) -> (r: Vec<Vec<Point>>)
    requires
        depth <= max_recursion_depth ==> polygon.len() + (max_recursion_depth - depth)
            < 0xffff_ffff,
    ensures
        rings(r@) == plots(
            polygon@,
            min_sq as int,
            grid_chaos as int,
            size_chaos as int,
            empty_prob as int,
            depth as int,
            max_recursion_depth as int,
            alley_chance as int,
            alley_width as int,
            upcoming(*old(rng)),
        ).0,
        upcoming(*final(rng)) == advanced(
            upcoming(*old(rng)),
            plots(
                polygon@,
                min_sq as int,
                grid_chaos as int,
                size_chaos as int,
                empty_prob as int,
                depth as int,
                max_recursion_depth as int,
                alley_chance as int,
                alley_width as int,
                upcoming(*old(rng)),
            ).1,
        ),
        r@.len() <= two_to(levels_left(depth as int, max_recursion_depth as int)),
        depth > max_recursion_depth ==> r@.len() == 1 && r@[0]@ == polygon@,
        forall|i: int|
            0 <= i < r@.len() ==> (#[trigger] r@[i])@ == polygon@ || 5 * magnitude(
                twice_area(r@[i]@),
            ) > MIN_PIECE_AREA,
{
    let ghost stream = upcoming(*rng);
    let r = divide(
        polygon,
        min_sq,
        grid_chaos,
        size_chaos,
        empty_prob,
        depth,
        rng,
        max_recursion_depth,
        alley_chance,
        alley_width,
    );
    proof {
        lemma_plots_bounded(
            polygon@,
            min_sq as int,
            grid_chaos as int,
            size_chaos as int,
            empty_prob as int,
            depth as int,
            max_recursion_depth as int,
            alley_chance as int,
            alley_width as int,
            stream,
        );
        let found = rings(r@);
        assert(found.len() == r@.len());
        assert forall|i: int| 0 <= i < r@.len() implies (#[trigger] r@[i])@ == polygon@ || 5
            * magnitude(twice_area(r@[i]@)) > MIN_PIECE_AREA by {
            assert(found[i] == r@[i]@);
        }
        if depth > max_recursion_depth {
            assert(found[0] == r@[0]@);
        }
    }
    r
}

/// Without chaos and without alleys every cut goes through the middle of
/// the longest edge, at a right angle to it and without a gap, whatever
/// is drawn.
pub proof fn lemma_cut_without_chaos(u: int, area: int, min_sq: int, depth: int, max_depth: int)
    ensures
        cut_ratio(0, u) == ONE / 2,
        cut_angle(0, area, min_sq, u) == 0,
        decayed_chance(0, depth, max_depth) == 0,
        size_threshold(min_sq, 0, u) == size_threshold(min_sq, 0, 0),
{
    assert(u * 0 == 0);
    assert((u - ONE / 2) * 0 == 0);
    let step = ONE - (depth * ONE) / max_depth;
    assert(0 * step == 0);
    let c = clamped(0, 0, ONE as int);
    assert(4 * c * (u - ONE / 2) == 0 && 4 * c * (0 - ONE / 2) == 0) by (nonlinear_arith)
        requires
            c == 0,
    ;
}

/// Without chaos, alleys and empty plots the draws decide nothing: the
/// plots and the number of words drawn are the same for every generator.
pub proof fn lemma_plots_without_chaos(
    poly: Seq<Point>,
    min_sq: int,
    depth: int,
    max_depth: int,
    alley_width: int,
    s1: Map<nat, u32>,
    s2: Map<nat, u32>,
)
    ensures
        plots(poly, min_sq, 0, 0, 0, depth, max_depth, 0, alley_width, s1) == plots(
            poly,
            min_sq,
            0,
            0,
            0,
            depth,
            max_depth,
            0,
            alley_width,
            s2,
        ),
    decreases max_depth + 1 - depth, 1int,
{
    if !(depth > max_depth || magnitude(twice_area(poly)) < min_sq * 0x2_0000 || poly.len() < 2) {
        let area = magnitude(twice_area(poly));
        lemma_cut_without_chaos(unit_of(s1[0]), area, min_sq, depth, max_depth);
        lemma_cut_without_chaos(unit_of(s2[0]), area, min_sq, depth, max_depth);
        lemma_cut_without_chaos(unit_of(s1[1]), area, min_sq, depth, max_depth);
        lemma_cut_without_chaos(unit_of(s2[1]), area, min_sq, depth, max_depth);
        let halves = bisection(poly, longest_edge(poly), ONE / 2, 0, 0);
        lemma_bisection_pieces(poly, longest_edge(poly), ONE / 2, 0, 0);
        if !(halves.len() == 1 && halves[0].len() == poly.len()) {
            lemma_half_plots_without_chaos(
                halves[0],
                min_sq,
                depth,
                max_depth,
                alley_width,
                advanced(s1, 3),
                advanced(s2, 3),
            );
            let first = half_plots(
                halves[0],
                min_sq,
                0,
                0,
                0,
                depth,
                max_depth,
                0,
                alley_width,
                advanced(s1, 3),
            );
            if halves.len() == 2 {
                lemma_half_plots_without_chaos(
                    halves[1],
                    min_sq,
                    depth,
                    max_depth,
                    alley_width,
                    advanced(s1, 3 + first.1),
                    advanced(s2, 3 + first.1),
                );
            }
        }
    }
}

/// Without chaos, alleys and empty plots the plots of a piece are the
/// same for every generator.
pub proof fn lemma_half_plots_without_chaos(
    half: Seq<Point>,
    min_sq: int,
    depth: int,
    max_depth: int,
    alley_width: int,
    s1: Map<nat, u32>,
    s2: Map<nat, u32>,
)
    ensures
        half_plots(half, min_sq, 0, 0, 0, depth, max_depth, 0, alley_width, s1) == half_plots(
            half,
            min_sq,
            0,
            0,
            0,
            depth,
            max_depth,
            0,
            alley_width,
            s2,
        ),
    decreases max_depth + 1 - depth, 0int,
{
    if depth <= max_depth {
        lemma_cut_without_chaos(unit_of(s1[0]), 0, min_sq, depth, max_depth);
        lemma_cut_without_chaos(unit_of(s2[0]), 0, min_sq, depth, max_depth);
        if !(magnitude(twice_area(half)) < size_threshold(min_sq, 0, 0)) {
            lemma_plots_without_chaos(
                half,
                min_sq,
                depth + 1,
                max_depth,
                alley_width,
                advanced(s1, 1),
                advanced(s2, 1),
            );
        }
    }
}

/// The polygon pushed from each of the first `k` segments of the road
/// that is longer than a tenth of a metre, in their order.
pub open spec fn carved(poly: Seq<Point>, path: Seq<Point>, half_width: int, k: int) -> Seq<Point>
    decreases k,
{
    if k <= 0 {
        poly
    } else {
        let before = carved(poly, path, half_width, k - 1);
        let a = path[k - 1];
        let b = path[k];
        if length(b.x - a.x, b.y - a.y) > SHORT_STRETCH {
            pushed_from_line(before, a.widened(), b.widened(), half_width)
        } else {
            before
        }
    }
}

/// The polygon with a corridor of the given half width carved out along
/// the whole road.
pub open spec fn carved_along(poly: Seq<Point>, path: Seq<Point>, half_width: int) -> Seq<Point> {
    if path.len() < 2 {
        poly
    } else {
        carved(poly, path, half_width, path.len() - 1)
    }
}

/// Carves the corridor of a road out of a polygon: the polygon is pushed
/// from every segment of the road that is longer than a tenth of a metre.
pub fn carve_road(polygon: Vec<Point>, road_path: &Vec<Point>, half_width: i32) -> (r: Vec<Point>)
    requires
        polygon.len() <= 0xffff_ffff,
    ensures
        r@ == carved_along(polygon@, road_path@, half_width as int),
        r@.len() == polygon@.len(),
{
    let n = road_path.len();
    let mut current = polygon;
    if n < 2 {
        return current;
    }
    let mut i: usize = 0;
    while i < n - 1
        invariant
            n == road_path.len(),
            n >= 2,
            i <= n - 1,
            current@ == carved(polygon@, road_path@, half_width as int, i as int),
            current@.len() == polygon@.len(),
            polygon.len() <= 0xffff_ffff,
        decreases n - 1 - i,
    {
        let a = road_path[i];
        let b = road_path[i + 1];
        if vector_length(b.x as i64 - a.x as i64, b.y as i64 - a.y as i64) > SHORT_STRETCH {
            current = push_from_wide_line(&current, a.wide(), b.wide(), half_width);
        }
        i = i + 1;
    }
    current
}

/// Point `i` is the first of the points nearest to `v`.
pub open spec fn is_nearest(v: Point, points: Seq<Point>, i: int) -> bool {
    &&& 0 <= i < points.len()
    &&& forall|j: int| 0 <= j < points.len() ==> dist_sq(v, points[i]) <= dist_sq(v, points[j])
    &&& forall|j: int| 0 <= j < i ==> dist_sq(v, points[i]) < dist_sq(v, points[j])
}

/// The first of the nearest to `v` among the first `k` points.
pub open spec fn nearest_among(v: Point, points: Seq<Point>, k: int) -> int
    decreases k,
{
    if k <= 1 {
        0
    } else {
        let best = nearest_among(v, points, k - 1);
        if dist_sq(v, points[k - 1]) < dist_sq(v, points[best]) {
            k - 1
        } else {
            best
        }
    }
}

/// A cell moved off the road: each corner is the point nearest to where
/// the carving puts the corner.
pub open spec fn constrained_cell(cell: Seq<usize>, points: Seq<Point>, path: Seq<Point>) -> Seq<
    usize,
> {
    let ring = carved_along(ring_of(cell, points), path, ROAD_WIDTH / 2);
    Seq::new(cell.len(), |i: int| nearest_among(ring[i], points, points.len() as int) as usize)
}

/// The cells with the first `count` of them moved off the road.
pub open spec fn constrained_cells(
    cells: Seq<Seq<usize>>,
    points: Seq<Point>,
    path: Seq<Point>,
    count: int,
) -> Seq<Seq<usize>> {
    if path.len() < 2 || count <= 0 {
        cells
    } else {
        Seq::new(
            cells.len(),
            |c: int|
                if c < count && cells[c].len() >= 3 {
                    constrained_cell(cells[c], points, path)
                } else {
                    cells[c]
                },
        )
    }
}

/// The index of the first of the points nearest to `v`.
pub fn nearest_point(v: Point, points: &Vec<Point>) -> (i: usize)
    requires
        points.len() > 0,
    ensures
        is_nearest(v, points@, i as int),
        i == nearest_among(v, points@, points@.len() as int),
{
    let n = points.len();
    let mut best: usize = 0;
    let mut best_sq: i128 = 0;
    let mut k: usize = 0;
    while k < n
        invariant
            n == points.len(),
            n > 0,
            k <= n,
            k == 0 ==> best == 0,
            k > 0 ==> best < k && best_sq == dist_sq(v, points@[best as int]),
            k > 0 ==> best == nearest_among(v, points@, k as int),
            forall|j: int| 0 <= j < k ==> best_sq <= dist_sq(v, points@[j]),
            forall|j: int| 0 <= j < best ==> best_sq < dist_sq(v, points@[j]),
        decreases n - k,
    {
        let dx: i64 = v.x as i64 - points[k].x as i64;
        let dy: i64 = v.y as i64 - points[k].y as i64;
        proof {
            lemma_product_bound(dx as int, dx as int, 0x1_0000_0000, 0x1_0000_0000);
            lemma_product_bound(dy as int, dy as int, 0x1_0000_0000, 0x1_0000_0000);
        }
        let sq: i128 = prod(dx, dx) + prod(dy, dy);
        if k == 0 || sq < best_sq {
            best = k;
            best_sq = sq;
        }
        k = k + 1;
    }
    best
}

fn constrain_cell(cell: &Vec<usize>, points: &Vec<Point>, road_path: &Vec<Point>) -> (r: Vec<
    usize,
>)
    requires
        cell.len() >= 3,
        cell.len() <= 0xffff_ffff,
        in_bounds(cell@, points@),
    ensures
        r@ == constrained_cell(cell@, points@, road_path@),
{
    let ring = carve_road(cell_polygon(cell, points), road_path, ROAD_WIDTH / 2);
    let mut out: Vec<usize> = Vec::new();
    let mut i: usize = 0;
    while i < cell.len()
        invariant
            i <= cell.len(),
            cell.len() >= 3,
            ring@.len() == cell@.len(),
            in_bounds(cell@, points@),
            out@.len() == i,
            forall|k: int|
                0 <= k < i ==> out@[k] == nearest_among(
                    ring@[k],
                    points@,
                    points@.len() as int,
                ) as usize,
        decreases cell.len() - i,
    {
        proof {
            assert(cell@[0] < points@.len());
        }
        out.push(nearest_point(ring[i], points));
        i = i + 1;
    }
    proof {
        assert(out@ =~= constrained_cell(cell@, points@, road_path@));
    }
    out
}

/// Moves the cells of the road generators off the road. Each of the
/// first `road_generator_count` cells that has three corners is carved
/// along the road, and each of its corners is replaced by the point
/// nearest to where the carving put it. The other cells stay as they are.
pub fn constrain_road_generator_cells(
    cells: Vec<Vec<usize>>,
    points: &Vec<Point>,
    road_path: &Vec<Point>,
    road_generator_count: usize,
) -> (r: Vec<Vec<usize>>)
    requires
        forall|c: int|
            0 <= c < cells@.len() && c < road_generator_count ==> in_bounds(
                (#[trigger] cells@[c])@,
                points@,
            ) && cells@[c]@.len() <= 0xffff_ffff,
    ensures
        crate::voronoi::index_rings(r@) == constrained_cells(
            crate::voronoi::index_rings(cells@),
            points@,
            road_path@,
            road_generator_count as int,
        ),
{
    if road_path.len() < 2 || road_generator_count == 0 {
        return cells;
    }
    let mut out: Vec<Vec<usize>> = Vec::new();
    let mut c: usize = 0;
    while c < cells.len()
        invariant
            c <= cells.len(),
            out@.len() == c,
            forall|k: int|
                0 <= k < cells@.len() && k < road_generator_count ==> in_bounds(
                    (#[trigger] cells@[k])@,
                    points@,
                ) && cells@[k]@.len() <= 0xffff_ffff,
            forall|k: int|
                0 <= k < c ==> (#[trigger] out@[k])@ == if k < road_generator_count
                    && cells@[k]@.len() >= 3 {
                    constrained_cell(cells@[k]@, points@, road_path@)
                } else {
                    cells@[k]@
                },
        decreases cells.len() - c,
    {
        let cell = &cells[c];
        if c < road_generator_count && cell.len() >= 3 {
            out.push(constrain_cell(cell, points, road_path));
        } else {
            let mut same: Vec<usize> = Vec::new();
            let mut i: usize = 0;
            while i < cell.len()
                invariant
                    i <= cell.len(),
                    same@ == cell@.subrange(0, i as int),
                decreases cell.len() - i,
            {
                same.push(cell[i]);
                proof {
                    assert(same@ =~= cell@.subrange(0, i + 1));
                }
                i = i + 1;
            }
            proof {
                assert(same@ =~= cell@);
            }
            out.push(same);
        }
        c = c + 1;
    }
    proof {
        assert(crate::voronoi::index_rings(out@) =~= constrained_cells(
            crate::voronoi::index_rings(cells@),
            points@,
            road_path@,
            road_generator_count as int,
        ));
    }
    out
}

} // verus!
