//! Generator points: the seed spiral, the boundary polygon, and the fixed
//! generators along the boundary and the road.
use vstd::prelude::*;
use crate::config::BOUNDARY_GENERATOR_OUTER_OFFSET;
use crate::config::CORNER_CONSTRAINT_DISTANCE;
use crate::config::ROAD_GENERATOR_OFFSET;
use crate::config::ROAD_GENERATOR_SPACING;
use crate::fixed::clamp_between;
use crate::fixed::clamp_i32;
use crate::fixed::clamped;
use crate::fixed::div_floor;
use crate::fixed::lemma_product_bound;
use crate::fixed::length;
use crate::fixed::unit_part;
use crate::fixed::unit_vector;
use crate::fixed::vector_length;
use crate::fixed::ONE;
use crate::fixed::UNIT;
use crate::geometry::lemma_fraction_of;
use crate::geometry::next_index;
use crate::geometry::on_grid;
use crate::geometry::polygon_area;
use crate::geometry::twice_area;
use crate::geometry::Point;
use crate::rng::advanced;
use crate::rng::between_of;
use crate::rng::next_word;
use crate::rng::word_between;
use rand::rngs::StdRng;
use crate::rng::lemma_advanced_twice;
use crate::rng::seeded;
use crate::rng::seeded_stream;
use crate::rng::upcoming;
use crate::trig::cos_sin_fine;
use crate::trig::direction;
use crate::trig::direction_of;
use crate::trig::lemma_direction_norm;
use crate::fixed::lemma_square_near;
use crate::trig::cos_sin_of;
use crate::trig::TURN;
use crate::config::CIRCUMCENTER_BOUND;
use crate::fixed::magnitude;
use crate::geometry::calculate_circumcenter;
use crate::geometry::centroid_of;
use crate::geometry::circumcenter;
use crate::geometry::lemma_area_bound;
use crate::geometry::polygon_centroid;
use crate::voronoi::angular_order;
use crate::voronoi::sort_by_angle;
use crate::voronoi::touches;
use crate::voronoi::Triangle;

verus! {

/// The point at `angle` and `radius` from the origin, each coordinate
/// limited to the canvas.
pub open spec fn polar_point(angle: int, radius: int, width: int, height: int) -> Point {
    let cs = cos_sin_of(angle);
    Point {
        x: clamped((cs.0 * radius) / (UNIT as int), -width, width) as i32,
        y: clamped((cs.1 * radius) / (UNIT as int), -height, height) as i32,
    }
}

/// Point `i` of the spiral for the words `w1` and `w2`: at half a radian
/// per point, give or take 0.3, and at `spread` per point from the
/// origin, give or take a fifth of it.
pub open spec fn spiral_point(
    i: int,
    width: int,
    height: int,
    spread: int,
    w1: u32,
    w2: u32,
) -> Point {
    polar_point(
        i * 32768 + between_of(w1, -19661, 19661),
        i * spread + between_of(w2, -(spread / 5), spread / 5),
        width,
        height,
    )
}

/// The first `n` points of the spiral drawn from `stream`.
pub open spec fn spiral(
    n: nat,
    width: int,
    height: int,
    spread: int,
    stream: Map<nat, u32>,
) -> Seq<Point> {
    Seq::new(
        n,
        |i: int|
            spiral_point(
                i,
                width,
                height,
                spread,
                stream[(2 * i) as nat],
                stream[(2 * i + 1) as nat],
            ),
    )
}

proof fn lemma_stream_at(stream: Map<nat, u32>, k: nat)
    ensures
        advanced(stream, k)[0] == stream[k],
{
}

fn point_at(angle: i128, radius: i128, width: i32, height: i32) -> (p: Point)
    requires
        width >= 0,
        height >= 0,
        -0x1_0000_0000_0000_0000_0000 <= angle <= 0x1_0000_0000_0000_0000_0000,
        -0x1_0000_0000_0000_0000_0000_0000 <= radius <= 0x1_0000_0000_0000_0000_0000_0000,
    ensures
        p == polar_point(angle as int, radius as int, width as int, height as int),
{
    let (c, s) = cos_sin_fine(angle * 65536);
    proof {
        lemma_product_bound(
            c as int,
            radius as int,
            0x4000_0000,
            0x1_0000_0000_0000_0000_0000_0000,
        );
        lemma_product_bound(
            s as int,
            radius as int,
            0x4000_0000,
            0x1_0000_0000_0000_0000_0000_0000,
        );
    }
    let x = clamp_between(
        div_floor((c as i128) * radius, 0x4000_0000),
        -(width as i64),
        width as i64,
    );
    let y = clamp_between(
        div_floor((s as i128) * radius, 0x4000_0000),
        -(height as i64),
        height as i64,
    );
    Point { x: x as i32, y: y as i32 }
}

/// Point `i` of the spiral for the two words drawn for it.
pub fn spiral_vertex(i: usize, width: i32, height: i32, spread: i32, w1: u32, w2: u32) -> (p: Point)
    requires
        width >= 0,
        height >= 0,
    ensures
        p == spiral_point(i as int, width as int, height as int, spread as int, w1, w2),
{
    let fifth: i32 = div_floor(spread as i128, 5) as i32;
    let turn: i64 = word_between(w1, -19661, 19661);
    let reach: i64 = word_between(w2, -fifth, fifth);
    proof {
        lemma_product_bound(i as int, spread as int, 0x1_0000_0000_0000_0000, 0x8000_0000);
    }
    let angle: i128 = (i as i128) * 32768 + turn as i128;
    let radius: i128 = (i as i128) * (spread as i128) + reach as i128;
    point_at(angle, radius, width, height)
}

/// Seed points on a spiral round the origin, drawn from `rng`: two words
/// for each point.
pub fn spiral_from(rng: &mut StdRng, num_points: usize, width: i32, height: i32, spread: i32) -> (points:
    Vec<Point>)
    requires
        width >= 0,
        height >= 0,
    ensures
        points@ == spiral(
            num_points as nat,
            width as int,
            height as int,
            spread as int,
            upcoming(*old(rng)),
        ),
        upcoming(*final(rng)) == advanced(upcoming(*old(rng)), (2 * num_points) as nat),
{
    let ghost stream = upcoming(*rng);
    let mut points: Vec<Point> = Vec::new();
    let mut i: usize = 0;
    while i < num_points
        invariant
            i <= num_points,
            width >= 0,
            height >= 0,
            upcoming(*rng) == advanced(stream, (2 * i) as nat),
            points@.len() == i,
            forall|k: int|
                0 <= k < i ==> points@[k] == spiral_point(
                    k,
                    width as int,
                    height as int,
                    spread as int,
                    stream[(2 * k) as nat],
                    stream[(2 * k + 1) as nat],
                ),
        decreases num_points - i,
    {
        proof {
            lemma_stream_at(stream, (2 * i) as nat);
            lemma_stream_at(stream, (2 * i + 1) as nat);
            lemma_advanced_twice(stream, (2 * i) as nat, 1);
            lemma_advanced_twice(stream, (2 * i + 1) as nat, 1);
        }
        let w1 = next_word(rng);
        let w2 = next_word(rng);
        points.push(spiral_vertex(i, width, height, spread, w1, w2));
        i = i + 1;
    }
    proof {
        assert(points@ =~= spiral(
            num_points as nat,
            width as int,
            height as int,
            spread as int,
            stream,
        ));
    }
    points
}

/// Seed points on a spiral round the origin, drawn from a generator
/// seeded with `seed`: the same arguments give the same points.
pub fn pgen(num_points: usize, width: i32, height: i32, spread: i32, seed: u64) -> (points: Vec<
    Point,
>)
    requires
        width >= 0,
        height >= 0,
    ensures
        points@ == spiral(
            num_points as nat,
            width as int,
            height as int,
            spread as int,
            seeded_stream(seed),
        ),
{
    let mut rng = seeded(seed);
    spiral_from(&mut rng, num_points, width, height, spread)
}

/// Vertex `i` of `n` of the boundary for the word `w`: at the fraction
/// `i / n` of a turn, at the base radius give or take a fifth.
pub open spec fn boundary_vertex(i: int, n: int, base_radius: int, w: u32) -> Point {
    let cs = direction_of((i * TURN) / n);
    let radius = (base_radius * (ONE + between_of(w, -13107, 13107))) / (ONE as int);
    Point {
        x: on_grid((cs.0 * radius) / (UNIT as int)),
        y: on_grid((cs.1 * radius) / (UNIT as int)),
    }
}

/// The greatest base radius whose boundary stays on the grid: 27000 m.
pub const RADIUS_LIMIT: i32 = 1_769_472_000;

/// A vector of the length `r` along a direction, rounded down to the
/// grid, has the length `r` give or take `k` steps: four steps up to
/// 4096 m, seven beyond.
proof fn lemma_scaled_norm(dx: int, dy: int, r: int, k: int)
    requires
        -UNIT <= dx <= UNIT,
        -UNIT <= dy <= UNIT,
        UNIT * UNIT - 4 * UNIT <= dx * dx + dy * dy <= UNIT * UNIT + 5 * UNIT,
        (k == 4 && 0 <= r <= 0x1000_0000) || (k == 7 && 0 <= r <= 0x8000_0000),
    ensures
        ({
            let x = (dx * r) / (UNIT as int);
            let y = (dy * r) / (UNIT as int);
            &&& -r <= x <= r
            &&& -r <= y <= r
            &&& x * x + y * y <= (r + k) * (r + k)
            &&& r >= 25 ==> (r - k) * (r - k) <= x * x + y * y
        }),
{
    let u: int = 0x4000_0000;
    let x = (dx * r) / u;
    let y = (dy * r) / u;
    lemma_product_bound(dx, r, u, r);
    lemma_product_bound(dy, r, u, r);
    lemma_scaled_part(dx, r, u);
    lemma_scaled_part(dy, r, u);
    let ax = dx * r;
    let ay = dy * r;
    assert(u * r == r * u) by (nonlinear_arith);
    lemma_square_near(ax, u, x, ax - u * x, r);
    lemma_square_near(ay, u, y, ay - u * y, r);
    assert(ax * ax + ay * ay == r * r * (dx * dx + dy * dy)) by (nonlinear_arith)
        requires
            ax == dx * r,
            ay == dy * r,
    ;
    let norm = dx * dx + dy * dy;
    assert(r * r * (u * u - 4 * u) <= r * r * norm <= r * r * (u * u + 5 * u))
        by (nonlinear_arith)
        requires
            u * u - 4 * u <= norm <= u * u + 5 * u,
    ;
    let total = u * u * (x * x) + u * u * (y * y);
    let d = x * x + y * y;
    assert(total == u * u * d) by (nonlinear_arith)
        requires
            total == u * u * (x * x) + u * u * (y * y),
            d == x * x + y * y,
    ;
    let sx = u * u * (x * x);
    let sy = u * u * (y * y);
    let sq = ax * ax + ay * ay;
    let slack = 2 * (u * u) * r;
    assert(ax * ax - slack <= sx <= ax * ax + slack + u * u);
    assert(ay * ay - slack <= sy <= ay * ay + slack + u * u);
    assert(sq == r * r * norm);
    assert(2 * slack == 4 * (u * u) * r) by (nonlinear_arith)
        requires
            slack == 2 * (u * u) * r,
    ;
    assert(sq - 2 * slack <= total <= sq + 2 * slack + 2 * (u * u));
    // From above.
    assert(5 * (r * r) <= (2 * k - 4) * u * r) by (nonlinear_arith)
        requires
            (k == 4 && 0 <= r <= 0x1000_0000) || (k == 7 && 0 <= r <= 0x8000_0000),
            u == 0x4000_0000,
    ;
    assert(total <= u * u * ((r + k) * (r + k))) by (nonlinear_arith)
        requires
            total <= r * r * (u * u + 5 * u) + 4 * (u * u) * r + 2 * (u * u),
            5 * (r * r) <= (2 * k - 4) * u * r,
            r >= 0,
            k == 4 || k == 7,
            u == 0x4000_0000,
    ;
    assert(d <= (r + k) * (r + k)) by (nonlinear_arith)
        requires
            u * u * d <= u * u * ((r + k) * (r + k)),
            u > 0,
    ;
    // From below.
    if r >= 25 {
        assert(4 * (r * r) + k * k * u <= (2 * k - 4) * u * r) by (nonlinear_arith)
            requires
                (k == 4 && 25 <= r <= 0x1000_0000) || (k == 7 && 25 <= r <= 0x8000_0000),
                u == 0x4000_0000,
        ;
        assert(total >= u * u * ((r - k) * (r - k))) by (nonlinear_arith)
            requires
                total >= r * r * (u * u - 4 * u) - 4 * (u * u) * r,
                4 * (r * r) + k * k * u <= (2 * k - 4) * u * r,
                k == 4 || k == 7,
                u == 0x4000_0000,
        ;
        assert((r - k) * (r - k) <= d) by (nonlinear_arith)
            requires
                u * u * ((r - k) * (r - k)) <= u * u * d,
                u > 0,
        ;
    }
}

/// A boundary vertex lies between four fifths and six fifths of the base
/// radius from the origin: exactly so for a base radius from 25 m on, and
/// give or take 32 steps, half a millimetre, for every base radius. The
/// base radius must leave the boundary on the grid.
pub proof fn lemma_boundary_vertex_within(i: int, n: int, base_radius: int, w: u32)
    requires
        0 <= base_radius <= RADIUS_LIMIT,
    ensures
        ({
            let v = boundary_vertex(i, n, base_radius, w);
            let d = v.x * v.x + v.y * v.y;
            &&& 25 * d <= (6 * base_radius + 160) * (6 * base_radius + 160)
            &&& 4 * base_radius >= 160 ==> (4 * base_radius - 160) * (4 * base_radius - 160) <= 25
                * d
            &&& base_radius >= 0x19_0000 ==> 16 * (base_radius * base_radius) <= 25 * d <= 36 * (
            base_radius * base_radius)
        }),
{
    let big = base_radius;
    let dir = direction_of((i * TURN) / n);
    lemma_direction_norm((i * TURN) / n);
    let dx = dir.0;
    let dy = dir.1;
    // The change of the radius.
    let part = w as int / 512;
    assert(0 <= 26214 * part <= 219898943898) by (nonlinear_arith)
        requires
            0 <= part <= 0x7f_ffff,
    ;
    vstd::arithmetic::div_mod::lemma_div_is_ordered(0, 26214 * part, 0x80_0000);
    vstd::arithmetic::div_mod::lemma_div_is_ordered(
        26214 * part,
        219898943898int,
        0x80_0000,
    );
    let change = between_of(w, -13107, 13107);
    assert(-13107 <= change <= 13107);
    // The radius.
    let scaled = big * (ONE + change);
    assert(big * 52429 <= scaled <= big * 78643) by (nonlinear_arith)
        requires
            scaled == big * (65536 + change),
            -13107 <= change <= 13107,
            big >= 0,
    ;
    let r = scaled / (ONE as int);
    vstd::arithmetic::div_mod::lemma_fundamental_div_mod(scaled, ONE as int);
    vstd::arithmetic::div_mod::lemma_mod_bound(scaled, ONE as int);
    assert(0 <= r <= 0x7fff_0000);
    assert(4 * big - 5 <= 5 * r <= 6 * big);
    // The vertex.
    let k: int = if r <= 0x1000_0000 {
        4
    } else {
        7
    };
    lemma_scaled_norm(dx, dy, r, k);
    let x = (dx * r) / (UNIT as int);
    let y = (dy * r) / (UNIT as int);
    let v = boundary_vertex(i, n, base_radius, w);
    assert(v.x == x && v.y == y);
    let d = x * x + y * y;
    assert(d >= 0) by (nonlinear_arith)
        requires
            d == x * x + y * y,
    ;
    // Give or take 32 steps.
    assert(25 * ((r + k) * (r + k)) <= (6 * big + 160) * (6 * big + 160)) by (nonlinear_arith)
        requires
            0 <= 5 * (r + k) <= 6 * big + 160,
    ;
    if 4 * big >= 160 {
        assert(r >= 25);
        assert((4 * big - 160) * (4 * big - 160) <= 25 * ((r - k) * (r - k)))
            by (nonlinear_arith)
            requires
                0 <= 4 * big - 160 <= 5 * (r - k),
        ;
    }
    // Exactly.
    if big >= 0x19_0000 {
        assert(4 * big <= 5 * (r - k));
        assert(5 * (r + k) <= 6 * big);
        assert(16 * (big * big) <= 25 * ((r - k) * (r - k))) by (nonlinear_arith)
            requires
                0 <= 4 * big <= 5 * (r - k),
        ;
        assert(25 * ((r + k) * (r + k)) <= 36 * (big * big)) by (nonlinear_arith)
            requires
                0 <= 5 * (r + k) <= 6 * big,
        ;
    }
}

/// The part `c / u` of `r`, rounded down, for a `c` within `u`.
proof fn lemma_scaled_part(c: int, r: int, u: int)
    requires
        u > 0,
        r >= 0,
        -u <= c <= u,
    ensures
        -r <= (c * r) / u <= r,
        0 <= c * r - u * ((c * r) / u) < u,
{
    assert(-(u * r) <= c * r <= u * r) by (nonlinear_arith)
        requires
            r >= 0,
            -u <= c <= u,
    ;
    vstd::arithmetic::div_mod::lemma_fundamental_div_mod(c * r, u);
    vstd::arithmetic::div_mod::lemma_mod_bound(c * r, u);
    assert(u * (-r) == -(u * r)) by (nonlinear_arith);
    vstd::arithmetic::div_mod::lemma_div_is_ordered(c * r, u * r, u);
    vstd::arithmetic::div_mod::lemma_div_is_ordered(u * (-r), c * r, u);
    vstd::arithmetic::div_mod::lemma_div_multiples_vanish(r, u);
    vstd::arithmetic::div_mod::lemma_div_multiples_vanish(-r, u);
}

/// The boundary of `n` vertices drawn from `stream`.
pub open spec fn boundary_ring(n: nat, base_radius: int, stream: Map<nat, u32>) -> Seq<Point> {
    Seq::new(n, |i: int| boundary_vertex(i, n as int, base_radius, stream[i as nat]))
}

/// All vertices of the ring lie between four fifths and six fifths of
/// the base radius from the origin: exactly so for a base radius from
/// 25 m on, and give or take 32 steps for every base radius.
pub open spec fn within_a_fifth(ring: Seq<Point>, base_radius: int) -> bool {
    forall|i: int|
        0 <= i < ring.len() ==> {
            let d = crate::geometry::norm_sq(#[trigger] ring[i]);
            &&& 25 * d <= (6 * base_radius + 160) * (6 * base_radius + 160)
            &&& 4 * base_radius >= 160 ==> (4 * base_radius - 160) * (4 * base_radius - 160) <= 25
                * d
            &&& base_radius >= 0x19_0000 ==> 16 * (base_radius * base_radius) <= 25 * d <= 36 * (
            base_radius * base_radius)
        }
}

/// Vertex `i` of `n` of the boundary for the word drawn for it.
pub fn boundary_corner(i: usize, n: usize, base_radius: i32, w: u32) -> (v: Point)
    requires
        n > 0,
    ensures
        v == boundary_vertex(i as int, n as int, base_radius as int, w),
{
    proof {
        lemma_product_bound(i as int, TURN as int, 0x1_0000_0000_0000_0000, TURN as int);
        assert(i * TURN >= 0) by (nonlinear_arith)
            requires
                i >= 0,
                TURN >= 0,
        ;
        vstd::arithmetic::div_mod::lemma_div_is_ordered(0, i * TURN, n as int);
        vstd::arithmetic::div_mod::lemma_div_is_ordered_by_denominator(i * TURN, 1, n as int);
    }
    let angle: i128 = ((i as i128) * 26_986_075_409) / (n as i128);
    let (c, s) = direction(angle);
    let change: i64 = word_between(w, -13107, 13107);
    proof {
        lemma_product_bound(base_radius as int, ONE + change, 0x8000_0000, 0x2_0000);
        vstd::arithmetic::div_mod::lemma_div_is_ordered(
            -0x1_0000_0000_0000int,
            base_radius * (ONE + change),
            ONE as int,
        );
        vstd::arithmetic::div_mod::lemma_div_is_ordered(
            base_radius * (ONE + change),
            0x1_0000_0000_0000int,
            ONE as int,
        );
    }
    let radius: i128 = div_floor((base_radius as i128) * ((ONE + change) as i128), 65536);
    proof {
        lemma_product_bound(c as int, radius as int, 0x4000_0000, 0x1_0000_0000);
        lemma_product_bound(s as int, radius as int, 0x4000_0000, 0x1_0000_0000);
    }
    let x = clamp_i32(div_floor((c as i128) * radius, 0x4000_0000));
    let y = clamp_i32(div_floor((s as i128) * radius, 0x4000_0000));
    Point { x, y }
}

/// A boundary polygon drawn from `rng`, one word for each vertex: the
/// vertices evenly spaced in angle round the origin, each at the base
/// radius changed by up to a fifth. For a base radius that leaves the
/// boundary on the grid, every vertex lies between four fifths and six
/// fifths of it from the origin.
pub fn boundary_from(rng: &mut StdRng, num_vertices: usize, base_radius: i32) -> (vertices: Vec<
    Point,
>)
    ensures
        vertices@ == boundary_ring(
            num_vertices as nat,
            base_radius as int,
            upcoming(*old(rng)),
        ),
        upcoming(*final(rng)) == advanced(upcoming(*old(rng)), num_vertices as nat),
        0 <= base_radius <= RADIUS_LIMIT ==> within_a_fifth(vertices@, base_radius as int),
{
    let ghost stream = upcoming(*rng);
    let mut vertices: Vec<Point> = Vec::new();
    let mut i: usize = 0;
    while i < num_vertices
        invariant
            i <= num_vertices,
            upcoming(*rng) == advanced(stream, i as nat),
            vertices@.len() == i,
            forall|k: int|
                0 <= k < i ==> vertices@[k] == boundary_vertex(
                    k,
                    num_vertices as int,
                    base_radius as int,
                    stream[k as nat],
                ),
        decreases num_vertices - i,
    {
        proof {
            lemma_stream_at(stream, i as nat);
            lemma_advanced_twice(stream, i as nat, 1);
        }
        let w = next_word(rng);
        vertices.push(boundary_corner(i, num_vertices, base_radius, w));
        i = i + 1;
    }
    proof {
        assert(vertices@ =~= boundary_ring(
            num_vertices as nat,
            base_radius as int,
            stream,
        ));
        if 0 <= base_radius <= RADIUS_LIMIT {
            assert forall|i: int| 0 <= i < vertices@.len() implies {
                let d = crate::geometry::norm_sq(#[trigger] vertices@[i]);
                &&& 25 * d <= (6 * base_radius + 160) * (6 * base_radius + 160)
                &&& 4 * base_radius >= 160 ==> (4 * base_radius - 160) * (4 * base_radius - 160)
                    <= 25 * d
                &&& base_radius >= 0x19_0000 ==> 16 * (base_radius * base_radius) <= 25 * d <= 36
                    * (base_radius * base_radius)
            } by {
                lemma_boundary_vertex_within(
                    i,
                    num_vertices as int,
                    base_radius as int,
                    stream[i as nat],
                );
            }
        }
    }
    vertices
}

/// A boundary polygon drawn from a generator seeded with `seed`: the same
/// arguments give the same polygon. For a base radius that leaves the
/// boundary on the grid, every vertex lies between four fifths and six
/// fifths of it from the origin.
pub fn generate_boundary_polygon(num_vertices: usize, base_radius: i32, seed: u64) -> (vertices:
    Vec<Point>)
    ensures
        vertices@ == boundary_ring(num_vertices as nat, base_radius as int, seeded_stream(seed)),
        0 <= base_radius <= RADIUS_LIMIT ==> within_a_fifth(vertices@, base_radius as int),
{
    let mut rng = seeded(seed);
    boundary_from(&mut rng, num_vertices, base_radius)
}

/// Edges of this length or less get no generators: a thousandth of a
/// metre.
pub const SHORT_EDGE: i64 = 65;

/// A stretch of road of this length or less gets no generators: a tenth
/// of a metre.
pub const SHORT_STRETCH: i64 = 6553;

/// The number of equal segments into which an edge of length `len` is
/// divided: the length by the spacing, rounded down, and at least one.
pub open spec fn segments_on(len: int, spacing: int) -> int {
    if spacing <= 0 || len / spacing < 1 {
        1
    } else {
        len / spacing
    }
}

/// The point at the fraction `num / den` of the way from `p` to `q`,
/// rounded down.
pub open spec fn point_between(p: Point, q: Point, num: int, den: int) -> (int, int) {
    (p.x + (num * (q.x - p.x)) / den, p.y + (num * (q.y - p.y)) / den)
}

/// The point at `offset` from `base` along the unit direction `(nx, ny)`.
pub open spec fn offset_point(base: (int, int), nx: int, ny: int, offset: int) -> Point {
    Point {
        x: on_grid(base.0 + (nx * offset) / (UNIT as int)),
        y: on_grid(base.1 + (ny * offset) / (UNIT as int)),
    }
}

/// The unit normal of the edge from `p` to `q` that points inwards: the
/// left normal of a counter-clockwise ring, the right one otherwise.
pub open spec fn inward_normal(p: Point, q: Point, ccw: bool) -> (int, int) {
    let ux = unit_part(q.x - p.x, q.x - p.x, q.y - p.y);
    let uy = unit_part(q.y - p.y, q.x - p.x, q.y - p.y);
    if ccw {
        (-uy, ux)
    } else {
        (uy, -ux)
    }
}

/// The first `j` pairs of generators along the edge from `p` to `q`: at
/// the middle of each segment, one inside and one outside.
pub open spec fn edge_generators(
    p: Point,
    q: Point,
    ccw: bool,
    spacing: int,
    inner: int,
    outer: int,
    j: int,
) -> Seq<Point>
    decreases j,
{
    if j <= 0 {
        Seq::empty()
    } else {
        let num = segments_on(length(q.x - p.x, q.y - p.y), spacing);
        let n = inward_normal(p, q, ccw);
        let base = point_between(p, q, 2 * (j - 1) + 1, 2 * num);
        edge_generators(p, q, ccw, spacing, inner, outer, j - 1).push(
            offset_point(base, n.0, n.1, inner),
        ).push(offset_point(base, -n.0, -n.1, outer))
    }
}

/// The generators along the first `k` edges of the boundary.
pub open spec fn boundary_generators_among(
    poly: Seq<Point>,
    spacing: int,
    inner: int,
    outer: int,
    k: int,
) -> Seq<Point>
    decreases k,
{
    if k <= 0 {
        Seq::empty()
    } else {
        let before = boundary_generators_among(poly, spacing, inner, outer, k - 1);
        let p = poly[k - 1];
        let q = poly[next_index(poly.len() as int, k - 1)];
        let len = length(q.x - p.x, q.y - p.y);
        if len > SHORT_EDGE {
            before + edge_generators(
                p,
                q,
                twice_area(poly) > 0,
                spacing,
                inner,
                outer,
                segments_on(len, spacing),
            )
        } else {
            before
        }
    }
}

fn shifted(bx: i64, by: i64, nx: i64, ny: i64, offset: i32) -> (r: Point)
    requires
        -0x10_0000_0000 <= bx <= 0x10_0000_0000,
        -0x10_0000_0000 <= by <= 0x10_0000_0000,
        -UNIT <= nx <= UNIT,
        -UNIT <= ny <= UNIT,
    ensures
        r == offset_point((bx as int, by as int), nx as int, ny as int, offset as int),
{
    proof {
        lemma_product_bound(nx as int, offset as int, 0x4000_0000, 0x8000_0000);
        lemma_product_bound(ny as int, offset as int, 0x4000_0000, 0x8000_0000);
        vstd::arithmetic::div_mod::lemma_div_is_ordered(
            -0x2000_0000_0000_0000int,
            nx * offset,
            0x4000_0000,
        );
        vstd::arithmetic::div_mod::lemma_div_is_ordered(
            nx * offset,
            0x2000_0000_0000_0000int,
            0x4000_0000,
        );
        vstd::arithmetic::div_mod::lemma_div_is_ordered(
            -0x2000_0000_0000_0000int,
            ny * offset,
            0x4000_0000,
        );
        vstd::arithmetic::div_mod::lemma_div_is_ordered(
            ny * offset,
            0x2000_0000_0000_0000int,
            0x4000_0000,
        );
    }
    let ox: i128 = div_floor((nx as i128) * (offset as i128), 0x4000_0000);
    let oy: i128 = div_floor((ny as i128) * (offset as i128), 0x4000_0000);
    Point { x: clamp_i32(bx as i128 + ox), y: clamp_i32(by as i128 + oy) }
}

fn between(p: Point, q: Point, num: i64, den: i64) -> (r: (i64, i64))
    requires
        0 <= num <= den,
        0 < den <= 0x8_0000_0000,
    ensures
        (r.0 as int, r.1 as int) == point_between(p, q, num as int, den as int),
        -0x8000_0000 <= r.0 <= 0x8000_0000,
        -0x8000_0000 <= r.1 <= 0x8000_0000,
{
    let ex: i64 = q.x as i64 - p.x as i64;
    let ey: i64 = q.y as i64 - p.y as i64;
    proof {
        lemma_product_bound(num as int, ex as int, 0x8_0000_0000, 0x1_0000_0000);
        lemma_product_bound(num as int, ey as int, 0x8_0000_0000, 0x1_0000_0000);
        lemma_fraction_of(num as int, den as int, ex as int);
        lemma_fraction_of(num as int, den as int, ey as int);
    }
    let x: i128 = p.x as i128 + div_floor((num as i128) * (ex as i128), den as i128);
    let y: i128 = p.y as i128 + div_floor((num as i128) * (ey as i128), den as i128);
    (x as i64, y as i64)
}

/// Appends the generators along the edge from `p` to `q`.
fn place_along_edge(
    generators: &mut Vec<Point>,
    p: Point,
    q: Point,
    ccw: bool,
    spacing: i32,
    inner_offset: i32,
    len: i64,
)
    requires
        len == length(q.x - p.x, q.y - p.y),
        0 <= len <= 0x2_0000_0000,
    ensures
        final(generators)@ == old(generators)@ + edge_generators(
            p,
            q,
            ccw,
            spacing as int,
            inner_offset as int,
            BOUNDARY_GENERATOR_OUTER_OFFSET as int,
            segments_on(len as int, spacing as int),
        ),
{
    let ex: i64 = q.x as i64 - p.x as i64;
    let ey: i64 = q.y as i64 - p.y as i64;
    let (ux, uy) = unit_vector(ex, ey);
    let (nx, ny): (i64, i64) = if ccw {
        (-uy, ux)
    } else {
        (uy, -ux)
    };
    let num: i64 = if spacing <= 0 || len / (spacing as i64) < 1 {
        1
    } else {
        len / (spacing as i64)
    };
    assert(num == segments_on(len as int, spacing as int));
    assert(1 <= num <= 0x2_0000_0000) by {
        if spacing > 0 {
            vstd::arithmetic::div_mod::lemma_div_is_ordered_by_denominator(
                len as int,
                1,
                spacing as int,
            );
        }
    }
    let ghost before = generators@;
    proof {
        assert(generators@ =~= before + Seq::<Point>::empty());
    }
    let mut j: i64 = 0;
    while j < num
        invariant
            0 <= j <= num,
            1 <= num <= 0x2_0000_0000,
            num == segments_on(length(q.x - p.x, q.y - p.y), spacing as int),
            -UNIT <= nx <= UNIT,
            -UNIT <= ny <= UNIT,
            (nx as int, ny as int) == inward_normal(p, q, ccw),
            generators@ == before + edge_generators(
                p,
                q,
                ccw,
                spacing as int,
                inner_offset as int,
                BOUNDARY_GENERATOR_OUTER_OFFSET as int,
                j as int,
            ),
        decreases num - j,
    {
        let (bx, by) = between(p, q, 2 * j + 1, 2 * num);
        generators.push(shifted(bx, by, nx, ny, inner_offset));
        generators.push(shifted(bx, by, -nx, -ny, BOUNDARY_GENERATOR_OUTER_OFFSET));
        proof {
            let e2 = edge_generators(
                p,
                q,
                ccw,
                spacing as int,
                inner_offset as int,
                BOUNDARY_GENERATOR_OUTER_OFFSET as int,
                j + 1,
            );
            assert(generators@ =~= before + e2);
        }
        j = j + 1;
    }
}

/// Fixed generators along the boundary. Each edge longer than a
/// thousandth of a metre is divided into equal segments of about the
/// spacing; at the middle of each segment stands one generator at
/// `inner_offset` inside the boundary and one at the outer offset outside
/// it. The winding of the polygon decides which side is inside.
pub fn generate_boundary_generators(
    boundary_polygon: &Vec<Point>,
    spacing: i32,
    inner_offset: i32,
) -> (generators: Vec<Point>)
    ensures
        generators@ == boundary_generators_among(
            boundary_polygon@,
            spacing as int,
            inner_offset as int,
            BOUNDARY_GENERATOR_OUTER_OFFSET as int,
            boundary_polygon@.len() as int,
        ),
{
    let n = boundary_polygon.len();
    let mut generators: Vec<Point> = Vec::new();
    let ccw = polygon_area(boundary_polygon) > 0;
    let mut i: usize = 0;
    while i < n
        invariant
            n == boundary_polygon.len(),
            i <= n,
            ccw == (twice_area(boundary_polygon@) > 0),
            generators@ == boundary_generators_among(
                boundary_polygon@,
                spacing as int,
                inner_offset as int,
                BOUNDARY_GENERATOR_OUTER_OFFSET as int,
                i as int,
            ),
        decreases n - i,
    {
        let k: usize = if i + 1 == n {
            0
        } else {
            i + 1
        };
        let p = boundary_polygon[i];
        let q = boundary_polygon[k];
        let len = vector_length(q.x as i64 - p.x as i64, q.y as i64 - p.y as i64);
        if len > SHORT_EDGE {
            place_along_edge(&mut generators, p, q, ccw, spacing, inner_offset, len);
        }
        i = i + 1;
    }
    generators
}

/// The first `j` of `pairs` pairs of generators along a stretch of the
/// road from `p` towards `q`: the stretch starts at `start` along the
/// edge and has the length `stretch`.
pub open spec fn stretch_generators(
    p: Point,
    q: Point,
    start: int,
    stretch: int,
    pairs: int,
    j: int,
) -> Seq<Point>
    decreases j,
{
    if j <= 0 {
        Seq::empty()
    } else {
        let ux = unit_part(q.x - p.x, q.x - p.x, q.y - p.y);
        let uy = unit_part(q.y - p.y, q.x - p.x, q.y - p.y);
        let along = start + (stretch * (j - 1)) / (pairs - 1);
        let base = (p.x + (ux * along) / (UNIT as int), p.y + (uy * along) / (UNIT as int));
        stretch_generators(p, q, start, stretch, pairs, j - 1).push(
            offset_point(base, -uy, ux, ROAD_GENERATOR_OFFSET as int),
        ).push(offset_point(base, uy, -ux, ROAD_GENERATOR_OFFSET as int))
    }
}

/// Where the stretch of segment `i` of a road of `n` points starts: a
/// corner distance behind every corner.
pub open spec fn stretch_start(i: int) -> int {
    if i > 0 {
        CORNER_CONSTRAINT_DISTANCE as int
    } else {
        0
    }
}

/// Where the stretch of segment `i` of a road of `n` points ends: a
/// corner distance before every corner.
pub open spec fn stretch_end(i: int, n: int, len: int) -> int {
    if i < n - 2 {
        len - CORNER_CONSTRAINT_DISTANCE
    } else {
        len
    }
}

/// The number of pairs on a stretch: one more than the stretch by the
/// spacing, rounded up.
pub open spec fn pairs_on(stretch: int) -> int {
    (stretch + ROAD_GENERATOR_SPACING - 1) / (ROAD_GENERATOR_SPACING as int) + 1
}

/// The generators along the first `k` segments of the road.
pub open spec fn road_generators_among(path: Seq<Point>, k: int) -> Seq<Point>
    decreases k,
{
    if k <= 0 {
        Seq::empty()
    } else {
        let before = road_generators_among(path, k - 1);
        let p = path[k - 1];
        let q = path[k];
        let len = length(q.x - p.x, q.y - p.y);
        let start = stretch_start(k - 1);
        let stretch = stretch_end(k - 1, path.len() as int, len) - start;
        if len > SHORT_EDGE && stretch > SHORT_STRETCH {
            before + stretch_generators(p, q, start, stretch, pairs_on(stretch), pairs_on(stretch))
        } else {
            before
        }
    }
}

/// The fixed generators along a road.
pub open spec fn road_generators(path: Seq<Point>) -> Seq<Point> {
    if path.len() < 2 {
        Seq::empty()
    } else {
        road_generators_among(path, path.len() - 1)
    }
}

/// Appends the generators along one stretch of the road.
fn place_along_stretch(generators: &mut Vec<Point>, p: Point, q: Point, start: i64, stretch: i64)
    requires
        0 <= start <= 0x2_0000,
        SHORT_STRETCH < stretch <= 0x2_0000_0000,
    ensures
        final(generators)@ == old(generators)@ + stretch_generators(
            p,
            q,
            start as int,
            stretch as int,
            pairs_on(stretch as int),
            pairs_on(stretch as int),
        ),
{
    let (ux, uy) = unit_vector(q.x as i64 - p.x as i64, q.y as i64 - p.y as i64);
    let pairs: i64 = (stretch + ROAD_GENERATOR_SPACING as i64 - 1) / (ROAD_GENERATOR_SPACING
        as i64) + 1;
    assert(pairs == pairs_on(stretch as int));
    assert(2 <= pairs <= 0x2_0000_0000) by {
        vstd::arithmetic::div_mod::lemma_div_is_ordered(
            ROAD_GENERATOR_SPACING as int,
            stretch + ROAD_GENERATOR_SPACING - 1,
            ROAD_GENERATOR_SPACING as int,
        );
        vstd::arithmetic::div_mod::lemma_div_is_ordered_by_denominator(
            stretch + ROAD_GENERATOR_SPACING - 1,
            1,
            ROAD_GENERATOR_SPACING as int,
        );
    }
    let ghost before = generators@;
    proof {
        assert(generators@ =~= before + Seq::<Point>::empty());
    }
    let mut j: i64 = 0;
    while j < pairs
        invariant
            0 <= j <= pairs,
            2 <= pairs <= 0x2_0000_0000,
            0 <= start <= 0x2_0000,
            SHORT_STRETCH < stretch <= 0x2_0000_0000,
            -UNIT <= ux <= UNIT,
            -UNIT <= uy <= UNIT,
            ux == unit_part(q.x - p.x, q.x - p.x, q.y - p.y),
            uy == unit_part(q.y - p.y, q.x - p.x, q.y - p.y),
            generators@ == before + stretch_generators(
                p,
                q,
                start as int,
                stretch as int,
                pairs as int,
                j as int,
            ),
        decreases pairs - j,
    {
        let along: i64 = start + walked(stretch, j, pairs - 1);
        proof {
            lemma_product_bound(ux as int, along as int, 0x4000_0000, 0x2_0002_0000);
            lemma_product_bound(uy as int, along as int, 0x4000_0000, 0x2_0002_0000);
            vstd::arithmetic::div_mod::lemma_div_is_ordered(
                -0x8000_8000_0000_0000int,
                ux * along,
                0x4000_0000,
            );
            vstd::arithmetic::div_mod::lemma_div_is_ordered(
                ux * along,
                0x8000_8000_0000_0000int,
                0x4000_0000,
            );
            vstd::arithmetic::div_mod::lemma_div_is_ordered(
                -0x8000_8000_0000_0000int,
                uy * along,
                0x4000_0000,
            );
            vstd::arithmetic::div_mod::lemma_div_is_ordered(
                uy * along,
                0x8000_8000_0000_0000int,
                0x4000_0000,
            );
        }
        let bx: i64 = p.x as i64 + div_floor((ux as i128) * (along as i128), 0x4000_0000) as i64;
        let by: i64 = p.y as i64 + div_floor((uy as i128) * (along as i128), 0x4000_0000) as i64;
        generators.push(shifted(bx, by, -uy, ux, ROAD_GENERATOR_OFFSET));
        generators.push(shifted(bx, by, uy, -ux, ROAD_GENERATOR_OFFSET));
        proof {
            let e2 = stretch_generators(
                p,
                q,
                start as int,
                stretch as int,
                pairs as int,
                j + 1,
            );
            assert(generators@ =~= before + e2);
        }
        j = j + 1;
    }
}

/// The part `j / last` of a stretch, rounded down.
fn walked(stretch: i64, j: i64, last: i64) -> (r: i64)
    requires
        0 <= j <= last,
        0 < last,
        0 <= stretch <= 0x2_0000_0000,
    ensures
        r == (stretch * j) / (last as int),
        0 <= r <= stretch,
{
    proof {
        lemma_fraction_of(j as int, last as int, stretch as int);
        lemma_product_bound(j as int, stretch as int, last as int, 0x2_0000_0000);
        assert(stretch * j == j * stretch) by (nonlinear_arith);
        assert(last * 0x2_0000_0000 <= 0x7fff_ffff_ffff_ffff * 0x2_0000_0000) by (nonlinear_arith)
            requires
                last <= 0x7fff_ffff_ffff_ffff,
        ;
    }
    (((j as i128) * (stretch as i128)) / (last as i128)) as i64
}

/// Fixed generators along a road: pairs of points to either side of each
/// segment, at regular intervals. A corner distance is kept free round
/// every corner of the path, and a stretch of a tenth of a metre or less
/// gets no generators.
pub fn generate_road_generators(road_path: &Vec<Point>) -> (generators: Vec<Point>)
    ensures
        generators@ == road_generators(road_path@),
{
    let n = road_path.len();
    let mut generators: Vec<Point> = Vec::new();
    if n < 2 {
        return generators;
    }
    let mut i: usize = 0;
    while i < n - 1
        invariant
            n == road_path.len(),
            n >= 2,
            i <= n - 1,
            generators@ == road_generators_among(road_path@, i as int),
        decreases n - 1 - i,
    {
        let p = road_path[i];
        let q = road_path[i + 1];
        let len = vector_length(q.x as i64 - p.x as i64, q.y as i64 - p.y as i64);
        let start: i64 = if i > 0 {
            CORNER_CONSTRAINT_DISTANCE as i64
        } else {
            0
        };
        let end: i64 = if i < n - 2 {
            len - CORNER_CONSTRAINT_DISTANCE as i64
        } else {
            len
        };
        let stretch: i64 = end - start;
        if len > SHORT_EDGE && stretch > SHORT_STRETCH {
            place_along_stretch(&mut generators, p, q, start, stretch);
        }
        i = i + 1;
    }
    generators
}

/// A cell whose doubled area is at most this counts as having none.
pub const NO_AREA: i128 = 1024;

/// The circumcentres of those of the first `k` faces that have `p` for a
/// corner, in the order of the faces.
pub open spec fn corners_round(p: Point, tris: Seq<Triangle>, k: int) -> Seq<Point>
    decreases k,
{
    if k <= 0 {
        Seq::empty()
    } else {
        let before = corners_round(p, tris, k - 1);
        let t = tris[k - 1];
        if touches(t, p) {
            before.push(circumcenter(t.a, t.b, t.c, CIRCUMCENTER_BOUND as int))
        } else {
            before
        }
    }
}

/// The sum of the first coordinates of the first `k` points.
pub open spec fn sum_x(s: Seq<Point>, k: int) -> int
    decreases k,
{
    if k <= 0 {
        0
    } else {
        sum_x(s, k - 1) + s[k - 1].x
    }
}

/// The sum of the second coordinates of the first `k` points.
pub open spec fn sum_y(s: Seq<Point>, k: int) -> int
    decreases k,
{
    if k <= 0 {
        0
    } else {
        sum_y(s, k - 1) + s[k - 1].y
    }
}

/// The mean of the points, rounded down.
pub open spec fn mean_point(s: Seq<Point>) -> Point {
    Point {
        x: on_grid(sum_x(s, s.len() as int) / (s.len() as int)),
        y: on_grid(sum_y(s, s.len() as int) / (s.len() as int)),
    }
}

/// The indices from zero up to `n`.
pub open spec fn counting(n: nat) -> Seq<usize> {
    Seq::new(n, |i: int| i as usize)
}

/// The points that the indices of `order` pick, in that order.
pub open spec fn ring_of(order: Seq<usize>, points: Seq<Point>) -> Seq<Point> {
    Seq::new(order.len(), |i: int| points[order[i] as int])
}

/// The cell of a point: the circumcentres of its faces, in the order of
/// their angle round their mean.
pub open spec fn cell_round(p: Point, tris: Seq<Triangle>) -> Seq<Point> {
    let corners = corners_round(p, tris, tris.len() as int);
    ring_of(angular_order(counting(corners.len()), corners, mean_point(corners)), corners)
}

/// Where one round of relaxation puts the point `p`: at the centroid of
/// its cell, limited to the canvas; where it stands, if the cell has
/// fewer than three corners or no area.
pub open spec fn relaxed_point(p: Point, tris: Seq<Triangle>, width: int, height: int) -> Point {
    let ring = cell_round(p, tris);
    let area = twice_area(ring);
    if ring.len() < 3 || magnitude(area) <= NO_AREA {
        p
    } else {
        let c = centroid_of(ring, area);
        Point {
            x: clamped(c.x as int, -width, width) as i32,
            y: clamped(c.y as int, -height, height) as i32,
        }
    }
}

/// The generators after one round of relaxation: each regular point
/// moved, then the fixed points as they are.
pub open spec fn relaxed(
    regular: Seq<Point>,
    fixed: Seq<Point>,
    tris: Seq<Triangle>,
    width: int,
    height: int,
) -> Seq<Point> {
    Seq::new(regular.len(), |i: int| relaxed_point(regular[i], tris, width, height)) + fixed
}

proof fn lemma_sums_bounded(s: Seq<Point>, k: int)
    requires
        0 <= k <= s.len(),
    ensures
        -(k * 0x8000_0000) <= sum_x(s, k) <= k * 0x8000_0000,
        -(k * 0x8000_0000) <= sum_y(s, k) <= k * 0x8000_0000,
    decreases k,
{
    if k > 0 {
        lemma_sums_bounded(s, k - 1);
    }
}

fn mean_of(points: &Vec<Point>) -> (m: Point)
    requires
        points.len() > 0,
    ensures
        m == mean_point(points@),
{
    let n = points.len();
    let mut sx: i128 = 0;
    let mut sy: i128 = 0;
    let mut k: usize = 0;
    while k < n
        invariant
            n == points.len(),
            k <= n,
            sx == sum_x(points@, k as int),
            sy == sum_y(points@, k as int),
        decreases n - k,
    {
        proof {
            lemma_sums_bounded(points@, k as int);
            lemma_sums_bounded(points@, k + 1);
        }
        sx = sx + points[k].x as i128;
        sy = sy + points[k].y as i128;
        k = k + 1;
    }
    proof {
        lemma_sums_bounded(points@, n as int);
    }
    Point { x: clamp_i32(div_floor(sx, n as i128)), y: clamp_i32(div_floor(sy, n as i128)) }
}

fn cell_of_point(p: Point, triangles: &Vec<Triangle>) -> (ring: Vec<Point>)
    ensures
        ring@ == cell_round(p, triangles@),
        ring@.len() <= triangles@.len(),
{
    let mut corners: Vec<Point> = Vec::new();
    let mut f: usize = 0;
    while f < triangles.len()
        invariant
            f <= triangles.len(),
            corners@ == corners_round(p, triangles@, f as int),
            corners@.len() <= f,
        decreases triangles.len() - f,
    {
        let t = &triangles[f];
        if t.a == p || t.b == p || t.c == p {
            corners.push(calculate_circumcenter(t.a, t.b, t.c));
        }
        f = f + 1;
    }
    let mut ring: Vec<Point> = Vec::new();
    if corners.len() == 0 {
        proof {
            assert(ring@ =~= cell_round(p, triangles@));
        }
        return ring;
    }
    let center = mean_of(&corners);
    let mut order: Vec<usize> = Vec::new();
    let mut i: usize = 0;
    while i < corners.len()
        invariant
            i <= corners.len(),
            order@ == counting(i as nat),
        decreases corners.len() - i,
    {
        order.push(i);
        proof {
            assert(order@ =~= counting((i + 1) as nat));
        }
        i = i + 1;
    }
    let sorted = sort_by_angle(&order, &corners, center);
    let mut k: usize = 0;
    while k < sorted.len()
        invariant
            k <= sorted.len(),
            forall|m: int| 0 <= m < sorted@.len() ==> sorted@[m] < corners.len(),
            ring@ == ring_of(sorted@.subrange(0, k as int), corners@),
        decreases sorted.len() - k,
    {
        ring.push(corners[sorted[k]]);
        proof {
            assert(ring@ =~= ring_of(sorted@.subrange(0, k + 1), corners@));
        }
        k = k + 1;
    }
    proof {
        assert(sorted@.subrange(0, sorted@.len() as int) =~= sorted@);
    }
    ring
}

fn relax_point(p: Point, triangles: &Vec<Triangle>, width: i32, height: i32) -> (r: Point)
    requires
        width >= 0,
        height >= 0,
        triangles.len() <= 0xffff_ffff,
    ensures
        r == relaxed_point(p, triangles@, width as int, height as int),
{
    let ring = cell_of_point(p, triangles);
    if ring.len() < 3 {
        return p;
    }
    let area = polygon_area(&ring);
    if area <= NO_AREA && area >= -NO_AREA {
        return p;
    }
    proof {
        lemma_area_bound(ring@);
    }
    let c = polygon_centroid(&ring, area);
    Point {
        x: clamp_between(c.x as i128, -(width as i64), width as i64) as i32,
        y: clamp_between(c.y as i128, -(height as i64), height as i64) as i32,
    }
}

/// One round of constrained relaxation, given the Delaunay triangulation
/// of all the generators. Each regular point moves to the centroid of
/// its cell, limited to the canvas; a point whose cell has fewer than
/// three corners or no area stays. The fixed points follow the regular
/// ones, unchanged and in their order.
pub fn prelax(
    regular_points: Vec<Point>,
    fixed_points: Vec<Point>,
    triangles: &Vec<Triangle>,
    width: i32,
    height: i32,
) -> (r: Vec<Point>)
    requires
        width >= 0,
        height >= 0,
        triangles.len() <= 0xffff_ffff,
    ensures
        r@ == relaxed(
            regular_points@,
            fixed_points@,
            triangles@,
            width as int,
            height as int,
        ),
        r@.len() == regular_points@.len() + fixed_points@.len(),
        r@.subrange(regular_points@.len() as int, r@.len() as int) == fixed_points@,
{
    let mut out: Vec<Point> = Vec::new();
    let mut i: usize = 0;
    while i < regular_points.len()
        invariant
            i <= regular_points.len(),
            width >= 0,
            height >= 0,
            triangles.len() <= 0xffff_ffff,
            out@.len() == i,
            forall|k: int|
                0 <= k < i ==> out@[k] == relaxed_point(
                    regular_points@[k],
                    triangles@,
                    width as int,
                    height as int,
                ),
        decreases regular_points.len() - i,
    {
        out.push(relax_point(regular_points[i], triangles, width, height));
        i = i + 1;
    }
    let ghost moved = out@;
    let mut j: usize = 0;
    while j < fixed_points.len()
        invariant
            j <= fixed_points.len(),
            out@ == moved + fixed_points@.subrange(0, j as int),
        decreases fixed_points.len() - j,
    {
        out.push(fixed_points[j]);
        proof {
            assert(out@ =~= moved + fixed_points@.subrange(0, j + 1));
        }
        j = j + 1;
    }
    proof {
        assert(fixed_points@.subrange(0, fixed_points@.len() as int) =~= fixed_points@);
        assert(out@ =~= relaxed(
            regular_points@,
            fixed_points@,
            triangles@,
            width as int,
            height as int,
        ));
        assert(out@.subrange(regular_points@.len() as int, out@.len() as int)
            =~= fixed_points@);
    }
    out
}

} // verus!
