//! Voronoi cells from a Delaunay triangulation of the generators.
use vstd::prelude::*;
use crate::fixed::clamp_i32;
use crate::fixed::div_floor;
use crate::fixed::lemma_product_bound;
use crate::fixed::prod;
use crate::geometry::circumcenter;
use crate::geometry::circumcenter_within;
use crate::geometry::on_grid;
use crate::geometry::triangle_centroid;
use crate::geometry::inside;
use crate::geometry::point_in_polygon;
use crate::geometry::Point;
use crate::skeleton::SkeletonData;
use crate::subdivision::copy_of;

verus! {

/// A face of the triangulation: its corners, counter-clockwise, and
/// whether one of its edges lies on the outer boundary of the
/// triangulation.
#[derive(Clone, Copy, PartialEq, Eq, Structural, Debug)]
pub struct Triangle {
    pub a: Point,
    pub b: Point,
    pub c: Point,
    pub on_hull: bool,
}

/// Five times `v`, limited to the range of a coordinate.
pub open spec fn fivefold(v: int) -> int {
    crate::fixed::clamped(5 * v, i32::MIN as int, i32::MAX as int)
}

/// The corner of the diagram that the face `t` gives: its circumcentre,
/// or its centroid where the circumcentre lies beyond twice the canvas in
/// either coordinate.
pub open spec fn face_center(t: Triangle, width: int, height: int) -> Point {
    let u = circumcenter(t.a, t.b, t.c, fivefold(width));
    if -2 * width <= u.x <= 2 * width && -2 * height <= u.y <= 2 * height {
        u
    } else {
        triangle_centroid(t.a, t.b, t.c)
    }
}

/// The corners that the faces give, in the order of the faces.
pub open spec fn face_centers(tris: Seq<Triangle>, width: int, height: int) -> Seq<Point> {
    Seq::new(tris.len(), |i: int| face_center(tris[i], width, height))
}

/// The squared distance between two points.
pub open spec fn dist_sq(p: Point, q: Point) -> int {
    (p.x - q.x) * (p.x - q.x) + (p.y - q.y) * (p.y - q.y)
}

/// `p` and `q` lie closer together than the threshold.
pub open spec fn near(p: Point, q: Point, threshold: int) -> bool {
    threshold > 0 && dist_sq(p, q) < threshold * threshold
}

/// The first point from `i` on that leads a cluster and lies near point
/// `j`; `j` itself where there is none before it.
pub open spec fn first_seed_near(c: Seq<Point>, threshold: int, j: int, i: int) -> int
    decreases j, j - i,
{
    if i < 0 || i >= j {
        j
    } else if seed_of(c, threshold, i) == i && near(c[i], c[j], threshold) {
        i
    } else {
        first_seed_near(c, threshold, j, i + 1)
    }
}

/// The point that leads the cluster of point `j`: the first leading point
/// near it, or `j` itself.
pub open spec fn seed_of(c: Seq<Point>, threshold: int, j: int) -> int
    decreases j, j + 1,
{
    if j < 0 {
        j
    } else {
        first_seed_near(c, threshold, j, 0)
    }
}

/// The number of clusters that are led by one of the first `j` points.
pub open spec fn seeds_before(c: Seq<Point>, threshold: int, j: int) -> nat
    decreases j,
{
    if j <= 0 {
        0
    } else if seed_of(c, threshold, j - 1) == j - 1 {
        seeds_before(c, threshold, j - 1) + 1
    } else {
        seeds_before(c, threshold, j - 1)
    }
}

/// The number of the cluster of point `j`.
pub open spec fn cluster_of(c: Seq<Point>, threshold: int, j: int) -> nat {
    seeds_before(c, threshold, seed_of(c, threshold, j))
}

/// The number of members of the cluster led by `s` among the first `k`
/// points.
pub open spec fn members(c: Seq<Point>, threshold: int, s: int, k: int) -> int
    decreases k,
{
    if k <= 0 {
        0
    } else if seed_of(c, threshold, k - 1) == s {
        members(c, threshold, s, k - 1) + 1
    } else {
        members(c, threshold, s, k - 1)
    }
}

/// The sum of the first coordinates of those members.
pub open spec fn members_x(c: Seq<Point>, threshold: int, s: int, k: int) -> int
    decreases k,
{
    if k <= 0 {
        0
    } else if seed_of(c, threshold, k - 1) == s {
        members_x(c, threshold, s, k - 1) + c[k - 1].x
    } else {
        members_x(c, threshold, s, k - 1)
    }
}

/// The sum of the second coordinates of those members.
pub open spec fn members_y(c: Seq<Point>, threshold: int, s: int, k: int) -> int
    decreases k,
{
    if k <= 0 {
        0
    } else if seed_of(c, threshold, k - 1) == s {
        members_y(c, threshold, s, k - 1) + c[k - 1].y
    } else {
        members_y(c, threshold, s, k - 1)
    }
}

/// The mean of the cluster led by `s`, rounded down.
pub open spec fn cluster_mean(c: Seq<Point>, threshold: int, s: int) -> Point {
    let n = c.len() as int;
    let count = members(c, threshold, s, n);
    if count <= 0 {
        c[s]
    } else {
        Point {
            x: on_grid(members_x(c, threshold, s, n) / count),
            y: on_grid(members_y(c, threshold, s, n) / count),
        }
    }
}

/// The means of the clusters led by one of the first `k` points, in the
/// order of their leading points.
pub open spec fn merged_among(c: Seq<Point>, threshold: int, k: int) -> Seq<Point>
    decreases k,
{
    if k <= 0 {
        Seq::empty()
    } else if seed_of(c, threshold, k - 1) == k - 1 {
        merged_among(c, threshold, k - 1).push(cluster_mean(c, threshold, k - 1))
    } else {
        merged_among(c, threshold, k - 1)
    }
}

/// The merged corners: one for each cluster.
pub open spec fn merged(c: Seq<Point>, threshold: int) -> Seq<Point> {
    merged_among(c, threshold, c.len() as int)
}

/// The leading point of a cluster is not behind its member.
pub proof fn lemma_seed_not_behind(c: Seq<Point>, threshold: int, j: int, i: int)
    requires
        0 <= i <= j,
    ensures
        i <= first_seed_near(c, threshold, j, i) <= j,
        first_seed_near(c, threshold, j, i) < j ==> {
            let s = first_seed_near(c, threshold, j, i);
            seed_of(c, threshold, s) == s && near(c[s], c[j], threshold)
        },
    decreases j - i,
{
    if i < j && !(seed_of(c, threshold, i) == i && near(c[i], c[j], threshold)) {
        lemma_seed_not_behind(c, threshold, j, i + 1);
    }
}

/// A leading point leads itself, and every point lies near the point that
/// leads its cluster.
pub proof fn lemma_seed_leads(c: Seq<Point>, threshold: int, j: int)
    requires
        0 <= j,
    ensures
        ({
            let s = seed_of(c, threshold, j);
            &&& 0 <= s <= j
            &&& seed_of(c, threshold, s) == s
            &&& s != j ==> near(c[s], c[j], threshold)
        }),
{
    lemma_seed_not_behind(c, threshold, j, 0);
}

proof fn lemma_no_seed_near_before(c: Seq<Point>, threshold: int, j: int, i: int, k: int)
    requires
        0 <= i <= k < first_seed_near(c, threshold, j, i),
        first_seed_near(c, threshold, j, i) <= j,
    ensures
        !(seed_of(c, threshold, k) == k && near(c[k], c[j], threshold)),
    decreases j - i,
{
    if i < j {
        if seed_of(c, threshold, i) == i && near(c[i], c[j], threshold) {
        } else if k > i {
            lemma_no_seed_near_before(c, threshold, j, i + 1, k);
        }
    }
}

/// No two leading points lie closer together than the threshold.
pub proof fn lemma_seeds_apart(c: Seq<Point>, threshold: int, s: int, t: int)
    requires
        0 <= s < t,
        seed_of(c, threshold, s) == s,
        seed_of(c, threshold, t) == t,
    ensures
        !near(c[s], c[t], threshold),
{
    lemma_seed_not_behind(c, threshold, t, 0);
    lemma_no_seed_near_before(c, threshold, t, 0, s);
}

fn is_near(p: Point, q: Point, threshold: i32) -> (r: bool)
    ensures
        r == near(p, q, threshold as int),
{
    let dx: i64 = p.x as i64 - q.x as i64;
    let dy: i64 = p.y as i64 - q.y as i64;
    proof {
        lemma_product_bound(dx as int, dx as int, 0x1_0000_0000, 0x1_0000_0000);
        lemma_product_bound(dy as int, dy as int, 0x1_0000_0000, 0x1_0000_0000);
    }
    threshold > 0 && prod(dx, dx) + prod(dy, dy) < prod(threshold as i64, threshold as i64)
}

/// For each point, the point that leads its cluster.
fn cluster_seeds(centers: &Vec<Point>, threshold: i32) -> (seeds: Vec<usize>)
    ensures
        seeds@.len() == centers@.len(),
        forall|j: int|
            0 <= j < seeds@.len() ==> seeds@[j] == seed_of(centers@, threshold as int, j),
{
    let n = centers.len();
    let mut seeds: Vec<usize> = Vec::new();
    let mut j: usize = 0;
    while j < n
        invariant
            n == centers.len(),
            j <= n,
            seeds@.len() == j,
            forall|k: int| 0 <= k < j ==> seeds@[k] == seed_of(centers@, threshold as int, k),
        decreases n - j,
    {
        let mut found: usize = j;
        let mut i: usize = 0;
        while i < found
            invariant
                j < n,
                n == centers.len(),
                seeds@.len() == j,
                i <= found <= j,
                i < found ==> found == j,
                forall|k: int| 0 <= k < j ==> seeds@[k] == seed_of(centers@, threshold as int, k),
                found == j ==> seed_of(centers@, threshold as int, j as int) == first_seed_near(
                    centers@,
                    threshold as int,
                    j as int,
                    i as int,
                ),
                found < j ==> seed_of(centers@, threshold as int, j as int) == found,
            decreases found - i, j - found,
        {
            proof {
                assert(seeds@[i as int] == seed_of(centers@, threshold as int, i as int));
            }
            if seeds[i] == i && is_near(centers[i], centers[j], threshold) {
                proof {
                    assert(first_seed_near(centers@, threshold as int, j as int, i as int) == i);
                }
                found = i;
            } else {
                proof {
                    assert(first_seed_near(centers@, threshold as int, j as int, i as int)
                        == first_seed_near(centers@, threshold as int, j as int, i + 1));
                }
                i = i + 1;
            }
        }
        seeds.push(found);
        j = j + 1;
    }
    seeds
}

proof fn lemma_member_sums(c: Seq<Point>, threshold: int, s: int, k: int)
    requires
        0 <= k <= c.len(),
    ensures
        0 <= members(c, threshold, s, k) <= k,
        -(k * 0x8000_0000) <= members_x(c, threshold, s, k) <= k * 0x8000_0000,
        -(k * 0x8000_0000) <= members_y(c, threshold, s, k) <= k * 0x8000_0000,
    decreases k,
{
    if k > 0 {
        lemma_member_sums(c, threshold, s, k - 1);
    }
}

/// The mean of the cluster that point `s` leads.
fn mean_of_cluster(centers: &Vec<Point>, seeds: &Vec<usize>, threshold: i32, s: usize) -> (m:
    Point)
    requires
        s < centers.len(),
        seeds@.len() == centers@.len(),
        forall|j: int|
            0 <= j < seeds@.len() ==> seeds@[j] == seed_of(centers@, threshold as int, j),
    ensures
        m == cluster_mean(centers@, threshold as int, s as int),
{
    let n = centers.len();
    let mut count: usize = 0;
    let mut sum_x: i128 = 0;
    let mut sum_y: i128 = 0;
    let mut k: usize = 0;
    while k < n
        invariant
            n == centers.len(),
            seeds@.len() == n,
            k <= n,
            forall|j: int|
                0 <= j < seeds@.len() ==> seeds@[j] == seed_of(centers@, threshold as int, j),
            count == members(centers@, threshold as int, s as int, k as int),
            sum_x == members_x(centers@, threshold as int, s as int, k as int),
            sum_y == members_y(centers@, threshold as int, s as int, k as int),
        decreases n - k,
    {
        proof {
            lemma_member_sums(centers@, threshold as int, s as int, k as int);
            lemma_member_sums(centers@, threshold as int, s as int, k + 1);
            assert(seeds@[k as int] == seed_of(centers@, threshold as int, k as int));
        }
        if seeds[k] == s {
            count = count + 1;
            sum_x = sum_x + centers[k].x as i128;
            sum_y = sum_y + centers[k].y as i128;
        }
        k = k + 1;
    }
    proof {
        lemma_member_sums(centers@, threshold as int, s as int, n as int);
    }
    if count == 0 {
        centers[s]
    } else {
        Point {
            x: clamp_i32(div_floor(sum_x, count as i128)),
            y: clamp_i32(div_floor(sum_y, count as i128)),
        }
    }
}

/// Merges the corners that lie closer together than the threshold. Each
/// corner joins the first cluster whose leading corner lies near it, or
/// leads a new one; each cluster collapses to its mean. Gives the merged
/// corners and, for each corner, the index of its cluster.
pub fn merge_centers(centers: &Vec<Point>, threshold: i32) -> (r: (Vec<Point>, Vec<usize>))
    ensures
        r.0@ == merged(centers@, threshold as int),
        r.1@.len() == centers@.len(),
        forall|j: int|
            0 <= j < r.1@.len() ==> #[trigger] r.1@[j] == cluster_of(
                centers@,
                threshold as int,
                j,
            ) && r.1@[j] < r.0@.len(),
        r.0@.len() <= centers@.len(),
{
    let n = centers.len();
    let seeds = cluster_seeds(centers, threshold);
    let mut points: Vec<Point> = Vec::new();
    let mut mapping: Vec<usize> = Vec::new();
    let mut j: usize = 0;
    while j < n
        invariant
            n == centers.len(),
            seeds@.len() == n,
            j <= n,
            forall|k: int|
                0 <= k < seeds@.len() ==> seeds@[k] == seed_of(centers@, threshold as int, k),
            points@ == merged_among(centers@, threshold as int, j as int),
            points@.len() == seeds_before(centers@, threshold as int, j as int),
            points@.len() <= j,
            mapping@.len() == j,
            forall|k: int|
                0 <= k < j ==> #[trigger] mapping@[k] == cluster_of(
                    centers@,
                    threshold as int,
                    k,
                ) && mapping@[k] < points@.len(),
        decreases n - j,
    {
        proof {
            assert(seeds@[j as int] == seed_of(centers@, threshold as int, j as int));
            lemma_seed_leads(centers@, threshold as int, j as int);
        }
        if seeds[j] == j {
            let m = mean_of_cluster(centers, &seeds, threshold, j);
            mapping.push(points.len());
            points.push(m);
        } else {
            let lead = seeds[j];
            let at = mapping[lead];
            proof {
                assert(mapping@[lead as int] == cluster_of(
                    centers@,
                    threshold as int,
                    lead as int,
                ));
            }
            mapping.push(at);
        }
        j = j + 1;
    }
    (points, mapping)
}

/// The face `t` has `g` for a corner.
pub open spec fn touches(t: Triangle, g: Point) -> bool {
    t.a == g || t.b == g || t.c == g
}

/// The corners of the cell of the generator at `g`, from the first `k`
/// faces: the cluster of each face that has `g` for a corner, once, in
/// the order of the faces.
pub open spec fn cell_corners(g: Point, tris: Seq<Triangle>, mapping: Seq<usize>, k: int) -> Seq<
    usize,
>
    decreases k,
{
    if k <= 0 {
        Seq::empty()
    } else {
        let before = cell_corners(g, tris, mapping, k - 1);
        if touches(tris[k - 1], g) && !before.contains(mapping[k - 1]) {
            before.push(mapping[k - 1])
        } else {
            before
        }
    }
}

/// One of the first `k` faces has `g` for a corner and an edge on the
/// outer boundary of the triangulation.
pub open spec fn at_hull(g: Point, tris: Seq<Triangle>, k: int) -> bool
    decreases k,
{
    k > 0 && (at_hull(g, tris, k - 1) || (touches(tris[k - 1], g) && tris[k - 1].on_hull))
}

/// `p` lies further from the origin than three times the canvas width.
pub open spec fn far_out(p: Point, width: int) -> bool {
    p.x * p.x + p.y * p.y > (3 * width) * (3 * width)
}

/// One of the first `k` corners of the cell lies far out.
pub open spec fn any_far_out(cell: Seq<usize>, points: Seq<Point>, width: int, k: int) -> bool
    decreases k,
{
    k > 0 && (any_far_out(cell, points, width, k - 1) || far_out(
        points[cell[k - 1] as int],
        width,
    ))
}

/// The cell of the generator at `g` is kept: it has three corners, the
/// generator lies inside the boundary, none of its faces lies on the
/// outer boundary of the triangulation, and none of its corners lies far
/// out.
pub open spec fn keeps_cell(
    g: Point,
    tris: Seq<Triangle>,
    cell: Seq<usize>,
    points: Seq<Point>,
    boundary: Seq<Point>,
    width: int,
) -> bool {
    &&& cell.len() >= 3
    &&& inside(g, boundary)
    &&& !at_hull(g, tris, tris.len() as int)
    &&& !any_far_out(cell, points, width, cell.len() as int)
}

/// The part of the plane round a centre in which a direction lies, in
/// the order of the angle from minus a half turn, exclusive, to a half
/// turn, inclusive.
pub open spec fn sector(dx: int, dy: int) -> int {
    if dy < 0 {
        0
    } else if dy > 0 {
        2
    } else if dx >= 0 {
        1
    } else {
        3
    }
}

/// The direction `a` has a smaller angle than the direction `b`.
pub open spec fn turns_before(ax: int, ay: int, bx: int, by: int) -> bool {
    sector(ax, ay) < sector(bx, by) || (sector(ax, ay) == sector(bx, by) && ax * by - bx * ay
        > 0)
}

/// Seen from `g`, corner `i` has a smaller angle than corner `j`.
pub open spec fn comes_before(points: Seq<Point>, g: Point, i: usize, j: usize) -> bool {
    turns_before(
        points[i as int].x - g.x,
        points[i as int].y - g.y,
        points[j as int].x - g.x,
        points[j as int].y - g.y,
    )
}

/// The ordered ring `s` with `x` placed behind every corner that does not
/// come after it.
pub open spec fn placed(s: Seq<usize>, x: usize, points: Seq<Point>, g: Point) -> Seq<usize>
    decreases s.len(),
{
    if s.len() == 0 || !comes_before(points, g, x, s.last()) {
        s.push(x)
    } else {
        placed(s.drop_last(), x, points, g).push(s.last())
    }
}

/// The corners of a cell in the order of their angle round `g`; corners
/// of the same angle keep their order.
pub open spec fn angular_order(cell: Seq<usize>, points: Seq<Point>, g: Point) -> Seq<usize>
    decreases cell.len(),
{
    if cell.len() == 0 {
        cell
    } else {
        placed(angular_order(cell.drop_last(), points, g), cell.last(), points, g)
    }
}

/// `ring` is the cell of the generator at `g`, which is kept, in angular
/// order.
pub open spec fn owns_cell(
    g: Point,
    tris: Seq<Triangle>,
    mapping: Seq<usize>,
    points: Seq<Point>,
    boundary: Seq<Point>,
    width: int,
    ring: Seq<usize>,
) -> bool {
    let cell = cell_corners(g, tris, mapping, tris.len() as int);
    keeps_cell(g, tris, cell, points, boundary, width) && ring == angular_order(cell, points, g)
}

/// The cells of the first `k` generators that are kept, in the order of
/// the generators, each in angular order.
pub open spec fn cells_among(
    gens: Seq<Point>,
    tris: Seq<Triangle>,
    mapping: Seq<usize>,
    points: Seq<Point>,
    boundary: Seq<Point>,
    width: int,
    k: int,
) -> Seq<Seq<usize>>
    decreases k,
{
    if k <= 0 {
        Seq::empty()
    } else {
        let before = cells_among(gens, tris, mapping, points, boundary, width, k - 1);
        let g = gens[k - 1];
        let cell = cell_corners(g, tris, mapping, tris.len() as int);
        if keeps_cell(g, tris, cell, points, boundary, width) {
            before.push(angular_order(cell, points, g))
        } else {
            before
        }
    }
}

/// The corners of the diagram: the merged centres of the faces.
pub open spec fn diagram_points(
    tris: Seq<Triangle>,
    threshold: int,
    width: int,
    height: int,
) -> Seq<Point> {
    merged(face_centers(tris, width, height), threshold)
}

/// For each face, the corner of the diagram that it gives.
pub open spec fn diagram_mapping(
    tris: Seq<Triangle>,
    threshold: int,
    width: int,
    height: int,
) -> Seq<usize> {
    Seq::new(
        tris.len(),
        |j: int| cluster_of(face_centers(tris, width, height), threshold, j) as usize,
    )
}

/// The cells of the diagram.
pub open spec fn diagram_cells(
    gens: Seq<Point>,
    tris: Seq<Triangle>,
    boundary: Seq<Point>,
    threshold: int,
    width: int,
    height: int,
) -> Seq<Seq<usize>> {
    cells_among(
        gens,
        tris,
        diagram_mapping(tris, threshold, width, height),
        diagram_points(tris, threshold, width, height),
        boundary,
        width,
        gens.len() as int,
    )
}

/// The rings of indices that the cells of `v` stand for.
pub open spec fn index_rings(v: Seq<Vec<usize>>) -> Seq<Seq<usize>> {
    Seq::new(v.len(), |i: int| v[i]@)
}

/// Placing a corner puts it at the position behind which every corner
/// comes after it.
pub proof fn lemma_placed_at(s: Seq<usize>, x: usize, points: Seq<Point>, g: Point, pos: int)
    requires
        0 <= pos <= s.len(),
        pos > 0 ==> !comes_before(points, g, x, s[pos - 1]),
        forall|m: int| pos <= m < s.len() ==> comes_before(points, g, x, s[m]),
    ensures
        placed(s, x, points, g) == s.insert(pos, x),
    decreases s.len(),
{
    if pos == s.len() {
        assert(s.push(x) =~= s.insert(pos, x));
    } else {
        assert(comes_before(points, g, x, s.last()));
        lemma_placed_at(s.drop_last(), x, points, g, pos);
        assert(s.drop_last().insert(pos, x).push(s.last()) =~= s.insert(pos, x));
    }
}

/// No corner of the ring has a smaller angle than the corner in front of
/// it.
pub open spec fn in_angular_order(ring: Seq<usize>, points: Seq<Point>, g: Point) -> bool {
    forall|i: int|
        1 <= i < ring.len() ==> !comes_before(points, g, #[trigger] ring[i], ring[i - 1])
}

/// Of two directions at most one has the smaller angle.
pub proof fn lemma_one_before(ax: int, ay: int, bx: int, by: int)
    ensures
        !(turns_before(ax, ay, bx, by) && turns_before(bx, by, ax, ay)),
{
}

proof fn lemma_placed_in_order(s: Seq<usize>, x: usize, points: Seq<Point>, g: Point)
    requires
        in_angular_order(s, points, g),
    ensures
        placed(s, x, points, g).len() == s.len() + 1,
        placed(s, x, points, g).to_multiset() == s.to_multiset().insert(x),
        in_angular_order(placed(s, x, points, g), points, g),
        placed(s, x, points, g).last() == x || (s.len() > 0 && placed(s, x, points, g).last()
            == s.last()),
    decreases s.len(),
{
    let r = placed(s, x, points, g);
    if s.len() == 0 || !comes_before(points, g, x, s.last()) {
        vstd::seq_lib::to_multiset_build(s, x);
        assert forall|i: int| 1 <= i < r.len() implies !comes_before(
            points,
            g,
            #[trigger] r[i],
            r[i - 1],
        ) by {
            if i < s.len() {
                assert(r[i] == s[i]);
            }
        }
    } else {
        let front = s.drop_last();
        let last = s.last();
        assert forall|i: int| 1 <= i < front.len() implies !comes_before(
            points,
            g,
            #[trigger] front[i],
            front[i - 1],
        ) by {
            assert(front[i] == s[i]);
        }
        lemma_placed_in_order(front, x, points, g);
        let inner = placed(front, x, points, g);
        vstd::seq_lib::to_multiset_build(inner, last);
        vstd::seq_lib::to_multiset_build(front, last);
        assert(front.push(last) =~= s);
        assert(front.to_multiset().insert(x).insert(last) =~= front.to_multiset().insert(
            last,
        ).insert(x));
        lemma_one_before(
            points[x as int].x - g.x,
            points[x as int].y - g.y,
            points[last as int].x - g.x,
            points[last as int].y - g.y,
        );
        assert forall|i: int| 1 <= i < r.len() implies !comes_before(
            points,
            g,
            #[trigger] r[i],
            r[i - 1],
        ) by {
            if i < inner.len() {
                assert(r[i] == inner[i]);
            } else {
                assert(r[i] == last);
                assert(r[i - 1] == inner.last());
                if inner.last() != x {
                    assert(inner.last() == front.last());
                    assert(front.last() == s[s.len() - 2]);
                    assert(last == s[s.len() - 1]);
                }
            }
        }
    }
}

/// The angular order of a cell holds the corners of the cell, each as
/// often as the cell does, and no corner in it has a smaller angle than
/// the corner in front of it.
pub proof fn lemma_angular_order(cell: Seq<usize>, points: Seq<Point>, g: Point)
    ensures
        angular_order(cell, points, g).len() == cell.len(),
        angular_order(cell, points, g).to_multiset() == cell.to_multiset(),
        in_angular_order(angular_order(cell, points, g), points, g),
    decreases cell.len(),
{
    if cell.len() > 0 {
        lemma_angular_order(cell.drop_last(), points, g);
        lemma_placed_in_order(
            angular_order(cell.drop_last(), points, g),
            cell.last(),
            points,
            g,
        );
        vstd::seq_lib::to_multiset_build(cell.drop_last(), cell.last());
        assert(cell.drop_last().push(cell.last()) =~= cell);
    }
}

/// The corners of a cell are distinct, and each is the cluster of a face
/// that has the generator for a corner.
pub proof fn lemma_cell_corners(g: Point, tris: Seq<Triangle>, mapping: Seq<usize>, k: int)
    requires
        0 <= k <= tris.len(),
    ensures
        cell_corners(g, tris, mapping, k).no_duplicates(),
        forall|i: int|
            0 <= i < cell_corners(g, tris, mapping, k).len() ==> exists|f: int|
                0 <= f < k && touches(tris[f], g) && mapping[f] == #[trigger] cell_corners(
                    g,
                    tris,
                    mapping,
                    k,
                )[i],
    decreases k,
{
    if k > 0 {
        lemma_cell_corners(g, tris, mapping, k - 1);
        let before = cell_corners(g, tris, mapping, k - 1);
        let now = cell_corners(g, tris, mapping, k);
        assert forall|i: int| 0 <= i < now.len() implies exists|f: int|
            0 <= f < k && touches(tris[f], g) && mapping[f] == #[trigger] now[i] by {
            if i < before.len() {
                let f = choose|f: int|
                    0 <= f < k - 1 && touches(tris[f], g) && mapping[f] == before[i];
                assert(0 <= f < k && touches(tris[f], g) && mapping[f] == now[i]);
            } else {
                assert(touches(tris[k - 1], g) && mapping[k - 1] == now[i]);
            }
        }
    }
}

/// Every cell among those of the first `k` generators is the cell of one
/// of them that is kept, in angular order round that generator, and the
/// cells follow the order of their generators.
pub proof fn lemma_cells_among(
    gens: Seq<Point>,
    tris: Seq<Triangle>,
    mapping: Seq<usize>,
    points: Seq<Point>,
    boundary: Seq<Point>,
    width: int,
    k: int,
)
    requires
        0 <= k <= gens.len(),
    ensures
        cells_among(gens, tris, mapping, points, boundary, width, k).len() <= k,
        forall|c: int|
            0 <= c < cells_among(gens, tris, mapping, points, boundary, width, k).len()
                ==> exists|j: int|
                c <= j < k && owns_cell(
                    gens[j],
                    tris,
                    mapping,
                    points,
                    boundary,
                    width,
                    #[trigger] cells_among(gens, tris, mapping, points, boundary, width, k)[c],
                ),
    decreases k,
{
    if k > 0 {
        lemma_cells_among(gens, tris, mapping, points, boundary, width, k - 1);
        let before = cells_among(gens, tris, mapping, points, boundary, width, k - 1);
        let now = cells_among(gens, tris, mapping, points, boundary, width, k);
        assert forall|c: int| 0 <= c < now.len() implies exists|j: int|
            c <= j < k && owns_cell(
                gens[j],
                tris,
                mapping,
                points,
                boundary,
                width,
                #[trigger] now[c],
            ) by {
            if c < before.len() {
                let j = choose|j: int|
                    c <= j < k - 1 && owns_cell(
                        gens[j],
                        tris,
                        mapping,
                        points,
                        boundary,
                        width,
                        before[c],
                    );
                assert(c <= j < k && owns_cell(
                    gens[j],
                    tris,
                    mapping,
                    points,
                    boundary,
                    width,
                    now[c],
                ));
            } else {
                assert(owns_cell(gens[k - 1], tris, mapping, points, boundary, width, now[c]));
            }
        }
    }
}

fn is_touching(t: &Triangle, g: Point) -> (r: bool)
    ensures
        r == touches(*t, g),
{
    t.a == g || t.b == g || t.c == g
}

fn holds(v: &Vec<usize>, x: usize) -> (r: bool)
    ensures
        r == v@.contains(x),
{
    let mut i: usize = 0;
    while i < v.len()
        invariant
            i <= v.len(),
            forall|k: int| 0 <= k < i ==> v@[k] != x,
        decreases v.len() - i,
    {
        if v[i] == x {
            return true;
        }
        i = i + 1;
    }
    false
}

fn sector_of(dx: i64, dy: i64) -> (r: u8)
    ensures
        r == sector(dx as int, dy as int),
{
    if dy < 0 {
        0
    } else if dy > 0 {
        2
    } else if dx >= 0 {
        1
    } else {
        3
    }
}

fn is_before(points: &Vec<Point>, g: Point, i: usize, j: usize) -> (r: bool)
    requires
        i < points.len(),
        j < points.len(),
    ensures
        r == comes_before(points@, g, i, j),
{
    let ax: i64 = points[i].x as i64 - g.x as i64;
    let ay: i64 = points[i].y as i64 - g.y as i64;
    let bx: i64 = points[j].x as i64 - g.x as i64;
    let by: i64 = points[j].y as i64 - g.y as i64;
    let sa = sector_of(ax, ay);
    let sb = sector_of(bx, by);
    proof {
        lemma_product_bound(ax as int, by as int, 0x1_0000_0000, 0x1_0000_0000);
        lemma_product_bound(bx as int, ay as int, 0x1_0000_0000, 0x1_0000_0000);
    }
    sa < sb || (sa == sb && prod(ax, by) - prod(bx, ay) > 0)
}

/// The corners of a cell sorted by their angle round the generator.
pub fn sort_by_angle(cell: &Vec<usize>, points: &Vec<Point>, g: Point) -> (r: Vec<usize>)
    requires
        forall|i: int| 0 <= i < cell@.len() ==> cell@[i] < points.len(),
    ensures
        r@ == angular_order(cell@, points@, g),
        r@.len() == cell@.len(),
        forall|i: int| 0 <= i < r@.len() ==> r@[i] < points.len(),
{
    let mut out: Vec<usize> = Vec::new();
    let mut k: usize = 0;
    while k < cell.len()
        invariant
            k <= cell.len(),
            forall|i: int| 0 <= i < cell@.len() ==> cell@[i] < points.len(),
            out@ == angular_order(cell@.subrange(0, k as int), points@, g),
            out@.len() == k,
            forall|i: int| 0 <= i < out@.len() ==> out@[i] < points.len(),
        decreases cell.len() - k,
    {
        let x = cell[k];
        let mut pos: usize = out.len();
        while pos > 0 && is_before(points, g, x, out[pos - 1])
            invariant
                pos <= out.len(),
                x < points.len(),
                forall|i: int| 0 <= i < out@.len() ==> out@[i] < points.len(),
                forall|m: int| pos <= m < out@.len() ==> comes_before(points@, g, x, out@[m]),
            decreases pos,
        {
            pos = pos - 1;
        }
        proof {
            lemma_placed_at(out@, x, points@, g, pos as int);
            assert(cell@.subrange(0, k + 1).drop_last() =~= cell@.subrange(0, k as int));
            assert(cell@.subrange(0, k + 1).last() == x);
        }
        out.insert(pos, x);
        k = k + 1;
    }
    proof {
        assert(cell@.subrange(0, cell@.len() as int) =~= cell@);
    }
    out
}

fn corners_of_cell(g: Point, triangles: &Vec<Triangle>, mapping: &Vec<usize>) -> (cell: Vec<
    usize,
>)
    requires
        mapping@.len() == triangles@.len(),
    ensures
        cell@ == cell_corners(g, triangles@, mapping@, triangles@.len() as int),
        forall|i: int| 0 <= i < cell@.len() ==> mapping@.contains(#[trigger] cell@[i]),
{
    let mut cell: Vec<usize> = Vec::new();
    let mut f: usize = 0;
    while f < triangles.len()
        invariant
            f <= triangles.len(),
            mapping@.len() == triangles@.len(),
            cell@ == cell_corners(g, triangles@, mapping@, f as int),
            forall|i: int| 0 <= i < cell@.len() ==> mapping@.contains(#[trigger] cell@[i]),
        decreases triangles.len() - f,
    {
        if is_touching(&triangles[f], g) && !holds(&cell, mapping[f]) {
            cell.push(mapping[f]);
        }
        f = f + 1;
    }
    cell
}

fn touches_hull(g: Point, triangles: &Vec<Triangle>) -> (r: bool)
    ensures
        r == at_hull(g, triangles@, triangles@.len() as int),
{
    let mut found = false;
    let mut f: usize = 0;
    while f < triangles.len()
        invariant
            f <= triangles.len(),
            found == at_hull(g, triangles@, f as int),
        decreases triangles.len() - f,
    {
        if is_touching(&triangles[f], g) && triangles[f].on_hull {
            found = true;
        }
        f = f + 1;
    }
    found
}

fn has_far_corner(cell: &Vec<usize>, points: &Vec<Point>, width: i32) -> (r: bool)
    requires
        forall|i: int| 0 <= i < cell@.len() ==> cell@[i] < points.len(),
    ensures
        r == any_far_out(cell@, points@, width as int, cell@.len() as int),
{
    let reach: i64 = 3 * (width as i64);
    let mut found = false;
    let mut k: usize = 0;
    while k < cell.len()
        invariant
            k <= cell.len(),
            reach == 3 * width,
            forall|i: int| 0 <= i < cell@.len() ==> cell@[i] < points.len(),
            found == any_far_out(cell@, points@, width as int, k as int),
        decreases cell.len() - k,
    {
        let p = points[cell[k]];
        proof {
            lemma_product_bound(p.x as int, p.x as int, 0x8000_0000, 0x8000_0000);
            lemma_product_bound(p.y as int, p.y as int, 0x8000_0000, 0x8000_0000);
        }
        if prod(p.x as i64, p.x as i64) + prod(p.y as i64, p.y as i64) > prod(reach, reach) {
            found = true;
        }
        k = k + 1;
    }
    found
}

fn center_of_face(t: &Triangle, width: i32, height: i32) -> (u: Point)
    ensures
        u == face_center(*t, width as int, height as int),
{
    let bound = clamp_i32(5 * (width as i128));
    let u = circumcenter_within(t.a, t.b, t.c, bound);
    let w: i64 = 2 * (width as i64);
    let h: i64 = 2 * (height as i64);
    if -w <= u.x as i64 && u.x as i64 <= w && -h <= u.y as i64 && u.y as i64 <= h {
        u
    } else {
        let sx: i64 = t.a.x as i64 + t.b.x as i64 + t.c.x as i64;
        let sy: i64 = t.a.y as i64 + t.b.y as i64 + t.c.y as i64;
        Point { x: div_floor(sx as i128, 3) as i32, y: div_floor(sy as i128, 3) as i32 }
    }
}

/// Builds the Voronoi diagram of the generators from their Delaunay
/// triangulation, on a canvas of the given half width and half height.
///
/// Each face gives a corner; corners closer together than the threshold
/// are merged; each generator's cell is the ring of the corners of its
/// faces, sorted by angle. A cell is dropped where it has fewer than
/// three corners, its generator lies outside the boundary, one of its
/// faces lies on the outer boundary of the triangulation, or one of its
/// corners lies far out.
pub fn vpoly_on_canvas(
    generator_points: Vec<Point>,
    triangles: &Vec<Triangle>,
    boundary_polygon: &Vec<Point>,
    merge_threshold: i32,
    width: i32,
    height: i32,
) -> (data: SkeletonData)
    ensures
        data.generator_points@ == generator_points@,
        data.points@ == diagram_points(
            triangles@,
            merge_threshold as int,
            width as int,
            height as int,
        ),
        index_rings(data.cells@) == diagram_cells(
            generator_points@,
            triangles@,
            boundary_polygon@,
            merge_threshold as int,
            width as int,
            height as int,
        ),
        data.road_path@.len() == 0,
        data.boundary_polygon@ == boundary_polygon@,
        data.boundary_vertex_offsets@ == Seq::new(
            boundary_polygon@.len(),
            |i: int| Point { x: 0, y: 0 },
        ),
        data.indexed(),
        data.cells@.len() <= generator_points@.len(),
{
    let mut centers: Vec<Point> = Vec::new();
    let mut f: usize = 0;
    while f < triangles.len()
        invariant
            f <= triangles.len(),
            centers@.len() == f,
            forall|i: int|
                0 <= i < f ==> centers@[i] == face_center(
                    triangles@[i],
                    width as int,
                    height as int,
                ),
        decreases triangles.len() - f,
    {
        centers.push(center_of_face(&triangles[f], width, height));
        f = f + 1;
    }
    proof {
        assert(centers@ =~= face_centers(triangles@, width as int, height as int));
    }
    let (points, mapping) = merge_centers(&centers, merge_threshold);
    proof {
        assert(mapping@ =~= diagram_mapping(
            triangles@,
            merge_threshold as int,
            width as int,
            height as int,
        ));
    }
    let mut cells: Vec<Vec<usize>> = Vec::new();
    let mut k: usize = 0;
    while k < generator_points.len()
        invariant
            k <= generator_points.len(),
            mapping@.len() == triangles@.len(),
            forall|j: int| 0 <= j < mapping@.len() ==> #[trigger] mapping@[j] < points@.len(),
            index_rings(cells@) == cells_among(
                generator_points@,
                triangles@,
                mapping@,
                points@,
                boundary_polygon@,
                width as int,
                k as int,
            ),
            cells@.len() <= k,
            forall|c: int|
                0 <= c < cells@.len() ==> (#[trigger] cells@[c])@.len() >= 3 && forall|i: int|
                    0 <= i < cells@[c]@.len() ==> cells@[c]@[i] < points@.len(),
        decreases generator_points.len() - k,
    {
        let g = generator_points[k];
        let cell = corners_of_cell(g, triangles, &mapping);
        proof {
            assert forall|i: int| 0 <= i < cell@.len() implies cell@[i] < points@.len() by {
                assert(mapping@.contains(cell@[i]));
            }
        }
        let ghost before = index_rings(cells@);
        if cell.len() >= 3 && point_in_polygon(&g, boundary_polygon) && !touches_hull(
            g,
            triangles,
        ) && !has_far_corner(&cell, &points, width) {
            let ring = sort_by_angle(&cell, &points, g);
            cells.push(ring);
            proof {
                assert(index_rings(cells@) =~= before.push(
                    angular_order(cell@, points@, g),
                ));
            }
        }
        k = k + 1;
    }
    let mut offsets: Vec<Point> = Vec::new();
    let mut i: usize = 0;
    while i < boundary_polygon.len()
        invariant
            i <= boundary_polygon.len(),
            offsets@ == Seq::new(i as nat, |m: int| Point { x: 0, y: 0 }),
        decreases boundary_polygon.len() - i,
    {
        offsets.push(Point { x: 0, y: 0 });
        proof {
            assert(offsets@ =~= Seq::new((i + 1) as nat, |m: int| Point { x: 0, y: 0 }));
        }
        i = i + 1;
    }
    SkeletonData {
        generator_points,
        points,
        cells,
        road_path: Vec::new(),
        boundary_polygon: copy_of(boundary_polygon),
        boundary_vertex_offsets: offsets,
    }
}

/// Builds the Voronoi diagram of the generators on the default canvas.
pub fn vpoly(
    generator_points: Vec<Point>,
    triangles: &Vec<Triangle>,
    boundary_polygon: &Vec<Point>,
    merge_threshold: i32,
) -> (data: SkeletonData)
    ensures
        data.generator_points@ == generator_points@,
        data.points@ == diagram_points(
            triangles@,
            merge_threshold as int,
            crate::config::CANVAS_WIDTH as int,
            crate::config::CANVAS_HEIGHT as int,
        ),
        index_rings(data.cells@) == diagram_cells(
            generator_points@,
            triangles@,
            boundary_polygon@,
            merge_threshold as int,
            crate::config::CANVAS_WIDTH as int,
            crate::config::CANVAS_HEIGHT as int,
        ),
        data.road_path@.len() == 0,
        data.boundary_polygon@ == boundary_polygon@,
        data.boundary_vertex_offsets@ == Seq::new(
            boundary_polygon@.len(),
            |i: int| Point { x: 0, y: 0 },
        ),
        data.indexed(),
{
    vpoly_on_canvas(
        generator_points,
        triangles,
        boundary_polygon,
        merge_threshold,
        crate::config::CANVAS_WIDTH,
        crate::config::CANVAS_HEIGHT,
    )
}

} // verus!
