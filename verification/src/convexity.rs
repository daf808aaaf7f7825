//! Why the march yields a convex hull: when no three points of the boundary
//! are on one line, every edge of the march has all points on its left, the
//! march comes back to where it started, and the polygon it draws is convex
//! and encloses the input.

use crate::march::{
    is_lowest, is_march, is_march_prefix, lemma_march_drawn_from_points,
    lemma_sweep_in_points, lemma_sweep_on_anchor, lowest_index, next_vertex, sweep,
};
use crate::point::{cross, Point};
use vstd::prelude::*;

verus! {

/// Every point of `points` lies to the left of the directed line `u -> v`,
/// or on it.
pub open spec fn supports(points: Seq<Point>, u: Point, v: Point) -> bool {
    forall|k: int| 0 <= k < points.len() ==> cross(u, v, #[trigger] points[k]) >= 0
}

/// No three different points of the boundary are on one line: a line
/// through two points that has every point on one side passes through no
/// third point.
pub open spec fn boundary_in_general_position(points: Seq<Point>) -> bool {
    forall|i: int, j: int, k: int|
        0 <= i < points.len() && 0 <= j < points.len() && 0 <= k < points.len() && points[i]
            != points[j] && points[k] != points[i] && points[k] != points[j] && #[trigger] cross(
            points[i],
            points[j],
            points[k],
        ) == 0 ==> !supports(points, points[i], points[j])
}

/// The vertex at place `i` of the closed polygon `hull`: after the last
/// vertex the count goes on with the first.
pub open spec fn vertex(hull: Seq<Point>, i: int) -> Point {
    hull[i % (hull.len() as int)]
}

/// Walking along `hull` and back to its start never turns clockwise: of
/// three vertices in a row, the third is not to the right of the line
/// through the first two.
pub open spec fn is_convex(hull: Seq<Point>) -> bool {
    forall|i: int|
        0 <= i < hull.len() ==> cross(
            #[trigger] vertex(hull, i),
            vertex(hull, i + 1),
            vertex(hull, i + 2),
        ) >= 0
}

/// No point of `points` lies strictly to the right of an edge of `hull`,
/// the edge from the last vertex back to the first included.
pub open spec fn encloses(hull: Seq<Point>, points: Seq<Point>) -> bool {
    forall|i: int, k: int|
        0 <= i < hull.len() && 0 <= k < points.len() ==> cross(
            #[trigger] vertex(hull, i),
            vertex(hull, i + 1),
            #[trigger] points[k],
        ) >= 0
}

/// Cross product of the direction `(dx, dy)` and the vector `o -> p`.
spec fn side(dx: int, dy: int, o: Point, p: Point) -> int {
    dx * (p.y - o.y) - dy * (p.x - o.x)
}

/// The cross product changes sign when two of its points change places, and
/// is zero when two of them are equal.
proof fn lemma_cross_swap(o: Point, a: Point, b: Point)
    ensures
        cross(o, b, a) == -cross(o, a, b),
        cross(b, a, o) == -cross(o, a, b),
        cross(o, a, a) == 0,
        cross(o, a, o) == 0,
        cross(o, o, a) == 0,
{
    let ax = a.x - o.x;
    let ay = a.y - o.y;
    let bx = b.x - o.x;
    let by = b.y - o.y;
    let rx = a.x - b.x;
    let ry = a.y - b.y;
    assert(bx * ay - by * ax == -(ax * by - ay * bx)) by (nonlinear_arith);
    assert(rx * (-by) - ry * (-bx) == -(ax * by - ay * bx)) by (nonlinear_arith)
        requires
            rx == ax - bx,
            ry == ay - by,
    ;
    assert(ax * ay - ay * ax == 0) by (nonlinear_arith);
    assert(ax * 0 - ay * 0 == 0) by (nonlinear_arith);
    assert(0 * ay - 0 * ax == 0) by (nonlinear_arith);
}

/// An identity among the six cross products of four vectors.
proof fn lemma_exchange_identity(
    dx: int,
    dy: int,
    ax: int,
    ay: int,
    bx: int,
    by: int,
    px: int,
    py: int,
)
    ensures
        (dx * ay - dy * ax) * (bx * py - by * px) == (dx * by - dy * bx) * (ax * py - ay * px) - (dx
            * py - dy * px) * (ax * by - ay * bx),
{
    let bp = bx * py - by * px;
    let ap = ax * py - ay * px;
    let ab = ax * by - ay * bx;
    let in_x = ay * bp;
    let in_y = ax * bp;
    assert(in_x == by * ap - py * ab) by (nonlinear_arith)
        requires
            bp == bx * py - by * px,
            ap == ax * py - ay * px,
            ab == ax * by - ay * bx,
            in_x == ay * bp,
    ;
    assert(in_y == bx * ap - px * ab) by (nonlinear_arith)
        requires
            bp == bx * py - by * px,
            ap == ax * py - ay * px,
            ab == ax * by - ay * bx,
            in_y == ax * bp,
    ;
    assert((dx * ay - dy * ax) * bp == dx * in_x - dy * in_y) by (nonlinear_arith)
        requires
            in_x == ay * bp,
            in_y == ax * bp,
    ;
    let t1 = by * ap;
    let t2 = py * ab;
    let t3 = bx * ap;
    let t4 = px * ab;
    assert(dx * (t1 - t2) - dy * (t3 - t4) == (dx * t1 - dy * t3) - (dx * t2 - dy * t4))
        by (nonlinear_arith);
    assert((dx * by - dy * bx) * ap == dx * t1 - dy * t3) by (nonlinear_arith)
        requires
            t1 == by * ap,
            t3 == bx * ap,
    ;
    assert((dx * py - dy * px) * ab == dx * t2 - dy * t4) by (nonlinear_arith)
        requires
            t2 == py * ab,
            t4 == px * ab,
    ;
}

/// What the identity says of the signs of the products.
proof fn lemma_exchange_sign(da: int, db: int, dp: int, cab: int, cap: int, cbp: int)
    by (nonlinear_arith)
    requires
        da * cbp == db * cap - dp * cab,
        da >= 0,
        db >= 0,
        dp >= 0,
        cab < 0,
        cap >= 0,
    ensures
        da > 0 ==> cbp >= 0,
        da == 0 ==> dp == 0,
{
}

/// With `a`, `b` and `p` on one side of a line through `o`, `b` strictly
/// clockwise of `a` and `p` not clockwise of `a`: either `p` is not
/// clockwise of `b`, or `a` and `p` are both on the line.
proof fn lemma_exchange(dx: int, dy: int, o: Point, a: Point, b: Point, p: Point)
    requires
        side(dx, dy, o, a) >= 0,
        side(dx, dy, o, b) >= 0,
        side(dx, dy, o, p) >= 0,
        cross(o, a, b) < 0,
        cross(o, a, p) >= 0,
    ensures
        cross(o, b, p) >= 0 || (side(dx, dy, o, a) == 0 && side(dx, dy, o, p) == 0),
{
    lemma_exchange_identity(
        dx,
        dy,
        a.x - o.x,
        a.y - o.y,
        b.x - o.x,
        b.y - o.y,
        p.x - o.x,
        p.y - o.y,
    );
    lemma_exchange_sign(
        side(dx, dy, o, a),
        side(dx, dy, o, b),
        side(dx, dy, o, p),
        cross(o, a, b),
        cross(o, a, p),
        cross(o, b, p),
    );
}

/// Every point lies on the left of the line through `o` in direction
/// `(dx, dy)`, or on it.
spec fn in_half_plane(points: Seq<Point>, o: Point, dx: int, dy: int) -> bool {
    forall|j: int| 0 <= j < points.len() ==> side(dx, dy, o, #[trigger] points[j]) >= 0
}

/// Apart from `o`, at most one point lies on the line through `o` in
/// direction `(dx, dy)`.
spec fn one_on_border(points: Seq<Point>, o: Point, dx: int, dy: int) -> bool {
    forall|i: int, j: int|
        0 <= i < points.len() && 0 <= j < points.len() && #[trigger] points[i] != o
            && #[trigger] points[j] != o && side(dx, dy, o, points[i]) == 0 && side(
            dx,
            dy,
            o,
            points[j],
        ) == 0 ==> points[i] == points[j]
}

/// From an anchor with all points in a half-plane, the sweep holds a
/// candidate that has every point examined so far on its left.
proof fn lemma_sweep_supports(points: Seq<Point>, o: Point, dx: int, dy: int, k: int)
    requires
        1 <= k <= points.len(),
        in_half_plane(points, o, dx, dy),
        one_on_border(points, o, dx, dy),
    ensures
        forall|j: int| 0 <= j < k ==> cross(o, sweep(points, o, k), #[trigger] points[j]) >= 0,
    decreases k,
{
    let c = sweep(points, o, k);
    if k == 1 {
        lemma_cross_swap(o, points[0], points[0]);
    } else {
        lemma_sweep_supports(points, o, dx, dy, k - 1);
        let a = sweep(points, o, k - 1);
        let b = points[k - 1];
        lemma_cross_swap(o, a, b);
        assert forall|j: int| 0 <= j < k implies cross(o, c, #[trigger] points[j]) >= 0 by {
            let p = points[j];
            lemma_cross_swap(o, c, p);
            if b == o {
            } else if a == o {
                if j < k - 1 {
                    lemma_sweep_on_anchor(points, o, k - 1);
                }
            } else if cross(o, a, b) < 0 {
                if j < k - 1 && p != o {
                    lemma_sweep_in_points(points, o, k - 1);
                    let i = choose|i: int| 0 <= i < k - 1 && #[trigger] points[i] == a;
                    assert(side(dx, dy, o, points[i]) >= 0);
                    lemma_exchange(dx, dy, o, a, b, p);
                    if cross(o, b, p) < 0 {
                        assert(points[i] == points[j]);
                    }
                }
            }
        }
    }
}

/// In general position, a line through two points that has every point on
/// its left passes through no third point.
proof fn lemma_no_third_on_edge(points: Seq<Point>, u: Point, v: Point, w: Point)
    requires
        boundary_in_general_position(points),
        points.contains(u),
        points.contains(v),
        points.contains(w),
        u != v,
        supports(points, u, v),
        cross(u, v, w) == 0,
    ensures
        w == u || w == v,
{
    let i = choose|i: int| 0 <= i < points.len() && points[i] == u;
    let j = choose|j: int| 0 <= j < points.len() && points[j] == v;
    let k = choose|k: int| 0 <= k < points.len() && points[k] == w;
    if w != u && w != v {
        assert(cross(points[i], points[j], points[k]) == 0);
    }
}

/// The first edge of the march has every point on its left.
proof fn lemma_first_edge_supports(points: Seq<Point>)
    requires
        boundary_in_general_position(points),
        is_lowest(points, lowest_index(points)),
    ensures
        supports(
            points,
            points[lowest_index(points)],
            next_vertex(points, points[lowest_index(points)]),
        ),
{
    let o = points[lowest_index(points)];
    assert forall|j: int| 0 <= j < points.len() implies side(1, 0, o, #[trigger] points[j])
        >= 0 by {}
    assert forall|i: int, j: int|
        0 <= i < points.len() && 0 <= j < points.len() && #[trigger] points[i] != o
            && #[trigger] points[j] != o && side(1, 0, o, points[i]) == 0 && side(
            1,
            0,
            o,
            points[j],
        ) == 0 implies points[i] == points[j] by {
        let p = points[i];
        let q = points[j];
        if p != q {
            if p.x < q.x {
                lemma_level_line_supports(points, p, q);
                lemma_level_line_supports_third(p, q, o);
                lemma_no_third_on_edge(points, p, q, o);
            } else {
                lemma_level_line_supports(points, q, p);
                lemma_level_line_supports_third(q, p, o);
                lemma_no_third_on_edge(points, q, p, o);
            }
        }
    }
    lemma_sweep_supports(points, o, 1, 0, points.len() as int);
}

/// A level line through the lowest points, directed to the right, has
/// every point on its left.
proof fn lemma_level_line_supports(points: Seq<Point>, p: Point, q: Point)
    requires
        is_lowest(points, lowest_index(points)),
        p.y == points[lowest_index(points)].y,
        q.y == p.y,
        p.x < q.x,
    ensures
        supports(points, p, q),
{
    assert forall|k: int| 0 <= k < points.len() implies cross(p, q, #[trigger] points[k])
        >= 0 by {
        let r = points[k];
        assert(r.y >= p.y);
        assert((q.x - p.x) * (r.y - p.y) >= 0) by (nonlinear_arith)
            requires
                q.x - p.x > 0,
                r.y - p.y >= 0,
        ;
    }
}

/// Points at one height are on one line.
proof fn lemma_level_line_supports_third(p: Point, q: Point, o: Point)
    requires
        q.y == p.y,
        o.y == p.y,
    ensures
        cross(p, q, o) == 0,
{
    assert((q.x - p.x) * 0 == 0) by (nonlinear_arith);
}

/// The cross product with the direction of `u -> o`, taken at `o`, is the
/// cross product taken at `u`.
proof fn lemma_side_along_edge(u: Point, o: Point, p: Point)
    ensures
        side(o.x - u.x, o.y - u.y, o, p) == cross(u, o, p),
{
    let dx = o.x - u.x;
    let dy = o.y - u.y;
    let px = p.x - o.x;
    let py = p.y - o.y;
    assert(dx * py - dy * px == dx * (py + dy) - dy * (px + dx)) by (nonlinear_arith);
}

/// In general position, every edge of the march has every point on its left.
pub proof fn lemma_edge_supports(points: Seq<Point>, hull: Seq<Point>, i: int)
    requires
        boundary_in_general_position(points),
        is_march_prefix(points, hull),
        0 <= i < hull.len(),
    ensures
        supports(points, hull[i], next_vertex(points, hull[i])),
    decreases i,
{
    if i == 0 {
        lemma_first_edge_supports(points);
    } else {
        lemma_edge_supports(points, hull, i - 1);
        lemma_march_drawn_from_points(points, hull);
        let u = hull[i - 1];
        let o = hull[i];
        assert(hull[i - 1 + 1] == next_vertex(points, u));
        let dx = o.x - u.x;
        let dy = o.y - u.y;
        assert forall|j: int| 0 <= j < points.len() implies side(dx, dy, o, #[trigger] points[j])
            >= 0 by {
            lemma_side_along_edge(u, o, points[j]);
        }
        assert forall|a: int, b: int|
            0 <= a < points.len() && 0 <= b < points.len() && #[trigger] points[a] != o
                && #[trigger] points[b] != o && side(dx, dy, o, points[a]) == 0 && side(
                dx,
                dy,
                o,
                points[b],
            ) == 0 implies points[a] == points[b] by {
            lemma_side_along_edge(u, o, points[a]);
            lemma_side_along_edge(u, o, points[b]);
            assert(points.contains(hull[i - 1]));
            assert(points.contains(hull[i]));
            lemma_no_third_on_edge(points, u, o, points[a]);
            lemma_no_third_on_edge(points, u, o, points[b]);
        }
        lemma_sweep_supports(points, o, dx, dy, points.len() as int);
    }
}

/// In general position, the march ends where it began: the vertex after the
/// last one is the first.
pub proof fn lemma_march_returns_to_start(points: Seq<Point>, hull: Seq<Point>)
    requires
        boundary_in_general_position(points),
        is_march(points, hull),
    ensures
        next_vertex(points, hull.last()) == hull[0],
{
    let w = hull.last();
    let q = next_vertex(points, w);
    let j = choose|j: int| 0 <= j < hull.len() && hull[j] == q;
    if j > 0 {
        let u = hull[j - 1];
        assert(hull[j - 1 + 1] == next_vertex(points, u));
        lemma_march_drawn_from_points(points, hull);
        assert(points.contains(hull[j - 1]));
        assert(points.contains(hull[j]));
        assert(points.contains(hull[hull.len() - 1]));
        lemma_edge_supports(points, hull, j - 1);
        lemma_edge_supports(points, hull, hull.len() - 1);
        let iu = choose|k: int| 0 <= k < points.len() && points[k] == u;
        let iw = choose|k: int| 0 <= k < points.len() && points[k] == w;
        assert(cross(u, q, points[iw]) >= 0);
        assert(cross(w, q, points[iu]) >= 0);
        lemma_cross_swap(w, q, u);
        if q == w {
            lemma_sweep_on_anchor(points, w, points.len() as int);
            assert(points[iu] == w);
        } else {
            lemma_no_third_on_edge(points, u, q, w);
        }
    }
}

/// In general position, no input point lies outside the hull: each one is
/// to the left of every edge, or on it.
pub proof fn lemma_hull_encloses_points(points: Seq<Point>, hull: Seq<Point>)
    requires
        boundary_in_general_position(points),
        is_march(points, hull),
    ensures
        encloses(hull, points),
{
    assert forall|i: int, k: int| 0 <= i < hull.len() && 0 <= k < points.len() implies cross(
        #[trigger] vertex(hull, i),
        vertex(hull, i + 1),
        #[trigger] points[k],
    ) >= 0 by {
        lemma_vertex_in_place(hull, i);
        lemma_vertex_follows(points, hull, i);
        lemma_edge_supports(points, hull, i);
    }
}

/// In general position, the hull is convex: three vertices in a row, the
/// first coming after the last, never turn clockwise.
pub proof fn lemma_hull_is_convex(points: Seq<Point>, hull: Seq<Point>)
    requires
        boundary_in_general_position(points),
        is_march(points, hull),
    ensures
        is_convex(hull),
{
    lemma_march_drawn_from_points(points, hull);
    assert forall|i: int| 0 <= i < hull.len() implies cross(
        #[trigger] vertex(hull, i),
        vertex(hull, i + 1),
        vertex(hull, i + 2),
    ) >= 0 by {
        let n = hull.len() as int;
        lemma_vertex_in_place(hull, i);
        lemma_vertex_follows(points, hull, i);
        lemma_edge_supports(points, hull, i);
        let third = (i + 2) % n;
        assert(0 <= third < n);
        assert(points.contains(hull[third]));
        let k = choose|k: int| 0 <= k < points.len() && points[k] == hull[third];
        assert(cross(hull[i], vertex(hull, i + 1), points[k]) >= 0);
    }
}

/// A place within the length of the hull holds the vertex with that index.
proof fn lemma_vertex_in_place(hull: Seq<Point>, i: int)
    requires
        0 <= i < hull.len(),
    ensures
        vertex(hull, i) == hull[i],
{
    let n = hull.len() as int;
    assert(i % n == i) by (nonlinear_arith)
        requires
            0 <= i < n,
    ;
}

/// In general position, the vertex at the next place is the one that the
/// sweep from `hull[i]` yields, also from the last vertex to the first.
proof fn lemma_vertex_follows(points: Seq<Point>, hull: Seq<Point>, i: int)
    requires
        boundary_in_general_position(points),
        is_march(points, hull),
        0 <= i < hull.len(),
    ensures
        vertex(hull, i + 1) == next_vertex(points, hull[i]),
{
    let n = hull.len() as int;
    if i + 1 < n {
        lemma_vertex_in_place(hull, i + 1);
    } else {
        assert((i + 1) % n == 0) by (nonlinear_arith)
            requires
                i + 1 == n,
                n > 0,
        ;
        lemma_march_returns_to_start(points, hull);
    }
}

} // verus!
