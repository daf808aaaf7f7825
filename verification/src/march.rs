//! The march as mathematics: where it starts, how one vertex follows
//! another, and what makes a sequence of points the finished hull.

use crate::point::{cross, Point};
use vstd::prelude::*;
use vstd::set_lib::lemma_len_subset;

verus! {

/// `i` is the first index at which `points` reaches its least `y`.
pub open spec fn is_lowest(points: Seq<Point>, i: int) -> bool {
    &&& 0 <= i < points.len()
    &&& forall|j: int| 0 <= j < points.len() ==> points[i].y <= #[trigger] points[j].y
    &&& forall|j: int| 0 <= j < i ==> points[i].y < #[trigger] points[j].y
}

/// The index at which the march starts.
pub open spec fn lowest_index(points: Seq<Point>) -> int {
    choose|i: int| is_lowest(points, i)
}

/// At most one index is the lowest.
pub proof fn lemma_lowest_unique(points: Seq<Point>, i: int, j: int)
    requires
        is_lowest(points, i),
        is_lowest(points, j),
    ensures
        i == j,
{
    if i < j {
        assert(points[j].y < points[i].y);
    } else if j < i {
        assert(points[i].y < points[j].y);
    }
}

/// The candidate that survives a comparison: with anchor `o`, `b` takes the
/// place of `a` when `a` is the anchor itself or when `b` lies strictly
/// clockwise of `a`; a `b` equal to the anchor never does.
pub open spec fn pick(o: Point, a: Point, b: Point) -> Point {
    if b == o {
        a
    } else if a == o {
        b
    } else if cross(o, a, b) < 0 {
        b
    } else {
        a
    }
}

/// The candidate held after the first `k` points were examined from anchor
/// `o`, in input order, starting from the first point.
pub open spec fn sweep(points: Seq<Point>, o: Point, k: int) -> Point
    decreases k,
{
    if k <= 1 {
        points[0]
    } else {
        pick(o, sweep(points, o, k - 1), points[k - 1])
    }
}

/// The vertex that follows anchor `o`.
pub open spec fn next_vertex(points: Seq<Point>, o: Point) -> Point {
    sweep(points, o, points.len() as int)
}

/// `hull` is a march under way: it starts at the lowest point, each vertex
/// is followed by its successor, and no point occurs twice.
pub open spec fn is_march_prefix(points: Seq<Point>, hull: Seq<Point>) -> bool {
    &&& hull.len() >= 1
    &&& is_lowest(points, lowest_index(points))
    &&& hull[0] == points[lowest_index(points)]
    &&& forall|i: int|
        0 <= i < hull.len() - 1 ==> hull[i + 1] == next_vertex(points, #[trigger] hull[i])
    &&& hull.no_duplicates()
}

/// `hull` is the finished march over `points`: a march that stops at the
/// first vertex whose successor it already holds.
pub open spec fn is_march(points: Seq<Point>, hull: Seq<Point>) -> bool {
    &&& is_march_prefix(points, hull)
    &&& hull.contains(next_vertex(points, hull.last()))
}

/// Every point of `hull` is equal to some point of `points`.
pub open spec fn drawn_from(hull: Seq<Point>, points: Seq<Point>) -> bool {
    forall|i: int| 0 <= i < hull.len() ==> points.contains(#[trigger] hull[i])
}

/// The candidate of a sweep is one of the points examined.
pub proof fn lemma_sweep_in_points(points: Seq<Point>, o: Point, k: int)
    requires
        1 <= k <= points.len(),
    ensures
        exists|j: int| 0 <= j < k && #[trigger] points[j] == sweep(points, o, k),
    decreases k,
{
    if k > 1 {
        lemma_sweep_in_points(points, o, k - 1);
        let j = choose|j: int| 0 <= j < k - 1 && #[trigger] points[j] == sweep(points, o, k - 1);
        if sweep(points, o, k) == points[k - 1] {
        } else {
            assert(points[j] == sweep(points, o, k));
        }
    } else {
        assert(points[0] == sweep(points, o, k));
    }
}

/// A sweep that ends on its anchor has seen nothing but the anchor.
pub proof fn lemma_sweep_on_anchor(points: Seq<Point>, o: Point, k: int)
    requires
        1 <= k <= points.len(),
        sweep(points, o, k) == o,
    ensures
        forall|j: int| 0 <= j < k ==> #[trigger] points[j] == o,
    decreases k,
{
    if k > 1 {
        lemma_sweep_on_anchor(points, o, k - 1);
    }
}

/// The hull holds input points only: each of its vertices is equal to a
/// point of the input.
pub proof fn lemma_march_drawn_from_points(points: Seq<Point>, hull: Seq<Point>)
    requires
        is_march_prefix(points, hull),
    ensures
        drawn_from(hull, points),
{
    assert forall|i: int| 0 <= i < hull.len() implies points.contains(#[trigger] hull[i]) by {
        if i == 0 {
            assert(points[lowest_index(points)] == hull[0]);
        } else {
            let o = hull[i - 1];
            assert(hull[i - 1 + 1] == next_vertex(points, o));
            lemma_sweep_in_points(points, o, points.len() as int);
        }
    }
}

/// Points that do not repeat and all occur in `points` are no more than
/// `points` holds.
pub proof fn lemma_distinct_bounded(hull: Seq<Point>, points: Seq<Point>)
    requires
        hull.no_duplicates(),
        drawn_from(hull, points),
    ensures
        hull.len() <= points.len(),
{
    hull.unique_seq_to_set();
    points.lemma_cardinality_of_set();
    assert forall|p: Point| hull.to_set().contains(p) implies points.to_set().contains(p) by {
        let i = choose|i: int| 0 <= i < hull.len() && hull[i] == p;
        assert(points.contains(hull[i]));
    }
    lemma_len_subset(hull.to_set(), points.to_set());
}

/// A march under way goes on with the vertex that follows its last one,
/// unless it holds that vertex already; it never grows longer than the
/// input.
pub proof fn lemma_march_goes_on(points: Seq<Point>, hull: Seq<Point>, next: Point)
    requires
        is_march_prefix(points, hull),
        next == next_vertex(points, hull.last()),
        !hull.contains(next),
    ensures
        is_march_prefix(points, hull.push(next)),
        hull.push(next).len() <= points.len(),
{
    let longer = hull.push(next);
    assert forall|i: int| 0 <= i < longer.len() - 1 implies longer[i + 1] == next_vertex(
        points,
        #[trigger] longer[i],
    ) by {
        if i < hull.len() - 1 {
            assert(hull[i + 1] == next_vertex(points, hull[i]));
        }
    }
    assert forall|i: int, j: int| 0 <= i < longer.len() && 0 <= j < longer.len() && i
        != j implies longer[i] != longer[j] by {
        if i == hull.len() {
            assert(hull[j] != next);
        } else if j == hull.len() {
            assert(hull[i] != next);
        }
    }
    lemma_march_drawn_from_points(points, longer);
    lemma_distinct_bounded(longer, points);
}

/// The hull of a single point is that point.
pub proof fn lemma_march_of_one_point(points: Seq<Point>, hull: Seq<Point>)
    requires
        points.len() == 1,
        is_march_prefix(points, hull),
    ensures
        hull == seq![points[0]],
{
    lemma_march_drawn_from_points(points, hull);
    lemma_distinct_bounded(hull, points);
    assert(hull =~= seq![points[0]]);
}

/// The march is determined by its input: two finished marches over the same
/// points are the same sequence.
pub proof fn lemma_march_unique(points: Seq<Point>, first: Seq<Point>, second: Seq<Point>)
    requires
        is_march(points, first),
        is_march(points, second),
    ensures
        first == second,
{
    if first.len() <= second.len() {
        lemma_march_extends(points, first, second);
    } else {
        lemma_march_extends(points, second, first);
    }
}

/// Two marches under way agree as far as the shorter one goes.
proof fn lemma_marches_agree(points: Seq<Point>, short: Seq<Point>, long: Seq<Point>, i: int)
    requires
        is_march_prefix(points, short),
        is_march_prefix(points, long),
        0 <= i < short.len() <= long.len(),
    ensures
        short[i] == long[i],
    decreases i,
{
    if i > 0 {
        lemma_marches_agree(points, short, long, i - 1);
        assert(short[i - 1 + 1] == next_vertex(points, short[i - 1]));
        assert(long[i - 1 + 1] == next_vertex(points, long[i - 1]));
    }
}

/// A finished march is not a proper beginning of another march.
proof fn lemma_march_extends(points: Seq<Point>, short: Seq<Point>, long: Seq<Point>)
    requires
        is_march(points, short),
        is_march_prefix(points, long),
        short.len() <= long.len(),
    ensures
        short == long,
{
    assert forall|i: int| 0 <= i < short.len() implies short[i] == long[i] by {
        lemma_marches_agree(points, short, long, i);
    }
    if short.len() < long.len() {
        let last = short.len() - 1;
        let nx = next_vertex(points, short.last());
        let j = choose|j: int| 0 <= j < short.len() && short[j] == nx;
        assert(long[last + 1] == next_vertex(points, long[last]));
        assert(long[j] == long[last + 1]);
    }
    assert(short =~= long);
}

} // verus!
