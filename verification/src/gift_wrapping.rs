//! Gift wrapping: the hull is walked counter-clockwise from the lowest point,
//! each step choosing the point that leaves every other point to its left.
//!
//! The same march is written twice, once with its loops spelled out and once
//! as a composition of smaller functions. Both return references into the
//! input, in hull order, and both meet the same contract, [`is_hull_of`].

use crate::convexity::{
    boundary_in_general_position, encloses, is_convex, lemma_hull_encloses_points,
    lemma_hull_is_convex, lemma_march_returns_to_start,
};
use crate::march::{
    drawn_from, is_lowest, is_march, is_march_prefix, lemma_lowest_unique,
    lemma_march_drawn_from_points, lemma_march_goes_on, lemma_march_of_one_point,
    lemma_march_unique, lowest_index, next_vertex, sweep,
};
use crate::point::{cross_sign, Point};
use vstd::pervasive::unreached;
use vstd::prelude::*;

verus! {

/// Finds the lowest point: the first one, in input order, whose `y` is least.
pub fn find_bottommost_point<'a>(points: &'a [Point]) -> (r: Option<&'a Point>)
    ensures
        points@.len() == 0 ==> r is None,
        points@.len() > 0 ==> r is Some && is_lowest(points@, lowest_index(points@)) && *r.unwrap()
            == points@[lowest_index(points@)],
{
    if points.len() < 1 {
        None
    } else {
        let mut b: &Point = &points[0];
        let ghost mut at: int = 0;
        let mut i: usize = 1;
        while i < points.len()
            invariant
                1 <= i <= points.len(),
                0 <= at < i,
                *b == points@[at],
                forall|j: int| 0 <= j < i ==> points@[at].y <= #[trigger] points@[j].y,
                forall|j: int| 0 <= j < at ==> points@[at].y < #[trigger] points@[j].y,
            decreases points.len() - i,
        {
            let p: &Point = &points[i];
            if b.y > p.y {
                b = p;
                proof {
                    at = i as int;
                }
            }
            i += 1;
        }
        proof {
            assert(is_lowest(points@, at));
            lemma_lowest_unique(points@, at, lowest_index(points@));
        }
        Some(b)
    }
}

/// One step of the march: examines every point from anchor `o` and returns
/// the one that follows it on the hull.
pub fn wrap_step<'a>(points: &'a [Point], o: &Point) -> (a: &'a Point)
    requires
        points@.len() > 0,
    ensures
        *a == next_vertex(points@, *o),
{
    let mut a: &Point = &points[0];
    let mut i: usize = 1;
    while i < points.len()
        invariant
            1 <= i <= points.len(),
            *a == sweep(points@, *o, i as int),
        decreases points.len() - i,
    {
        let b: &Point = &points[i];
        if *o == *b {
        } else if *o == *a {
            a = b;
        } else if cross_sign(o, a, b) < 0 {
            a = b;
        }
        i += 1;
    }
    a
}

/// The points that a sequence of references refers to.
pub open spec fn pointed(refs: Seq<&Point>) -> Seq<Point> {
    Seq::new(refs.len(), |i: int| *refs[i])
}

/// Tells whether `hull` holds a point equal to `p`.
fn holds(hull: &Vec<&Point>, p: &Point) -> (r: bool)
    ensures
        r == pointed(hull@).contains(*p),
{
    let mut i: usize = 0;
    while i < hull.len()
        invariant
            0 <= i <= hull.len(),
            forall|j: int| 0 <= j < i ==> pointed(hull@)[j] != *p,
        decreases hull.len() - i,
    {
        if *hull[i] == *p {
            assert(pointed(hull@)[i as int] == *p);
            return true;
        }
        i += 1;
    }
    false
}

/// What both marches promise of their result `hull` on the input `points`.
///
/// The hull is the finished march: it starts at the lowest point, goes from
/// each vertex to the one that follows it, holds no point twice and stops
/// where the next vertex would be one it already holds. So it is not empty,
/// its vertices are input points, and a single input point is its own hull.
/// When no three points of the boundary are on one line, the march closes at
/// its starting point, the polygon is convex, and no input point lies
/// outside it.
pub open spec fn is_hull_of(hull: Seq<Point>, points: Seq<Point>) -> bool {
    &&& is_march(points, hull)
    &&& hull.len() >= 1
    &&& hull.no_duplicates()
    &&& drawn_from(hull, points)
    &&& is_lowest(points, lowest_index(points))
    &&& hull[0] == points[lowest_index(points)]
    &&& points.len() == 1 ==> hull == seq![points[0]]
    &&& boundary_in_general_position(points) ==> {
        &&& next_vertex(points, hull.last()) == hull[0]
        &&& is_convex(hull)
        &&& encloses(hull, points)
    }
}

/// A finished march is the hull.
pub proof fn lemma_march_is_hull(points: Seq<Point>, hull: Seq<Point>)
    requires
        is_march(points, hull),
    ensures
        is_hull_of(hull, points),
{
    lemma_march_drawn_from_points(points, hull);
    if points.len() == 1 {
        lemma_march_of_one_point(points, hull);
    }
    if boundary_in_general_position(points) {
        lemma_march_returns_to_start(points, hull);
        lemma_hull_is_convex(points, hull);
        lemma_hull_encloses_points(points, hull);
    }
}

/// The hull is determined by the input: whatever is the hull of `points` is
/// the same sequence, so both marches, and every run of either, agree.
pub proof fn lemma_hull_unique(points: Seq<Point>, first: Seq<Point>, second: Seq<Point>)
    requires
        is_hull_of(first, points),
        is_hull_of(second, points),
    ensures
        first == second,
{
    lemma_march_unique(points, first, second);
}

/// Computes the convex hull of `points` by gift wrapping, with the sweep
/// written out as a loop.
///
/// The hull starts at the lowest point and runs counter-clockwise. There is
/// none for an empty input.
pub fn do_gift_wrapping_classic<'a>(points: &'a [Point]) -> (r: Option<Vec<&'a Point>>)
    ensures
        points@.len() == 0 ==> r is None,
        points@.len() > 0 ==> r is Some && is_hull_of(pointed(r.unwrap()@), points@),
{
    if points.len() < 1 {
        return None;
    }
    let mut convex: Vec<&Point> = Vec::new();
    let bottom: &Point = match find_bottommost_point(points) {
        Some(bottommost) => bottommost,
        None => unreached(),
    };
    let mut o: &Point = bottom;
    convex.push(o);
    assert(pointed(convex@) =~= seq![*bottom]);
    loop
        invariant
            points@.len() > 0,
            is_march_prefix(points@, pointed(convex@)),
            *o == pointed(convex@).last(),
        ensures
            is_march(points@, pointed(convex@)),
        decreases points@.len() - convex@.len(),
    {
        let mut a: &Point = &points[0];
        let mut i: usize = 1;
        while i < points.len()
            invariant
                1 <= i <= points.len(),
                *a == sweep(points@, *o, i as int),
            decreases points.len() - i,
        {
            let b: &Point = &points[i];
            if *o == *b {
            } else if *o == *a {
                a = b;
            } else if cross_sign(o, a, b) < 0 {
                a = b;
            }
            i += 1;
        }
        if holds(&convex, a) {
            // The march is back on a vertex it holds: the hull is closed.
            break;
        }
        // A new vertex of the hull.
        let ghost before = pointed(convex@);
        o = a;
        convex.push(o);
        proof {
            assert(pointed(convex@) =~= before.push(*a));
            lemma_march_goes_on(points@, before, *a);
        }
    }
    proof {
        lemma_march_is_hull(points@, pointed(convex@));
    }
    Some(convex)
}

/// Computes the convex hull of `points` by gift wrapping, each step of the
/// march being one call of [`wrap_step`].
///
/// The hull starts at the lowest point and runs counter-clockwise. There is
/// none for an empty input.
pub fn do_gift_wrapping_idiomatic<'a>(points: &'a [Point]) -> (r: Option<Vec<&'a Point>>)
    ensures
        points@.len() == 0 ==> r is None,
        points@.len() > 0 ==> r is Some && is_hull_of(pointed(r.unwrap()@), points@),
{
    let bottom: &Point = find_bottommost_point(points)?;
    let mut convex: Vec<&Point> = Vec::new();
    convex.push(bottom);
    assert(pointed(convex@) =~= seq![*bottom]);
    loop
        invariant
            points@.len() > 0,
            convex@.len() > 0,
            is_march_prefix(points@, pointed(convex@)),
        ensures
            is_march(points@, pointed(convex@)),
        decreases points@.len() - convex@.len(),
    {
        let next: &Point = wrap_step(points, convex[convex.len() - 1]);
        if holds(&convex, next) {
            break;
        }
        let ghost before = pointed(convex@);
        convex.push(next);
        proof {
            assert(pointed(convex@) =~= before.push(*next));
            lemma_march_goes_on(points@, before, *next);
        }
    }
    proof {
        lemma_march_is_hull(points@, pointed(convex@));
    }
    Some(convex)
}

} // verus!
