//! Reading points from text: one point to a line, written as two decimal
//! numbers with a comma between them, in round brackets or without.
//!
//! Every number is held exactly. The points of one text are put on one
//! grid: with `places` decimal places, a coordinate counts steps of ten to
//! the minus `places`, and `places` is the least that every number of the
//! text needs. So `(0.1234, 0.5)` is the point `(1234, 5000)` at 4 places.

use crate::decimal::{
    fits, grid_value, on_grid, parse_number, places_needed, written_of, Decimal, NumberError,
    Written, MAX_EXPONENT,
};
use crate::point::Point;
use crate::text::{fields_of, split_fields, trim_bytes, trimmed, Trim};
use vstd::prelude::*;

verus! {

/// Why a text gave no points.
#[derive(Clone, Copy, Debug, PartialEq, Eq, Structural)]
pub enum PointSourceError {
    /// The line with this index, counted from 0, is not two numbers with a
    /// comma between them.
    Parse { line: usize },
    /// The text had no line.
    EmptyInput,
    /// Every line is a point, but the points cannot be held on one grid: a
    /// number has digits or an exponent beyond what is held, or a
    /// coordinate is more than 2^63 - 1 grid steps from zero.
    OutOfGrid,
}

/// Points on a grid of `places` decimal places: a coordinate `c` stands for
/// the number `c` times ten to the minus `places`.
#[derive(Debug, PartialEq, Eq)]
pub struct PointSet {
    pub places: u64,
    pub points: Vec<Point>,
}

/// The two numbers that `line` writes: within spaces and round brackets,
/// two numbers with one comma between them, each within white space.
pub open spec fn written_point_of(line: Seq<u8>) -> Option<(Written, Written)> {
    match fields_of(trimmed(line, Trim::Wrapping)) {
        Some((left, right)) => match (
            written_of(trimmed(left, Trim::Blank)),
            written_of(trimmed(right, Trim::Blank)),
        ) {
            (Some(x), Some(y)) => Some((x, y)),
            _ => None,
        },
        None => None,
    }
}

/// Whether both numbers of a point can be held.
pub open spec fn held(w: (Written, Written)) -> bool {
    fits(w.0) && fits(w.1)
}

/// The lines of a text as sequences of bytes.
pub open spec fn texts(lines: Seq<Vec<u8>>) -> Seq<Seq<u8>> {
    lines.map_values(|line: Vec<u8>| line@)
}

/// Whether every line writes a point.
pub open spec fn all_written(text: Seq<Seq<u8>>) -> bool {
    forall|i: int| 0 <= i < text.len() ==> written_point_of(#[trigger] text[i]) is Some
}

/// The decimal places that the first `n` lines need: the most that any of
/// their numbers needs.
pub open spec fn common_places(text: Seq<Seq<u8>>, n: int) -> nat
    decreases n,
{
    if n <= 0 {
        0
    } else {
        let before = common_places(text, n - 1);
        let w = written_point_of(text[n - 1]).unwrap();
        let here = if places_needed(w.0) >= places_needed(w.1) {
            places_needed(w.0)
        } else {
            places_needed(w.1)
        };
        if before >= here {
            before
        } else {
            here
        }
    }
}

/// Whether the points of the text can be held on their common grid: every
/// number fits, and every coordinate is within range there.
pub open spec fn representable(text: Seq<Seq<u8>>) -> bool {
    forall|i: int|
        0 <= i < text.len() ==> {
            let w = written_point_of(#[trigger] text[i]).unwrap();
            let places = common_places(text, text.len() as int);
            held(w) && on_grid(w.0, places) && on_grid(w.1, places)
        }
}

/// The point that two numbers make on the grid of `places` decimal places.
pub open spec fn grid_point(w: (Written, Written), places: nat) -> Point {
    Point { x: grid_value(w.0, places) as i64, y: grid_value(w.1, places) as i64 }
}

/// The common places cover what each line needs.
proof fn lemma_common_places_cover(text: Seq<Seq<u8>>, n: int, j: int)
    requires
        0 <= j < n <= text.len(),
    ensures
        places_needed(written_point_of(text[j]).unwrap().0) <= common_places(text, n),
        places_needed(written_point_of(text[j]).unwrap().1) <= common_places(text, n),
    decreases n,
{
    if j < n - 1 {
        lemma_common_places_cover(text, n - 1, j);
    }
}

/// Reads one line as two numbers.
pub fn parse_line(line: &[u8]) -> (r: Result<(Decimal, Decimal), NumberError>)
    ensures
        match r {
            Ok((x, y)) => written_point_of(line@) == Some((x.written(), y.written())) && held(
                (x.written(), y.written()),
            ),
            Err(NumberError::Malformed) => written_point_of(line@) is None,
            Err(NumberError::TooLarge) => written_point_of(line@) is Some && !held(
                written_point_of(line@).unwrap(),
            ),
        },
{
    let body = trim_bytes(line, Trim::Wrapping);
    match split_fields(body) {
        Some((left, right)) => {
            let x = parse_number(trim_bytes(left, Trim::Blank));
            let y = parse_number(trim_bytes(right, Trim::Blank));
            match (x, y) {
                (Err(NumberError::Malformed), _) => Err(NumberError::Malformed),
                (_, Err(NumberError::Malformed)) => Err(NumberError::Malformed),
                (Err(NumberError::TooLarge), _) => Err(NumberError::TooLarge),
                (_, Err(NumberError::TooLarge)) => Err(NumberError::TooLarge),
                (Ok(x), Ok(y)) => Ok((x, y)),
            }
        },
        None => Err(NumberError::Malformed),
    }
}

/// Reads every line as two numbers. The first line that is no point fails
/// the text; a line with a number too large to hold is set aside and
/// remembered.
fn read_lines(lines: &[Vec<u8>]) -> (r: Result<(Vec<(Decimal, Decimal)>, bool), usize>)
    ensures
        match r {
            Ok((numbers, all_held)) => {
                &&& all_written(texts(lines@))
                &&& numbers@.len() == lines@.len()
                &&& all_held <==> forall|i: int|
                    0 <= i < lines@.len() ==> held(
                        written_point_of(#[trigger] texts(lines@)[i]).unwrap(),
                    )
                &&& all_held ==> forall|i: int|
                    0 <= i < lines@.len() ==> written_point_of(#[trigger] texts(lines@)[i])
                        == Some((numbers@[i].0.written(), numbers@[i].1.written()))
            },
            Err(line) => {
                &&& line < lines@.len()
                &&& written_point_of(texts(lines@)[line as int]) is None
                &&& forall|i: int|
                    0 <= i < line ==> written_point_of(#[trigger] texts(lines@)[i]) is Some
            },
        },
{
    let ghost text = texts(lines@);
    let zero = Decimal { negative: false, digits: 0, exponent: 0 };
    let mut numbers: Vec<(Decimal, Decimal)> = Vec::new();
    let mut all_held = true;
    let mut i: usize = 0;
    while i < lines.len()
        invariant
            0 <= i <= lines.len(),
            text == texts(lines@),
            numbers@.len() == i,
            forall|j: int| 0 <= j < i ==> written_point_of(#[trigger] text[j]) is Some,
            all_held <==> forall|j: int|
                0 <= j < i ==> held(written_point_of(#[trigger] text[j]).unwrap()),
            all_held ==> forall|j: int|
                0 <= j < i ==> written_point_of(#[trigger] text[j]) == Some(
                    (numbers@[j].0.written(), numbers@[j].1.written()),
                ),
        decreases lines.len() - i,
    {
        assert(text[i as int] == lines@[i as int]@);
        match parse_line(lines[i].as_slice()) {
            Ok(pair) => numbers.push(pair),
            Err(NumberError::Malformed) => {
                return Err(i);
            },
            Err(NumberError::TooLarge) => {
                all_held = false;
                numbers.push((zero, zero));
            },
        }
        i += 1;
    }
    Ok((numbers, all_held))
}

/// Reads the lines of a text as points on their common grid, in the order
/// of the lines.
///
/// The first line that is no point fails the whole text; so does a text
/// without lines, and one whose points cannot be held on one grid.
pub fn parse_points(lines: &[Vec<u8>]) -> (r: Result<PointSet, PointSourceError>)
    ensures
        match r {
            Ok(set) => {
                &&& lines@.len() > 0
                &&& all_written(texts(lines@))
                &&& representable(texts(lines@))
                &&& set.places == common_places(texts(lines@), lines@.len() as int)
                &&& set.points@.len() == lines@.len()
                &&& forall|i: int|
                    0 <= i < lines@.len() ==> set.points@[i] == grid_point(
                        written_point_of(#[trigger] texts(lines@)[i]).unwrap(),
                        set.places as nat,
                    )
            },
            Err(PointSourceError::Parse { line }) => {
                &&& line < lines@.len()
                &&& written_point_of(texts(lines@)[line as int]) is None
                &&& forall|i: int|
                    0 <= i < line ==> written_point_of(#[trigger] texts(lines@)[i]) is Some
            },
            Err(PointSourceError::EmptyInput) => lines@.len() == 0,
            Err(PointSourceError::OutOfGrid) => {
                &&& lines@.len() > 0
                &&& all_written(texts(lines@))
                &&& !representable(texts(lines@))
            },
        },
{
    let ghost text = texts(lines@);
    let (numbers, all_held) = match read_lines(lines) {
        Ok(read) => read,
        Err(line) => {
            return Err(PointSourceError::Parse { line });
        },
    };
    if numbers.len() == 0 {
        return Err(PointSourceError::EmptyInput);
    }
    if !all_held {
        return Err(PointSourceError::OutOfGrid);
    }
    let mut places: u64 = 0;
    let mut i: usize = 0;
    while i < numbers.len()
        invariant
            0 <= i <= numbers@.len() == text.len(),
            places == common_places(text, i as int),
            places <= MAX_EXPONENT,
            forall|j: int|
                0 <= j < text.len() ==> written_point_of(#[trigger] text[j]) == Some(
                    (numbers@[j].0.written(), numbers@[j].1.written()),
                ) && held(written_point_of(text[j]).unwrap()),
        decreases numbers@.len() - i,
    {
        assert(written_point_of(text[i as int]) is Some);
        let x = numbers[i].0.places();
        let y = numbers[i].1.places();
        if x > places {
            places = x;
        }
        if y > places {
            places = y;
        }
        i += 1;
    }
    let mut points: Vec<Point> = Vec::new();
    let mut i: usize = 0;
    while i < numbers.len()
        invariant
            0 <= i <= numbers@.len() == text.len(),
            points@.len() == i,
            text == texts(lines@),
            lines@.len() > 0,
            places == common_places(text, text.len() as int),
            places <= MAX_EXPONENT,
            forall|j: int|
                0 <= j < text.len() ==> written_point_of(#[trigger] text[j]) == Some(
                    (numbers@[j].0.written(), numbers@[j].1.written()),
                ) && held(written_point_of(text[j]).unwrap()),
            forall|j: int|
                0 <= j < i ==> {
                    let w = written_point_of(#[trigger] text[j]).unwrap();
                    on_grid(w.0, places as nat) && on_grid(w.1, places as nat) && points@[j]
                        == grid_point(w, places as nat)
                },
        decreases numbers@.len() - i,
    {
        proof {
            assert(written_point_of(text[i as int]) is Some);
            lemma_common_places_cover(text, text.len() as int, i as int);
        }
        let x = numbers[i].0.to_grid(places);
        let y = numbers[i].1.to_grid(places);
        match (x, y) {
            (Some(x), Some(y)) => points.push(Point { x, y }),
            _ => {
                proof {
                    let w = written_point_of(text[i as int]).unwrap();
                    assert(!(on_grid(w.0, places as nat) && on_grid(w.1, places as nat)));
                }
                return Err(PointSourceError::OutOfGrid);
            },
        }
        i += 1;
    }
    Ok(PointSet { places, points })
}

} // verus!
