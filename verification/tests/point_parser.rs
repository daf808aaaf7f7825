use convex_hull::decimal::{Decimal, NumberError};
use convex_hull::gift_wrapping::do_gift_wrapping_idiomatic;
use convex_hull::point::Point;
use convex_hull::point_parser::{parse_line, parse_points, PointSet, PointSourceError};

fn lines(text: &[&str]) -> Vec<Vec<u8>> {
    text.iter().map(|line| line.as_bytes().to_vec()).collect()
}

fn set(places: u64, coordinates: &[(i64, i64)]) -> Result<PointSet, PointSourceError> {
    Ok(PointSet { places, points: coordinates.iter().map(|c| Point::new(c.0, c.1)).collect() })
}

#[test]
fn malformed_number_fails_the_line() {
    assert_eq!(parse_line(b"1.0, abc"), Err(NumberError::Malformed));
    assert_eq!(parse_points(&lines(&["1.0, abc"])), Err(PointSourceError::Parse { line: 0 }));
}

#[test]
fn no_lines_is_an_empty_input() {
    assert_eq!(parse_points(&[]), Err(PointSourceError::EmptyInput));
}

#[test]
fn first_bad_line_fails_the_text() {
    let text = lines(&["(0, 0)", "1,2", "(3 4)", "nonsense", "5,6"]);
    assert_eq!(parse_points(&text), Err(PointSourceError::Parse { line: 2 }));
    let text = lines(&["(0, 0)", ""]);
    assert_eq!(parse_points(&text), Err(PointSourceError::Parse { line: 1 }));
}

#[test]
fn points_come_in_the_order_of_the_lines() {
    let text = lines(&["(1.0, 2.5)", "1.0,2.5", "  ( -3 ,  4.25 )  ", "0,0"]);
    assert_eq!(parse_points(&text), set(2, &[(100, 250), (100, 250), (-300, 425), (0, 0)]));
}

#[test]
fn whole_numbers_need_no_places() {
    let text = lines(&["(0, 0)", "(3, -4)", "12,7"]);
    assert_eq!(parse_points(&text), set(0, &[(0, 0), (3, -4), (12, 7)]));
}

#[test]
fn any_number_of_fraction_digits_is_read() {
    assert_eq!(parse_points(&lines(&["0.1234,0"])), set(4, &[(1234, 0)]));
    assert_eq!(parse_points(&lines(&["(0.1234, 0.0)"])), set(4, &[(1234, 0)]));
    assert_eq!(parse_points(&lines(&["(0.0005, 0)"])), set(4, &[(5, 0)]));
    assert_eq!(parse_points(&lines(&["1.0000, 2"])), set(0, &[(1, 2)]));
    assert_eq!(parse_points(&lines(&["1.00000000000000000000000, 0.50"])), set(1, &[(10, 5)]));
    assert_eq!(
        parse_points(&lines(&["0.1234567, 1234567.0"])),
        set(7, &[(1234567, 12345670000000)])
    );
    assert_eq!(
        parse_points(&lines(&["0.000000000000000001, 1"])),
        set(18, &[(1, 1_000_000_000_000_000_000)])
    );
}

#[test]
fn point_written_as_a_pair_of_floats_reads_back_as_itself() {
    let pairs: [(f32, f32); 8] = [
        (0.1234, 0.0),
        (1.0, 2.5),
        (1e-7, -2.5),
        (1e16, -3.0),
        (123456.79, 0.001),
        (-0.0, 5.4),
        (16777216.0, 0.33333334),
        (1.1754944e-38, 0.0),
    ];
    for pair in pairs {
        let line = format!("{:?}", pair);
        let set = parse_points(&lines(&[&line])).unwrap();
        assert_eq!(set.points.len(), 1);
        let steps = 10f64.powf(set.places as f64);
        assert_eq!((set.points[0].x as f64 / steps) as f32, pair.0, "{}", line);
        assert_eq!((set.points[0].y as f64 / steps) as f32, pair.1, "{}", line);
    }
    assert_eq!(parse_points(&lines(&["(0.1234, 0.0)"])), set(4, &[(1234, 0)]));
    assert_eq!(parse_points(&lines(&["(1e-7, -2.5)"])), set(7, &[(1, -25000000)]));
}

#[test]
fn powers_of_ten_are_read() {
    assert_eq!(parse_points(&lines(&["1e3, 2.5E-1"])), set(2, &[(100000, 25)]));
    assert_eq!(parse_points(&lines(&["(1e-7, 1.0)"])), set(7, &[(1, 10000000)]));
    assert_eq!(parse_points(&lines(&["(1e16, -2.5e+3)"])), set(0, &[(10000000000000000, -2500)]));
    assert_eq!(parse_points(&lines(&["1e-30, 3e-30"])), set(30, &[(1, 3)]));
}

#[test]
fn places_are_common_to_all_lines() {
    let text = lines(&["1, 2", "0.5, 3", "4, 0.125"]);
    assert_eq!(parse_points(&text), set(3, &[(1000, 2000), (500, 3000), (4000, 125)]));
}

#[test]
fn brackets_and_spaces_around_a_line_are_optional() {
    let expected = set(1, &[(10, 25)]);
    for line in ["(1.0, 2.5)", "1.0,2.5", "  (1.0,2.5", "1.0 , 2.5) ) ", "(( 1.0\t,\t2.5 ))"] {
        assert_eq!(parse_points(&lines(&[line])), expected, "{:?}", line);
    }
}

#[test]
fn white_space_of_any_kind_may_stand_around_a_number() {
    let expected = set(1, &[(10, 25)]);
    for line in ["1.0,\u{a0}2.5", "(\u{2003}1.0\u{3000},\u{85}2.5\u{2028})", "1.0\r,\n2.5"] {
        assert_eq!(parse_points(&lines(&[line])), expected, "{:?}", line);
    }
    assert_eq!(
        parse_points(&lines(&["1.0,\u{200b}2.5"])),
        Err(PointSourceError::Parse { line: 0 })
    );
}

#[test]
fn one_comma_is_needed_and_no_more() {
    for line in ["1.0 2.5", "1,2,3", "1,2,", ",", "1,", ",2", "", "()"] {
        assert_eq!(parse_line(line.as_bytes()), Err(NumberError::Malformed), "{:?}", line);
        assert_eq!(parse_points(&lines(&[line])), Err(PointSourceError::Parse { line: 0 }));
    }
}

#[test]
fn brackets_inside_a_line_are_no_part_of_a_number() {
    for line in ["(1),(2)", "\t(1,2)", "1 0, 2", "inf, 0", "0, nan"] {
        assert_eq!(parse_points(&lines(&[line])), Err(PointSourceError::Parse { line: 0 }));
    }
}

#[test]
fn line_is_read_as_two_numbers() {
    assert_eq!(
        parse_line(b" ( -1.50 , 2e3 ) "),
        Ok((
            Decimal { negative: true, digits: 15, exponent: -1 },
            Decimal { negative: false, digits: 2, exponent: 3 }
        ))
    );
    assert_eq!(parse_line(b"1e99999999999999999999, 0"), Err(NumberError::TooLarge));
    assert_eq!(parse_line(b"0, 99999999999999999999"), Err(NumberError::TooLarge));
    assert_eq!(parse_line(b"99999999999999999999, x"), Err(NumberError::Malformed));
    assert_eq!(parse_line(b"x, 99999999999999999999"), Err(NumberError::Malformed));
}

#[test]
fn points_beyond_the_grid_are_out_of_grid() {
    assert_eq!(parse_points(&lines(&["9223372036854775807, 0"])), set(0, &[(i64::MAX, 0)]));
    assert_eq!(parse_points(&lines(&["-9223372036854775808, 0"])), set(0, &[(i64::MIN, 0)]));
    assert_eq!(
        parse_points(&lines(&["-9223372036854775809, 0"])),
        Err(PointSourceError::OutOfGrid)
    );
    assert_eq!(
        parse_points(&lines(&["9223372036854775808, 0"])),
        Err(PointSourceError::OutOfGrid)
    );
    assert_eq!(parse_points(&lines(&["1e19, 0"])), Err(PointSourceError::OutOfGrid));
    assert_eq!(parse_points(&lines(&["3.4028235e38, 0"])), Err(PointSourceError::OutOfGrid));
    assert_eq!(
        parse_points(&lines(&["0, 1e-9223372036854775808"])),
        Err(PointSourceError::OutOfGrid)
    );
    // Each number alone can be held, but not both on one grid.
    assert_eq!(parse_points(&lines(&["1e18, 0", "0.1, 0"])), Err(PointSourceError::OutOfGrid));
    assert_eq!(
        parse_points(&lines(&["1e18, 0", "1, 0"])),
        set(0, &[(1_000_000_000_000_000_000, 0), (1, 0)])
    );
    assert_eq!(
        parse_points(&lines(&["0e0, 0", "1e-9223372036854775807, 0"])),
        set(9223372036854775807, &[(0, 0), (1, 0)])
    );
}

#[test]
fn line_that_is_no_point_comes_before_the_grid() {
    let text = lines(&["1e30, 0", "fine, 1", "2, 2"]);
    assert_eq!(parse_points(&text), Err(PointSourceError::Parse { line: 1 }));
    let text = lines(&["1e30, 0", "1, 1"]);
    assert_eq!(parse_points(&text), Err(PointSourceError::OutOfGrid));
}

#[test]
fn parsed_points_go_through_the_march() {
    let text = lines(&[
        "(0.0, 0.0)",
        "(0.0, 4.0)",
        "(4.0, 4.0)",
        "(1.0, 4.0)",
        "(0.0, 2.0)",
        "(3.0, 6.0)",
        "(-3.0, 6.0)",
        "(-4.0, 4.0)",
        "(1.0, 5.4)",
        "(-1.0, 3.0)",
    ]);
    let set = parse_points(&text).unwrap();
    assert_eq!(set.places, 1);
    assert_eq!(set.points[8], Point::new(10, 54));
    let hull = do_gift_wrapping_idiomatic(&set.points).unwrap();
    assert_eq!(
        hull,
        vec![
            &Point::new(0, 0),
            &Point::new(40, 40),
            &Point::new(30, 60),
            &Point::new(-30, 60),
            &Point::new(-40, 40)
        ]
    );
}
