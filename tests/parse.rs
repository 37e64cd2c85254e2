use mandelbrot::parse::{find_char, parse_pair};

#[test]
fn test_parse_pair() {
    assert_eq!(parse_pair("10,", 'x'), None);
    assert_eq!(parse_pair("100,20", ','), Some((100, 20)));
    assert_eq!(parse_pair("100,20", 'x'), None);
}

#[test]
fn pair_of_pixel_dimensions() {
    assert_eq!(parse_pair("1000x750", 'x'), Some((1000, 750)));
    assert_eq!(parse_pair("1x1", 'x'), Some((1, 1)));
}

#[test]
fn pair_joined_around_separator_reads_back() {
    for (a, b) in [(0usize, 0usize), (7, 42), (123456, 9), (usize::MAX, 1)] {
        let s = format!("{}:{}", a, b);
        assert_eq!(parse_pair(&s, ':'), Some((a, b)));
    }
}

#[test]
fn pair_with_an_empty_side_fails() {
    assert_eq!(parse_pair(",20", ','), None);
    assert_eq!(parse_pair("20,", ','), None);
    assert_eq!(parse_pair(",", ','), None);
    assert_eq!(parse_pair("", ','), None);
}

#[test]
fn pair_with_a_side_that_is_not_a_number_fails() {
    assert_eq!(parse_pair("10,abc", ','), None);
    assert_eq!(parse_pair("-3,4", ','), None);
    assert_eq!(parse_pair(" 3,4", ','), None);
    assert_eq!(parse_pair("3,18446744073709551616000", ','), None);
}

#[test]
fn pair_splits_only_at_first_separator() {
    // the right side "2x3" is not a number, and no later split is tried
    assert_eq!(parse_pair("1x2x3", 'x'), None);
}

#[test]
fn pair_with_a_wide_separator() {
    assert_eq!(parse_pair("12é34", 'é'), Some((12, 34)));
}

#[test]
fn first_occurrence_is_found() {
    let cs: Vec<char> = "ab,cd,e".chars().collect();
    assert_eq!(find_char(&cs, ','), Some(2));
    assert_eq!(find_char(&cs, 'e'), Some(6));
    assert_eq!(find_char(&cs, 'z'), None);
    assert_eq!(find_char(&[], ','), None);
}
