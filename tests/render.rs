use mandelbrot::render::{intensity, pixel_of_index, render, render_band};

#[test]
fn intensity_of_counts() {
    assert_eq!(intensity(None), 0);
    assert_eq!(intensity(Some(0)), 255);
    assert_eq!(intensity(Some(1)), 254);
    assert_eq!(intensity(Some(200)), 55);
    assert_eq!(intensity(Some(254)), 1);
    assert_eq!(intensity(Some(255)), 0);
}

#[test]
fn pixel_of_linear_index() {
    assert_eq!(pixel_of_index(0, 100), (0, 0));
    assert_eq!(pixel_of_index(175 * 100 + 25, 100), (25, 175));
    assert_eq!(pixel_of_index(99, 100), (99, 0));
    assert_eq!(pixel_of_index(100, 100), (0, 1));
    assert_eq!(pixel_of_index(5, 1), (0, 5));
}

fn toy_escape(col: usize, row: usize) -> Option<usize> {
    if (col + row) % 3 == 0 {
        None
    } else {
        Some(col * 10 + row)
    }
}

#[test]
fn render_shades_every_pixel_row_major() {
    let buf = render((4, 3), &toy_escape);
    assert_eq!(buf.len(), 12);
    for row in 0..3 {
        for col in 0..4 {
            let expected = match toy_escape(col, row) {
                None => 0,
                Some(k) => 255 - k as u8,
            };
            assert_eq!(buf[row * 4 + col], expected);
        }
    }
    assert_eq!(buf[0], 0);
    assert_eq!(buf[1], 245);
    assert_eq!(buf[4 + 3], 255 - 31);
}

#[test]
fn single_pixel_grid() {
    let buf = render((1, 1), &|c: usize, r: usize| Some(c + r + 7));
    assert_eq!(buf, vec![248]);
}

#[test]
fn empty_grid_gives_empty_buffer() {
    assert!(render((0, 5), &toy_escape).is_empty());
    assert!(render((5, 0), &toy_escape).is_empty());
}

#[test]
fn bands_joined_equal_one_pass() {
    let whole = render((5, 4), &toy_escape);
    for chunk in 1..=21 {
        let mut joined = Vec::new();
        let mut start = 0;
        while start < 20 {
            let end = std::cmp::min(start + chunk, 20);
            joined.extend(render_band(5, start, end, &toy_escape));
            start = end;
        }
        assert_eq!(joined, whole);
    }
}

#[test]
fn render_twice_is_identical() {
    let a = render((7, 6), &toy_escape);
    let b = render((7, 6), &toy_escape);
    assert_eq!(a, b);
}

#[test]
fn never_escaping_grid_is_black_and_fast_escape_is_white() {
    assert!(render((3, 2), &|_c: usize, _r: usize| None).iter().all(|&v| v == 0));
    assert!(render((3, 2), &|_c: usize, _r: usize| Some(0)).iter().all(|&v| v == 255));
}
