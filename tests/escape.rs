use mandelbrot::escape::escape_count;
use num::Complex;

fn mandelbrot_escape(c: Complex<f64>, limit: usize) -> Option<usize> {
    let escaped = |z: Complex<f64>| z.norm_sqr() >= 4.0;
    let step = |z: Complex<f64>| z * z + c;
    escape_count(Complex { re: 0.0, im: 0.0 }, limit, &escaped, &step)
}

#[test]
fn counting_steps_until_a_bound() {
    let escaped = |z: u64| z >= 3;
    let step = |z: u64| z + 1;
    assert_eq!(escape_count(0u64, 10, &escaped, &step), Some(3));
    assert_eq!(escape_count(0u64, 3, &escaped, &step), None);
    assert_eq!(escape_count(0u64, 4, &escaped, &step), Some(3));
    assert_eq!(escape_count(5u64, 10, &escaped, &step), Some(0));
    assert_eq!(escape_count(5u64, 0, &escaped, &step), None);
}

#[test]
fn fixed_point_never_escapes() {
    let escaped = |z: u64| z >= 3;
    let step = |z: u64| z;
    assert_eq!(escape_count(1u64, 1000, &escaped, &step), None);
}

#[test]
fn origin_never_escapes() {
    for limit in [0usize, 1, 10, 255, 1000] {
        assert_eq!(mandelbrot_escape(Complex { re: 0.0, im: 0.0 }, limit), None);
    }
}

#[test]
fn far_point_escapes_after_first_step() {
    // z starts at 0, which is tested before the first step
    assert_eq!(mandelbrot_escape(Complex { re: 5.0, im: 5.0 }, 255), Some(1));
    assert_eq!(mandelbrot_escape(Complex { re: 2.0, im: 0.0 }, 255), Some(1));
    assert_eq!(mandelbrot_escape(Complex { re: 5.0, im: 5.0 }, 1), None);
}

#[test]
fn point_in_the_set_stays_within_limit() {
    assert_eq!(mandelbrot_escape(Complex { re: -1.0, im: 0.0 }, 255), None);
    assert_eq!(mandelbrot_escape(Complex { re: 0.25, im: 0.0 }, 255), None);
}

#[test]
fn point_near_the_edge_takes_a_few_steps() {
    // 0 -> 1 -> 2, and |2|^2 = 4 escapes at step two
    assert_eq!(mandelbrot_escape(Complex { re: 1.0, im: 0.0 }, 255), Some(2));
}
