use mandelbrot::escape::escape_time;
use mandelbrot::render::{intensity, render, DEFAULT_LIMIT};

fn mandelbrot_escape(c: (f64, f64), limit: u32) -> Option<u32> {
    escape_time(
        (0.0f64, 0.0f64),
        limit,
        &|z: (f64, f64)| z.0 * z.0 + z.1 * z.1 > 4.0,
        &|z: (f64, f64)| (z.0 * z.0 - z.1 * z.1 + c.0, 2.0 * z.0 * z.1 + c.1),
    )
}

fn plane_point(bounds: (u32, u32), pixel: (u32, u32)) -> (f64, f64) {
    let (ul, lr) = ((-1.0f64, 1.0f64), (1.0f64, -1.0f64));
    (
        ul.0 + pixel.0 as f64 * (lr.0 - ul.0) / bounds.0 as f64,
        ul.1 - pixel.1 as f64 * (ul.1 - lr.1) / bounds.1 as f64,
    )
}

#[test]
fn intensity_values() {
    assert_eq!(intensity(None), 0);
    assert_eq!(intensity(Some(0)), 255);
    assert_eq!(intensity(Some(1)), 254);
    assert_eq!(intensity(Some(254)), 1);
    assert_eq!(intensity(Some(255)), 0);
    assert_eq!(intensity(Some(1000)), 0);
}

#[test]
fn render_is_row_major() {
    let buf = render((3, 2), &|x: u32, y: u32| Some(10 * y + x));
    assert_eq!(buf, vec![255, 254, 253, 245, 244, 243]);
}

#[test]
fn render_bounded_pixels_are_black() {
    let buf = render((2, 2), &|x: u32, _y: u32| if x == 0 { None } else { Some(5) });
    assert_eq!(buf, vec![0, 250, 0, 250]);
}

#[test]
fn render_empty_raster() {
    assert!(render((0, 5), &|_x: u32, _y: u32| None).is_empty());
    assert!(render((5, 0), &|_x: u32, _y: u32| None).is_empty());
}

#[test]
fn escape_time_origin_never_escapes() {
    assert_eq!(mandelbrot_escape((0.0, 0.0), 1), None);
    assert_eq!(mandelbrot_escape((0.0, 0.0), 255), None);
}

#[test]
fn escape_time_checks_before_update() {
    // The seed 0 is tested first, so c = 3 escapes at the second test.
    assert_eq!(mandelbrot_escape((3.0, 0.0), 255), Some(1));
    assert_eq!(mandelbrot_escape((3.0, 0.0), 1), None);
    assert_eq!(mandelbrot_escape((0.0, 0.0), 0), None);
}

#[test]
fn escape_time_escaped_seed_is_zero() {
    let r = escape_time(5i64, 10, &|z: i64| z > 4, &|z: i64| z + 1);
    assert_eq!(r, Some(0));
    let r = escape_time(0i64, 10, &|z: i64| z > 4, &|z: i64| z + 1);
    assert_eq!(r, Some(5));
    let r = escape_time(0i64, 5, &|z: i64| z > 4, &|z: i64| z + 1);
    assert_eq!(r, None);
}

#[test]
fn render_twice_is_identical() {
    let bounds = (20, 10);
    let f = |x: u32, y: u32| mandelbrot_escape(plane_point(bounds, (x, y)), DEFAULT_LIMIT);
    assert_eq!(render(bounds, &f), render(bounds, &f));
}

#[test]
fn render_center_darker_than_outside() {
    let bounds = (100, 200);
    let f = |x: u32, y: u32| mandelbrot_escape(plane_point(bounds, (x, y)), DEFAULT_LIMIT);
    let buf = render(bounds, &f);
    assert_eq!(buf.len(), 100 * 200);
    let center = buf[100 * 100 + 50];
    let right_edge = buf[100 * 100 + 99];
    assert_eq!(center, 0);
    assert!(center < right_edge);
}
