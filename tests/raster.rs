use mandelbrot::escape::escape_time;
use mandelbrot::raster::{buffer_fits, intensity, pixel_index, render, ESCAPE_LIMIT};

#[test]
fn intensity_encodes_outcomes() {
    assert_eq!(intensity(None), 0);
    assert_eq!(intensity(Some(0)), 255);
    assert_eq!(intensity(Some(10)), 245);
    assert_eq!(intensity(Some(254)), 1);
    assert_eq!(intensity(Some(255)), 0);
}

#[test]
fn pixel_index_is_row_major() {
    assert_eq!(pixel_index((100, 75), (0, 0)), 0);
    assert_eq!(pixel_index((100, 75), (3, 2)), 203);
    assert_eq!(pixel_index((100, 75), (99, 74)), 7499);
}

#[test]
fn buffer_fits_checks_shape() {
    assert!(buffer_fits(7500, (100, 75)));
    assert!(!buffer_fits(7499, (100, 75)));
    assert!(!buffer_fits(7501, (100, 75)));
    assert!(buffer_fits(0, (0, 10)));
    assert!(!buffer_fits(usize::MAX, (usize::MAX, 2)));
}

#[test]
fn render_writes_each_pixel_at_its_offset() {
    let bounds = (3usize, 2usize);
    let mut buffer = vec![7u8; 6];
    render(&mut buffer, bounds, &|p: (usize, usize)| {
        if p.0 == p.1 {
            None
        } else {
            Some((p.1 * 3 + p.0) as u32)
        }
    });
    assert_eq!(buffer, vec![0, 254, 253, 252, 0, 250]);
}

#[test]
fn render_on_empty_image_leaves_buffer_empty() {
    let mut buffer: Vec<u8> = Vec::new();
    render(&mut buffer, (0, 5), &|_p: (usize, usize)| Some(1));
    assert!(buffer.is_empty());
}

fn point_of(bounds: (usize, usize), pixel: (usize, usize), ul: (f64, f64), lr: (f64, f64)) -> (f64, f64) {
    let (width, height) = (lr.0 - ul.0, ul.1 - lr.1);
    (
        ul.0 + pixel.0 as f64 * width / bounds.0 as f64,
        ul.1 - pixel.1 as f64 * height / bounds.1 as f64,
    )
}

fn escape_of_point(c: (f64, f64)) -> Option<u32> {
    escape_time(
        (0.0f64, 0.0f64),
        ESCAPE_LIMIT,
        &|z: (f64, f64)| (z.0 * z.0 - z.1 * z.1 + c.0, 2.0 * z.0 * z.1 + c.1),
        &|z: (f64, f64)| z.0 * z.0 + z.1 * z.1 > 4.0,
    )
}

#[test]
fn full_pipeline_region() {
    let bounds = (100usize, 75usize);
    let ul = (-1.20, 0.35);
    let lr = (-1.0, 0.20);
    assert!(buffer_fits(bounds.0 * bounds.1, bounds));
    let mut buffer = vec![0u8; bounds.0 * bounds.1];
    render(&mut buffer, bounds, &|p: (usize, usize)| escape_of_point(point_of(bounds, p, ul, lr)));
    assert_eq!(buffer.len(), 7500);
    let expected = match escape_of_point(point_of(bounds, (0, 0), ul, lr)) {
        Some(i) => 255 - i as u8,
        None => 0,
    };
    assert_eq!(buffer[0], expected);
    assert_eq!(point_of(bounds, (0, 0), ul, lr), ul);
    for row in 0..bounds.1 {
        for col in 0..bounds.0 {
            let want = intensity(escape_of_point(point_of(bounds, (col, row), ul, lr)));
            assert_eq!(buffer[row * bounds.0 + col], want);
        }
    }
}
