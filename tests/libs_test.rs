use mandelbrot::{complex_of, encode_image, escape_count, pair_of, parse_complex, parse_pair, render, shade, split_pair, EncodeError};
use num::Complex;

fn map_point(
    row: usize,
    column: usize,
    canvas_size: (usize, usize),
    upper_left: Complex<f64>,
    lower_right: Complex<f64>,
) -> Complex<f64> {
    let dx = (lower_right.re - upper_left.re) / canvas_size.0 as f64;
    let dy = (lower_right.im - upper_left.im) / canvas_size.1 as f64;
    Complex {
        re: upper_left.re + column as f64 * dx,
        im: upper_left.im - row as f64 * dy,
    }
}

fn escape(c: Complex<f64>, limit: u8, radius: f64) -> Option<u8> {
    let radius_sq = radius * radius;
    let zero = Complex { re: 0.0, im: 0.0 };
    escape_count(c, zero, limit, &|z: Complex<f64>| z.norm_sqr() > radius_sq, &|z: Complex<f64>, c: Complex<f64>| z * z + c)
}

fn render_plane(
    pixels: &mut [u8],
    canvas_size: (usize, usize),
    upper_left: Complex<f64>,
    lower_right: Complex<f64>,
    radius: f64,
    limit: u8,
) {
    let radius_sq = radius * radius;
    render(
        pixels,
        canvas_size,
        &|row: usize, column: usize| map_point(row, column, canvas_size, upper_left, lower_right),
        Complex { re: 0.0, im: 0.0 },
        &|z: Complex<f64>| z.norm_sqr() > radius_sq,
        &|z: Complex<f64>, c: Complex<f64>| z * z + c,
        limit,
    );
}

#[test]
fn test_parse_pair() {
    assert_eq!(parse_pair::<usize>("32x64", 'x'), Some((32, 64)));
    assert_eq!(parse_pair::<f64>("4.0,8.0", ','), Some((4.0, 8.0)));
    assert_eq!(parse_pair::<f64>("4.0,8.0", 'x'), None);
    assert_eq!(parse_pair::<f64>("", 'x'), None);
}

#[test]
fn test_parse_complex() {
    assert_eq!(parse_complex("32,64"), Some(Complex { re: 32.0, im: 64.0 }));
    assert_eq!(parse_complex("4.0,8.0"), Some(Complex { re: 4.0, im: 8.0 }));
    assert_eq!(parse_complex::<f64>("4.0x8.0"), None);
    assert_eq!(parse_complex::<f64>(""), None);
}

#[test]
fn pairs_and_complexes_are_built_in_order() {
    assert_eq!(pair_of(Some(1), Some(2)), Some((1, 2)));
    assert_eq!(pair_of(Some(1), None::<i32>), None);
    assert_eq!(pair_of(None, Some(2)), None);
    assert_eq!(complex_of(Some((3, 4))), Some(Complex { re: 3, im: 4 }));
    assert_eq!(complex_of::<i32>(None), None);
    assert_eq!(parse_pair::<usize>("3\u{2192}4", '\u{2192}'), Some((3, 4)));
    assert_eq!(parse_pair::<usize>("32x", 'x'), None);
}

#[test]
fn parse_pair_rejects_an_unparsable_side() {
    assert_eq!(parse_pair::<usize>("32xabc", 'x'), None);
    assert_eq!(parse_pair::<usize>("x64", 'x'), None);
    assert_eq!(parse_pair::<i32>("-3,4", ','), Some((-3, 4)));
}

#[test]
fn parse_pair_splits_at_the_first_separator() {
    assert_eq!(parse_pair::<usize>("1x2x3", 'x'), None);
    assert_eq!(split_pair("1x2x3", 'x'), Some(("1", "2x3")));
    assert_eq!(split_pair("x", 'x'), Some(("", "")));
    assert_eq!(split_pair("", 'x'), None);
    assert_eq!(split_pair("é,ü", ','), Some(("é", "ü")));
}

#[test]
fn origin_never_escapes() {
    let origin = Complex { re: 0.0, im: 0.0 };
    assert_eq!(escape(origin, 1, 2.0), None);
    assert_eq!(escape(origin, 255, 2.0), None);
    assert_eq!(escape(origin, 255, 0.5), None);
}

#[test]
fn escape_is_tested_before_each_update() {
    let c = Complex { re: 2.0, im: 2.0 };
    assert_eq!(escape(c, 255, 2.0), Some(1));
    assert_eq!(escape(c, 1, 2.0), None);
    assert_eq!(escape(c, 0, 2.0), None);
    assert_eq!(escape(Complex { re: 1.0, im: 0.0 }, 255, 2.0), Some(3));
}

#[test]
fn shade_counts_down_from_the_limit() {
    assert_eq!(shade(255, Some(0)), 255);
    assert_eq!(shade(255, Some(1)), 254);
    assert_eq!(shade(10, Some(10)), 0);
    assert_eq!(shade(255, None), 0);
}

#[test]
fn render_lays_out_rows_and_shades() {
    let mut pixels = vec![7u8; 6];
    render(
        &mut pixels,
        (3, 2),
        &|row: usize, column: usize| (row * 3 + column) as u8,
        0u8,
        &|z: u8| z >= 4,
        &|z: u8, c: u8| if z >= 200 { z } else { z + c },
        10,
    );
    // Point p reaches 4 after ceil(4 / p) updates; point 0 stays at 0.
    assert_eq!(pixels, vec![0, 6, 8, 8, 9, 9]);
}

#[test]
fn render_small_plane() {
    let mut pixels = vec![0u8; 4];
    render_plane(
        &mut pixels,
        (2, 2),
        Complex { re: -2.0, im: 2.0 },
        Complex { re: 2.0, im: -2.0 },
        2.0,
        100,
    );
    // The imaginary step is (lower - upper) / height = -2, subtracted per row.
    // Pixel (0,0) is -2+2i, escaping at test 1; (0,1) is 0+2i, escaping at
    // test 2; (1,0) is -2+4i and (1,1) is 0+4i, both escaping at test 1.
    assert_eq!(pixels, vec![99, 98, 99, 99]);
}

#[test]
fn renders_are_deterministic() {
    let size = (64, 48);
    let upper_left = Complex { re: -2.0, im: 1.2 };
    let lower_right = Complex { re: 1.0, im: -1.2 };
    let mut first = vec![0u8; 64 * 48];
    let mut second = vec![1u8; 64 * 48];
    render_plane(&mut first, size, upper_left, lower_right, 2.0, 255);
    render_plane(&mut second, size, upper_left, lower_right, 2.0, 255);
    assert_eq!(first, second);
}

#[test]
fn generates_full_size_png() {
    let size = (1024, 780);
    let mut pixels = vec![0u8; 1024 * 780];
    render_plane(
        &mut pixels,
        size,
        Complex { re: -1.20, im: 0.1 },
        Complex { re: -1.75, im: 0.5 },
        2.0,
        255,
    );
    let bytes = encode_image(&pixels, size).expect("encoding failed");
    assert_eq!(&bytes[..8], &[0x89, b'P', b'N', b'G', 0x0d, 0x0a, 0x1a, 0x0a]);
    let decoded = image::load_from_memory(&bytes).expect("decoding failed");
    assert_eq!(decoded.width(), 1024);
    assert_eq!(decoded.height(), 780);
    assert_eq!(decoded.color(), image::ColorType::L8);
    assert_eq!(decoded.into_luma8().into_raw(), pixels);
}

#[test]
fn encode_reports_each_error() {
    assert_eq!(encode_image(&[0u8; 5], (2, 3)), Err(EncodeError::BufferSize));
    assert_eq!(encode_image(&[], (u32::MAX as usize, 2)), Err(EncodeError::BufferSize));
    assert_eq!(encode_image(&[], (usize::MAX, 2)), Err(EncodeError::Dimensions));
    assert_eq!(encode_image(&[], (1usize << 32, 0)), Err(EncodeError::Dimensions));
    assert_eq!(encode_image(&[], (0, 0)), Err(EncodeError::Encoding));
    assert_eq!(encode_image(&[], (0, 5)), Err(EncodeError::Encoding));
    assert_eq!(encode_image(&[], (7, 0)), Err(EncodeError::Encoding));
    assert!(encode_image(&[42], (1, 1)).is_ok());
    assert!(encode_image(&[1, 2, 3, 4, 5, 6], (2, 3)).is_ok());
}
