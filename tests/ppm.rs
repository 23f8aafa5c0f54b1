use raytracer::image::{Image, Rgb};
use raytracer::ppm::{encode_ppm, push_decimal, push_header, push_pixel_line};

fn text(bytes: Vec<u8>) -> String {
    String::from_utf8(bytes).unwrap()
}

#[test]
fn decimal_numerals() {
    for (n, expected) in [(0usize, "0"), (7, "7"), (10, "10"), (255, "255"), (1200, "1200")] {
        let mut out = Vec::new();
        push_decimal(&mut out, n);
        assert_eq!(text(out), expected);
    }
}

#[test]
fn decimal_appends_after_existing_bytes() {
    let mut out = b"x=".to_vec();
    push_decimal(&mut out, 42);
    assert_eq!(text(out), "x=42");
}

#[test]
fn header_names_size_and_max_value() {
    let mut out = Vec::new();
    push_header(&mut out, 1200, 675);
    assert_eq!(text(out), "P3\n1200 675\n255\n");
}

#[test]
fn pixel_line_has_three_channels() {
    let mut out = Vec::new();
    push_pixel_line(&mut out, Rgb::new(255, 0, 17));
    assert_eq!(text(out), "255 0 17\n");
}

#[test]
fn encode_writes_top_scanline_first() {
    let mut image = Image::new(2, 2);
    image.set(0, 1, Rgb::new(1, 1, 1));
    image.set(1, 1, Rgb::new(2, 2, 2));
    image.set(0, 0, Rgb::new(3, 3, 3));
    image.set(1, 0, Rgb::new(4, 4, 4));
    let out = text(encode_ppm(&image));
    assert_eq!(out, "P3\n2 2\n255\n1 1 1\n2 2 2\n3 3 3\n4 4 4\n");
}

#[test]
fn encode_has_one_line_per_pixel() {
    let image = Image::new(4, 3);
    let out = text(encode_ppm(&image));
    assert_eq!(out.lines().count(), 3 + 12);
    assert!(out.lines().skip(3).all(|l| l == "0 0 0"));
}

#[test]
fn encode_empty_image() {
    let image = Image::new(0, 0);
    assert_eq!(text(encode_ppm(&image)), "P3\n0 0\n255\n");
}

#[test]
fn decimal_of_largest_value() {
    let mut out = Vec::new();
    push_decimal(&mut out, usize::MAX);
    assert_eq!(text(out), usize::MAX.to_string());
}

#[test]
fn pixel_line_of_extremes() {
    let mut out = Vec::new();
    push_pixel_line(&mut out, Rgb::new(0, 0, 0));
    push_pixel_line(&mut out, Rgb::new(255, 255, 255));
    assert_eq!(text(out), "0 0 0\n255 255 255\n");
}
