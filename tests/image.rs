use raytracer::image::{scanline_order, scanline_pixel, Image, Rgb};

#[test]
fn scanline_order_starts_top_left() {
    let order = scanline_order(3, 2);
    assert_eq!(order, vec![(0, 1), (1, 1), (2, 1), (0, 0), (1, 0), (2, 0)]);
}

#[test]
fn scanline_order_of_empty_image() {
    assert!(scanline_order(0, 5).is_empty());
    assert!(scanline_order(5, 0).is_empty());
}

#[test]
fn scanline_pixel_matches_order() {
    let order = scanline_order(4, 3);
    for (k, p) in order.iter().enumerate() {
        assert_eq!(scanline_pixel(4, 3, k), *p);
    }
    assert_eq!(scanline_pixel(4, 3, 0), (0, 2));
    assert_eq!(scanline_pixel(4, 3, 11), (3, 0));
    assert_eq!(scanline_pixel(4, 3, 5), (1, 1));
}

#[test]
fn new_image_is_black() {
    let image = Image::new(2, 3);
    assert_eq!(image.width(), 2);
    assert_eq!(image.height(), 3);
    assert_eq!(image.pixel_count(), 6);
    for k in 0..6 {
        assert_eq!(image.at(k), Rgb::black());
    }
}

#[test]
fn set_places_pixel_by_coordinates() {
    let mut image = Image::new(3, 2);
    // Bottom-right pixel, set first, lands at the end of the output.
    image.set(2, 0, Rgb::new(1, 2, 3));
    // Top-left pixel lands at the start.
    image.set(0, 1, Rgb::new(4, 5, 6));
    assert_eq!(image.at(5), Rgb::new(1, 2, 3));
    assert_eq!(image.at(0), Rgb::new(4, 5, 6));
    assert_eq!(image.get(2, 0), Rgb::new(1, 2, 3));
    assert_eq!(image.get(0, 1), Rgb::new(4, 5, 6));
    assert_eq!(image.get(1, 1), Rgb::black());
}
