use raytracer::image::Rgbe;
use raytracer::image::RgbeImage;

#[test]
fn new_raster_is_zeroed() {
    let img = RgbeImage::new(3, 2);
    assert_eq!(img.width, 3);
    assert_eq!(img.height, 2);
    assert_eq!(img.pixels.len(), 6);
    for y in 0..2 {
        for x in 0..3 {
            assert_eq!(img.get_pixel(x, y), Rgbe { r: 0, g: 0, b: 0, e: 0 });
        }
    }
}

#[test]
fn set_pixel_is_read_back() {
    let mut img = RgbeImage::new(4, 3);
    let c = Rgbe { r: 1, g: 2, b: 3, e: 140 };
    img.set_pixel(2, 1, c);
    assert_eq!(img.get_pixel(2, 1), c);
}

#[test]
fn set_pixel_keeps_every_other_pixel() {
    // (1, 0) and (0, 1) land in different row-major slots
    let mut img = RgbeImage::new(3, 3);
    img.set_pixel(1, 0, Rgbe { r: 7, g: 0, b: 0, e: 0 });
    img.set_pixel(0, 1, Rgbe { r: 9, g: 0, b: 0, e: 0 });
    assert_eq!(img.get_pixel(1, 0), Rgbe { r: 7, g: 0, b: 0, e: 0 });
    assert_eq!(img.get_pixel(0, 1), Rgbe { r: 9, g: 0, b: 0, e: 0 });
    assert_eq!(img.get_pixel(0, 0), Rgbe { r: 0, g: 0, b: 0, e: 0 });
    assert_eq!(img.get_pixel(1, 1), Rgbe { r: 0, g: 0, b: 0, e: 0 });
}

#[test]
fn pixels_are_stored_row_major() {
    let mut img = RgbeImage::new(3, 2);
    img.set_pixel(2, 1, Rgbe { r: 5, g: 5, b: 5, e: 5 });
    assert_eq!(img.pixels[2 + 1 * 3], Rgbe { r: 5, g: 5, b: 5, e: 5 });
}
