use effect_pipeline::raster::{apply_brightness, composite_layer, Image, Rgba};

fn to_buf(img: &Image) -> image::RgbaImage {
    image::RgbaImage::from_raw(img.width, img.height, img.data.clone()).unwrap()
}

#[test]
fn new_image_is_transparent_black() {
    let img = Image::new(3, 2);
    assert_eq!(img.width, 3);
    assert_eq!(img.height, 2);
    assert_eq!(img.data.len(), 24);
    assert!(img.data.iter().all(|&b| b == 0));
}

#[test]
fn from_raw_checks_length() {
    assert!(Image::from_raw(2, 2, vec![0u8; 16]).is_some());
    assert!(Image::from_raw(2, 2, vec![0u8; 15]).is_none());
    assert!(Image::from_raw(0, 7, vec![]).is_some());
}

#[test]
fn gradient_matches_formula() {
    let img = Image::gradient(16, 16);
    for y in 0..16u32 {
        for x in 0..16u32 {
            let i = (4 * (y * 16 + x)) as usize;
            assert_eq!(img.data[i], (x / 2) as u8);
            assert_eq!(img.data[i + 1], (y / 2) as u8);
            assert_eq!(img.data[i + 2], 128);
            assert_eq!(img.data[i + 3], 255);
        }
    }
}

#[test]
fn get_and_put_pixel_roundtrip() {
    let mut img = Image::new(4, 4);
    img.put_pixel(2, 1, Rgba { r: 1, g: 2, b: 3, a: 4 });
    let c = img.get_pixel(2, 1);
    assert_eq!((c.r, c.g, c.b, c.a), (1, 2, 3, 4));
    let untouched = img.get_pixel(1, 2);
    assert_eq!((untouched.r, untouched.g, untouched.b, untouched.a), (0, 0, 0, 0));
}

#[test]
fn fill_rect_clips_to_image() {
    let mut img = Image::new(4, 4);
    let c = Rgba { r: 9, g: 8, b: 7, a: 6 };
    img.fill_rect(-1, 2, 3, 10, c);
    for y in 0..4u32 {
        for x in 0..4u32 {
            let got = img.get_pixel(x, y);
            let covered = (x as i64) < 2 && (y as i64) >= 2;
            if covered {
                assert_eq!((got.r, got.g, got.b, got.a), (9, 8, 7, 6));
            } else {
                assert_eq!((got.r, got.g, got.b, got.a), (0, 0, 0, 0));
            }
        }
    }
}

#[test]
fn fill_rect_outside_is_noop() {
    let mut img = Image::gradient(8, 8);
    let before = img.data.clone();
    img.fill_rect(20, 20, 4, 4, Rgba { r: 1, g: 1, b: 1, a: 1 });
    assert_eq!(img.data, before);
}

#[test]
fn brightness_matches_backend() {
    let img = Image::gradient(32, 32);
    let ours = apply_brightness(&img, 40);
    let theirs = image::imageops::brighten(&to_buf(&img), 40).into_raw();
    assert_eq!(ours.data, theirs);
    assert_ne!(ours.data, img.data);
}

#[test]
fn brightness_clamps_and_keeps_alpha() {
    let mut img = Image::new(1, 1);
    img.put_pixel(0, 0, Rgba { r: 250, g: 5, b: 128, a: 77 });
    let up = apply_brightness(&img, 10);
    assert_eq!(up.data, vec![255, 15, 138, 77]);
    let down = apply_brightness(&img, -10);
    assert_eq!(down.data, vec![240, 0, 118, 77]);
}

#[test]
fn composite_matches_backend() {
    let mut bottom = Image::gradient(8, 8);
    let mut top = Image::new(8, 8);
    top.fill_rect(1, 1, 3, 3, Rgba { r: 200, g: 0, b: 0, a: 255 });
    let mut expected = to_buf(&bottom);
    let layer = to_buf(&top);
    image::imageops::overlay(&mut expected, &layer, 2, -1);
    composite_layer(&mut bottom, &top, 2, -1);
    assert_eq!(bottom.data, expected.into_raw());
}

#[test]
fn brightness_at_the_largest_admitted_delta_saturates() {
    let img = Image::gradient(4, 4);
    let out = apply_brightness(&img, i32::MAX - 255);
    for y in 0..4u32 {
        for x in 0..4u32 {
            let c = out.get_pixel(x, y);
            assert_eq!((c.r, c.g, c.b, c.a), (255, 255, 255, 255));
        }
    }
}

#[test]
fn composite_leaves_uncovered_pixels_untouched() {
    // A small opaque layer placed at (5, 5): pixels it covers are
    // replaced, every pixel outside its footprint keeps its bytes.
    let mut bottom = Image::gradient(8, 8);
    let before = bottom.data.clone();
    let mut top = Image::new(3, 3);
    top.fill_rect(0, 0, 3, 3, Rgba { r: 1, g: 2, b: 3, a: 255 });
    composite_layer(&mut bottom, &top, 5, 5);
    for y in 0..8u32 {
        for x in 0..8u32 {
            let got = bottom.get_pixel(x, y);
            if x >= 5 && y >= 5 {
                assert_eq!((got.r, got.g, got.b), (1, 2, 3));
            } else {
                let i = (4 * (y * 8 + x)) as usize;
                assert_eq!(
                    (got.r, got.g, got.b, got.a),
                    (before[i], before[i + 1], before[i + 2], before[i + 3])
                );
            }
        }
    }
}

#[test]
fn composite_transparent_layer_is_a_noop() {
    let mut bottom = Image::gradient(8, 8);
    let before = bottom.data.clone();
    let top = Image::new(8, 8);
    composite_layer(&mut bottom, &top, 0, 0);
    assert_eq!(bottom.data, before);
}

#[test]
fn composite_opaque_layer_replaces_pixels() {
    let mut bottom = Image::gradient(8, 8);
    let mut top = Image::new(8, 8);
    top.fill_rect(0, 0, 8, 8, Rgba { r: 1, g: 2, b: 3, a: 255 });
    composite_layer(&mut bottom, &top, 0, 0);
    let c = bottom.get_pixel(5, 5);
    assert_eq!((c.r, c.g, c.b), (1, 2, 3));
}
