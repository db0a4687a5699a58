use image::RgbaImage;
use imageproc::geometric_transformations::{rotate_about_center, Interpolation};
use shapestamp::geometry::{silhouette_inset, stamp_edge};
use shapestamp::raster::{Raster, Rgba, RESAMPLE_LIMIT};
use shapestamp::stamp::{can_hold_stamp, can_resample, cutout, prepare};

const FILL: Rgba = Rgba { r: 12, g: 34, b: 56, a: 200 };

fn gradient(edge: u32) -> Raster {
    let mut bytes = Vec::new();
    for y in 0..edge {
        for x in 0..edge {
            bytes.extend_from_slice(&[255, 255, 255, (1 + 16 * y + x) as u8]);
        }
    }
    Raster::from_bytes(edge, edge, bytes).unwrap()
}

#[test]
fn cutout_of_a_two_by_two_silhouette() {
    let shape = gradient(2);
    let stamp = cutout(&shape, FILL);
    assert_eq!((stamp.width(), stamp.height()), (4, 4));
    let alphas: [[u8; 4]; 4] = [[0, 0, 0, 0], [0, 1, 2, 0], [0, 17, 18, 0], [0, 0, 0, 0]];
    for y in 0..4u32 {
        for x in 0..4u32 {
            let expected = Rgba { r: 12, g: 34, b: 56, a: alphas[y as usize][x as usize] };
            assert_eq!(stamp.pixel(x, y), expected, "({x}, {y})");
        }
    }
}

#[test]
fn cutout_of_a_single_pixel() {
    let shape = Raster::filled(1, 1, Rgba { r: 1, g: 2, b: 3, a: 99 });
    let stamp = cutout(&shape, FILL);
    assert_eq!((stamp.width(), stamp.height()), (3, 3));
    for y in 0..3u32 {
        for x in 0..3u32 {
            let alpha = if (x, y) == (1, 1) { 99 } else { 0 };
            assert_eq!(stamp.pixel(x, y), Rgba { r: 12, g: 34, b: 56, a: alpha });
        }
    }
}

#[test]
fn cutout_of_nothing_is_empty() {
    let shape = Raster::filled(0, 0, FILL);
    let stamp = cutout(&shape, FILL);
    assert_eq!((stamp.width(), stamp.height()), (0, 0));
}

#[test]
fn cutout_centres_the_silhouette() {
    for edge in 1u32..=12 {
        let shape = gradient(edge);
        let stamp = cutout(&shape, FILL);
        let side = stamp_edge(edge) as u32;
        let inset = silhouette_inset(edge) as u32;
        assert_eq!((stamp.width(), stamp.height()), (side, side));
        for y in 0..side {
            for x in 0..side {
                let inside = x >= inset && x < inset + edge && y >= inset && y < inset + edge;
                let alpha = if inside { shape.pixel(x - inset, y - inset).a } else { 0 };
                assert_eq!(stamp.pixel(x, y), Rgba { r: 12, g: 34, b: 56, a: alpha });
            }
        }
    }
}

#[test]
fn prepare_at_the_fragments_own_size_keeps_its_opacity() {
    let fragment = gradient(6);
    let stamp = prepare(&fragment, 6, FILL);
    assert_eq!(stamp, cutout(&fragment, FILL));
    assert_eq!((stamp.width(), stamp.height()), (10, 10));
    assert_eq!(stamp.pixel(2, 2), Rgba { r: 12, g: 34, b: 56, a: 1 });
    assert_eq!(stamp.pixel(7, 7), Rgba { r: 12, g: 34, b: 56, a: 86 });
    assert_eq!(stamp.pixel(1, 2).a, 0);
}

#[test]
fn prepare_resamples_to_the_size_asked_for() {
    let fragment = Raster::filled(16, 16, Rgba { r: 9, g: 9, b: 9, a: 255 });
    for size in [1u32, 2, 5, 9, 16, 23] {
        let stamp = prepare(&fragment, size, FILL);
        let side = stamp_edge(size) as u32;
        let inset = silhouette_inset(size) as u32;
        assert_eq!((stamp.width(), stamp.height()), (side, side), "size {size}");
        for y in 0..side {
            for x in 0..side {
                let pixel = stamp.pixel(x, y);
                assert_eq!((pixel.r, pixel.g, pixel.b), (12, 34, 56));
                let inside = x >= inset && x < inset + size && y >= inset && y < inset + size;
                assert_eq!(pixel.a, if inside { 255 } else { 0 }, "size {size} at ({x}, {y})");
            }
        }
    }
}

#[test]
fn prepare_of_a_flat_fragment_is_flat_within_the_silhouette() {
    let fragment = Raster::filled(16, 16, Rgba { r: 200, g: 100, b: 50, a: 77 });
    let stamp = prepare(&fragment, 5, FILL);
    assert_eq!((stamp.width(), stamp.height()), (9, 9));
    for y in 0..9u32 {
        for x in 0..9u32 {
            let inside = (2..7).contains(&x) && (2..7).contains(&y);
            let expected = Rgba { r: 12, g: 34, b: 56, a: if inside { 77 } else { 0 } };
            assert_eq!(stamp.pixel(x, y), expected, "({x}, {y})");
        }
    }
}

#[test]
fn prepare_of_an_oblong_fragment_is_square() {
    let fragment = Raster::filled(8, 3, Rgba { r: 0, g: 0, b: 0, a: 255 });
    let stamp = prepare(&fragment, 6, FILL);
    assert_eq!((stamp.width(), stamp.height()), (10, 10));
    assert_eq!(stamp.pixel(4, 4), Rgba { r: 12, g: 34, b: 56, a: 255 });
    let empty = prepare(&Raster::filled(0, 0, FILL), 2, FILL);
    assert_eq!((empty.width(), empty.height()), (4, 4));
}

#[test]
fn can_hold_stamp_within_memory() {
    assert!(can_hold_stamp(0));
    assert!(can_hold_stamp(1));
    assert!(can_hold_stamp(4096));
    assert!(can_hold_stamp(1_000_000));
    // the stamp's edge would not fit 32 bits
    assert!(!can_hold_stamp(u32::MAX));
    assert!(!can_hold_stamp(3_100_000_000));
}

#[test]
fn can_resample_up_to_the_limit() {
    assert!(can_resample(16, 16, 16));
    assert!(can_resample(0, 0, 0));
    assert!(can_resample(4096, 4096, 100_000));
    assert!(can_resample(8, 3, 6));
    assert_eq!(RESAMPLE_LIMIT, 4_194_304);
    assert!(can_resample(RESAMPLE_LIMIT, RESAMPLE_LIMIT, RESAMPLE_LIMIT));
    assert!(!can_resample(RESAMPLE_LIMIT + 1, 1, 1));
    assert!(!can_resample(1, RESAMPLE_LIMIT + 1, 1));
    assert!(!can_resample(1, 1, RESAMPLE_LIMIT + 1));
    assert!(!can_resample(33_554_435, 1, 1));
    assert!(!can_resample(u32::MAX, u32::MAX, u32::MAX));
    assert!(!can_resample(1, 1, 2_000_000_000));
}

#[test]
fn turning_by_nothing_keeps_the_opacity() {
    // the interpolation reads one pixel before and two after the one it
    // samples, so the silhouette needs an inset of three pixels
    for size in [13u32, 16, 21, 40] {
        assert!(silhouette_inset(size) >= 3);
        let fragment = gradient(size);
        let stamp = prepare(&fragment, size, FILL);
        let image = RgbaImage::from_raw(stamp.width(), stamp.height(), stamp.bytes().clone()).unwrap();
        let turned = rotate_about_center(&image, 0.0, Interpolation::Bicubic, image::Rgba([12, 34, 56, 0]));
        assert_eq!(turned.dimensions(), (stamp.width(), stamp.height()));
        for y in 0..stamp.height() {
            for x in 0..stamp.width() {
                let before = stamp.pixel(x, y).a as i32;
                let after = turned.get_pixel(x, y).0[3] as i32;
                assert!((before - after).abs() <= 1, "size {size} at ({x}, {y}): {before} {after}");
                assert_eq!(&turned.get_pixel(x, y).0[..3], &[12, 34, 56]);
            }
        }
    }
}

#[test]
fn turning_keeps_the_silhouette_within_the_stamp() {
    let size = 40;
    let fragment = Raster::filled(size, size, Rgba { r: 0, g: 0, b: 0, a: 255 });
    let stamp = prepare(&fragment, size, FILL);
    assert_eq!(stamp.width(), 58);
    let image = RgbaImage::from_raw(stamp.width(), stamp.height(), stamp.bytes().clone()).unwrap();
    let whole: f64 = (size * size) as f64 * 255.0;
    for step in 0..32 {
        let angle = step as f32 * std::f32::consts::PI / 16.0;
        let turned = rotate_about_center(&image, angle, Interpolation::Bicubic, image::Rgba([12, 34, 56, 0]));
        let kept: f64 = turned.pixels().map(|p| p.0[3] as f64).sum();
        assert!((kept - whole).abs() <= whole * 0.01, "step {step}: kept {kept} of {whole}");
    }
}
