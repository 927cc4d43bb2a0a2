use blackmamba_paint::trace::{
    assemble_trace, candidates, color_distance, similar_color, PixelCoord, RasterImage, Rgba,
    TraceError,
};
use std::collections::BTreeSet;

fn line_image() -> RasterImage {
    let mut image = RasterImage::filled(9, 5, Rgba::white()).unwrap();
    for x in 1..=5 {
        image.set_pixel(PixelCoord::new(x, 2), Rgba::black()).unwrap();
    }
    image.set_pixel(PixelCoord::new(8, 0), Rgba::black()).unwrap();
    image
}

#[test]
fn filled_image_has_one_color_everywhere() {
    let image = RasterImage::filled(3, 2, Rgba::black()).unwrap();
    assert_eq!(image.width, 3);
    assert_eq!(image.height, 2);
    for y in 0..2 {
        for x in 0..3 {
            assert_eq!(image.pixel(PixelCoord::new(x, y)), Some(Rgba::black()));
        }
    }
    assert_eq!(image.pixel(PixelCoord::new(3, 0)), None);
    assert_eq!(image.pixel(PixelCoord::new(0, 2)), None);
}

#[test]
fn image_rejects_wrong_pixel_count() {
    let result = RasterImage::new(2, 2, vec![Rgba::white(); 3]);
    assert_eq!(
        result.unwrap_err(),
        TraceError::InvalidPixelCount { expected: 4, actual: 3 }
    );
}

#[test]
fn image_rejects_dimensions_beyond_32_bits() {
    assert_eq!(
        RasterImage::new(70_000, 70_000, Vec::new()).unwrap_err(),
        TraceError::ImageTooLarge
    );
    assert_eq!(
        RasterImage::filled(u32::MAX, 2, Rgba::white()).unwrap_err(),
        TraceError::ImageTooLarge
    );
}

#[test]
fn pixels_are_row_major() {
    let pixels = vec![
        Rgba { r: 1, g: 0, b: 0, a: 255 },
        Rgba { r: 2, g: 0, b: 0, a: 255 },
        Rgba { r: 3, g: 0, b: 0, a: 255 },
        Rgba { r: 4, g: 0, b: 0, a: 255 },
        Rgba { r: 5, g: 0, b: 0, a: 255 },
        Rgba { r: 6, g: 0, b: 0, a: 255 },
    ];
    let image = RasterImage::new(3, 2, pixels).unwrap();
    assert_eq!(image.pixel(PixelCoord::new(2, 0)).unwrap().r, 3);
    assert_eq!(image.pixel(PixelCoord::new(0, 1)).unwrap().r, 4);
    assert_eq!(image.pixel(PixelCoord::new(2, 1)).unwrap().r, 6);
}

#[test]
fn set_pixel_outside_the_image_is_rejected_without_change() {
    let mut image = RasterImage::filled(2, 2, Rgba::white()).unwrap();
    let outside = PixelCoord::new(2, 1);
    assert_eq!(
        image.set_pixel(outside, Rgba::black()),
        Err(TraceError::PixelOutOfBounds(outside))
    );
    for y in 0..2 {
        for x in 0..2 {
            assert_eq!(image.pixel(PixelCoord::new(x, y)), Some(Rgba::white()));
        }
    }
    image.set_pixel(PixelCoord::new(1, 1), Rgba::black()).unwrap();
    assert_eq!(image.pixel(PixelCoord::new(1, 1)), Some(Rgba::black()));
    assert_eq!(image.pixel(PixelCoord::new(0, 1)), Some(Rgba::white()));
}

#[test]
fn similar_color_checks_every_channel() {
    let a = Rgba { r: 10, g: 20, b: 30, a: 40 };
    let b = Rgba { r: 14, g: 16, b: 30, a: 44 };
    assert!(similar_color(a, b, 4));
    assert!(!similar_color(a, b, 3));
    assert!(similar_color(a, a, 0));
    let c = Rgba { r: 10, g: 20, b: 30, a: 45 };
    assert!(!similar_color(a, c, 4));
}

#[test]
fn color_distance_sums_channel_differences() {
    assert_eq!(color_distance(Rgba::white(), Rgba::black()), 765);
    assert_eq!(
        color_distance(Rgba { r: 0, g: 0, b: 0, a: 0 }, Rgba { r: 255, g: 255, b: 255, a: 255 }),
        1020
    );
    assert_eq!(
        color_distance(Rgba { r: 5, g: 9, b: 1, a: 2 }, Rgba { r: 7, g: 3, b: 1, a: 0 }),
        10
    );
}

#[test]
fn candidates_scan_neighbours_row_by_row() {
    let image = line_image();
    let visited = BTreeSet::new();
    let found = candidates(&image, PixelCoord::new(3, 2), Rgba::black(), &visited, 0);
    assert_eq!(found, vec![PixelCoord::new(2, 2), PixelCoord::new(4, 2)]);
}

#[test]
fn candidates_skip_visited_and_dissimilar_pixels() {
    let image = line_image();
    let mut visited = BTreeSet::new();
    visited.insert((2, 2));
    let found = candidates(&image, PixelCoord::new(3, 2), Rgba::black(), &visited, 0);
    assert_eq!(found, vec![PixelCoord::new(4, 2)]);
    let white = candidates(&image, PixelCoord::new(3, 2), Rgba::white(), &BTreeSet::new(), 0);
    assert_eq!(
        white,
        vec![
            PixelCoord::new(2, 1),
            PixelCoord::new(3, 1),
            PixelCoord::new(4, 1),
            PixelCoord::new(2, 3),
            PixelCoord::new(3, 3),
            PixelCoord::new(4, 3),
        ]
    );
}

#[test]
fn candidates_at_the_corner_stay_inside_the_image() {
    let image = RasterImage::filled(2, 2, Rgba::black()).unwrap();
    let found = candidates(&image, PixelCoord::new(0, 0), Rgba::black(), &BTreeSet::new(), 0);
    assert_eq!(
        found,
        vec![PixelCoord::new(1, 0), PixelCoord::new(0, 1), PixelCoord::new(1, 1)]
    );
}

#[test]
fn single_branch_trace_starts_at_the_seed() {
    let seed = PixelCoord::new(3, 2);
    let (coords, index) = assemble_trace(seed, vec![PixelCoord::new(4, 2), PixelCoord::new(5, 2)], vec![]);
    assert_eq!(coords, vec![seed, PixelCoord::new(4, 2), PixelCoord::new(5, 2)]);
    assert_eq!(index, 0);
}

#[test]
fn two_branch_trace_puts_the_first_branch_before_the_seed() {
    let seed = PixelCoord::new(3, 2);
    let (coords, index) = assemble_trace(
        seed,
        vec![PixelCoord::new(2, 2), PixelCoord::new(1, 2)],
        vec![PixelCoord::new(4, 2), PixelCoord::new(5, 2)],
    );
    assert_eq!(
        coords,
        vec![
            PixelCoord::new(1, 2),
            PixelCoord::new(2, 2),
            seed,
            PixelCoord::new(4, 2),
            PixelCoord::new(5, 2),
        ]
    );
    assert_eq!(index, 2);
}

#[test]
fn reads_give_the_latest_write_or_the_original_colour() {
    let red = Rgba { r: 255, g: 0, b: 0, a: 255 };
    let mut image = RasterImage::filled(3, 3, Rgba::white()).unwrap();
    image.set_pixel(PixelCoord::new(1, 1), Rgba::black()).unwrap();
    image.set_pixel(PixelCoord::new(2, 0), red).unwrap();
    assert!(image.set_pixel(PixelCoord::new(3, 1), red).is_err());
    image.set_pixel(PixelCoord::new(1, 1), red).unwrap();
    assert_eq!(image.pixel(PixelCoord::new(1, 1)), Some(red));
    assert_eq!(image.pixel(PixelCoord::new(2, 0)), Some(red));
    assert_eq!(image.pixel(PixelCoord::new(0, 2)), Some(Rgba::white()));
    assert_eq!(image.pixel(PixelCoord::new(3, 1)), None);
    assert_eq!((image.width, image.height), (3, 3));
}
