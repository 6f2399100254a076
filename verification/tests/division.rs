use rectanglify::geometry::{Axis, Rectangle, SUBPIXELS};
use rectanglify::partition::{draw_rects, find_split, find_split_line, FoundLine, Split};
use rectanglify::pixel::PixelLayout;
use rectanglify::raster::Raster;
use rectanglify::render::Line;
use rectanglify::settings::Settings;

const FULL: u128 = 255 * 65536 * 65536;

fn gray(width: u32, height: u32, samples: Vec<u8>) -> Raster {
    Raster::from_raw(width, height, PixelLayout::Gray8, samples).unwrap()
}

fn settings(num: u128, den: u128) -> Settings {
    Settings::new(num, den).unwrap()
}

fn checkerboard() -> Raster {
    let mut samples = Vec::new();
    for y in 0..4u32 {
        for x in 0..4u32 {
            samples.push(if (x + y) % 2 == 0 { 0u8 } else { 255u8 });
        }
    }
    gray(4, 4, samples)
}

fn gradient() -> Raster {
    let mut samples = Vec::new();
    for y in 0..3u32 {
        for x in 0..4u32 {
            samples.push((x * 60) as u8);
            samples.push((y * 100) as u8);
            samples.push(((x * y * 20) % 256) as u8);
        }
    }
    Raster::from_raw(4, 3, PixelLayout::Rgb8, samples).unwrap()
}

fn encloses(outer: Rectangle, inner: Rectangle) -> bool {
    outer.left <= inner.left
        && inner.right <= outer.right
        && outer.top <= inner.top
        && inner.bottom <= outer.bottom
}

#[test]
fn scan_stops_on_the_first_line_that_reaches_the_target() {
    let input = checkerboard();
    let full = Rectangle::full(4, 4);
    // Every line of the checkerboard holds two black pixels.
    assert_eq!(
        find_split_line(&input, full, Axis::Vertical, 1),
        Some(FoundLine { index: 0, running: 2 * FULL, line: 2 * FULL })
    );
    assert_eq!(
        find_split_line(&input, full, Axis::Vertical, 2 * FULL),
        Some(FoundLine { index: 0, running: 2 * FULL, line: 2 * FULL })
    );
    assert_eq!(
        find_split_line(&input, full, Axis::Vertical, 2 * FULL + 1),
        Some(FoundLine { index: 1, running: 4 * FULL, line: 2 * FULL })
    );
    assert_eq!(
        find_split_line(&input, full, Axis::Horizontal, 8 * FULL),
        Some(FoundLine { index: 3, running: 8 * FULL, line: 2 * FULL })
    );
}

#[test]
fn scan_ends_short_of_a_target_beyond_the_region() {
    let input = checkerboard();
    let full = Rectangle::full(4, 4);
    assert_eq!(find_split_line(&input, full, Axis::Horizontal, 8 * FULL + 1), None);
    assert_eq!(find_split_line(&input, full, Axis::Vertical, u128::MAX), None);
    let nothing = Rectangle { left: SUBPIXELS, top: 0, right: SUBPIXELS, bottom: 4 * SUBPIXELS };
    assert_eq!(find_split_line(&input, nothing, Axis::Vertical, 0), None);
}

#[test]
fn scan_starts_in_the_pixel_that_holds_the_start() {
    let input = checkerboard();
    let area = Rectangle { left: SUBPIXELS + 1, top: 0, right: 4 * SUBPIXELS, bottom: 4 * SUBPIXELS };
    // Column 1 is covered but for one subpixel.
    let line = 2 * 255 * 65535 * 65536;
    assert_eq!(
        find_split_line(&input, area, Axis::Vertical, 1),
        Some(FoundLine { index: 1, running: line, line })
    );
}

#[test]
fn separator_takes_the_overshoot_out_of_the_line() {
    // One rectangle is due one pixel's worth; row 0 holds two.
    assert_eq!(
        find_split(&checkerboard(), settings(1, 1), Rectangle::full(4, 4), 2),
        Some(Split {
            line: Line { axis: Axis::Horizontal, position: 0, span_start: 0, span_end: 3 },
            coordinate: 32768,
        })
    );
    // Four rectangles out of eight: two are due two pixels' worth, all of row 0.
    assert_eq!(
        find_split(&checkerboard(), settings(1, 1), Rectangle::full(4, 4), 4),
        Some(Split {
            line: Line { axis: Axis::Horizontal, position: 0, span_start: 0, span_end: 3 },
            coordinate: 65536,
        })
    );
}

#[test]
fn separator_of_a_ramp() {
    let input = gray(5, 1, vec![0, 64, 128, 192, 255]);
    // 636/765 of a pixel are due; column 0 holds a whole one.
    assert_eq!(
        find_split(&input, settings(765, 636), Rectangle::full(5, 1), 3),
        Some(Split {
            line: Line { axis: Axis::Vertical, position: 0, span_start: 0, span_end: 0 },
            coordinate: 54485,
        })
    );
}

#[test]
fn separator_inside_a_region_with_fractional_bounds() {
    let area = Rectangle {
        left: SUBPIXELS / 2,
        top: SUBPIXELS / 4,
        right: 3 * SUBPIXELS + SUBPIXELS / 2,
        bottom: 2 * SUBPIXELS + 100,
    };
    assert_eq!(
        find_split(&gradient(), settings(2, 3), area, 5),
        Some(Split {
            line: Line { axis: Axis::Vertical, position: 2, span_start: 0, span_end: 2 },
            coordinate: 175922,
        })
    );
}

#[test]
fn no_separator_when_the_scan_ends_short() {
    assert_eq!(find_split(&checkerboard(), settings(1, 1), Rectangle::full(4, 4), 100), None);
    assert_eq!(find_split(&checkerboard(), settings(0, 1), Rectangle::full(4, 4), 2), None);
    assert_eq!(find_split(&checkerboard(), settings(1, u128::MAX), Rectangle::full(4, 4), 2), None);
    let white = gray(2, 2, vec![255; 4]);
    assert_eq!(find_split(&white, settings(1000, 1), Rectangle::full(2, 2), 2), None);
}

#[test]
fn halves_of_a_split_lie_within_the_region() {
    let area = Rectangle {
        left: SUBPIXELS / 2,
        top: SUBPIXELS / 4,
        right: 3 * SUBPIXELS + SUBPIXELS / 2,
        bottom: 2 * SUBPIXELS + 100,
    };
    let split = find_split(&gradient(), settings(2, 3), area, 5).unwrap();
    let first = area.first_half(split.line.axis, split.coordinate);
    let second = area.second_half(split.line.axis, split.coordinate);
    assert_eq!(first, Rectangle { right: 175922, ..area });
    assert_eq!(second, Rectangle { left: 175922, ..area });
    assert!(encloses(area, first));
    assert!(encloses(area, second));
}

#[test]
fn halves_lie_within_their_parents_all_the_way_down() {
    // Follows the first half down a division in which every separator falls
    // between the bounds of its region.
    let input = gradient();
    let density = settings(2040, 1952);
    let mut area = Rectangle::full(4, 3);
    let mut rects: u64 = 8;
    while rects >= 2 {
        let split = find_split(&input, density, area, rects).unwrap();
        let first = area.first_half(split.line.axis, split.coordinate);
        let second = area.second_half(split.line.axis, split.coordinate);
        assert!(encloses(area, first));
        assert!(encloses(area, second));
        area = first;
        rects /= 2;
    }
}

#[test]
fn separator_can_fall_outside_a_region_that_covers_part_of_its_line() {
    // The line is taken to span its whole pixel. The region covers the last
    // quarter of column 0, and an eighth of a pixel is due: half of what the
    // region holds of the column, so the cut falls half a pixel before its end.
    let input = gray(2, 1, vec![0, 0]);
    let area = Rectangle { left: 49152, top: 0, right: 131072, bottom: 65536 };
    let split = find_split(&input, settings(8, 1), area, 2).unwrap();
    assert_eq!(split.line, Line { axis: Axis::Vertical, position: 0, span_start: 0, span_end: 0 });
    assert_eq!(split.coordinate, 32768);
    let first = area.first_half(split.line.axis, split.coordinate);
    let second = area.second_half(split.line.axis, split.coordinate);
    assert_eq!(first, Rectangle { left: 49152, top: 0, right: 32768, bottom: 65536 });
    assert_eq!(second, Rectangle { left: 32768, top: 0, right: 131072, bottom: 65536 });
    assert!(first.width() < 0);
    assert!(!encloses(area, second));
}

#[test]
fn region_of_no_extent_holds_no_darkness() {
    let input = gray(1, 1, vec![0]);
    let flat = Rectangle { left: 32768, top: 32768, right: 65536, bottom: 32768 };
    assert_eq!(find_split(&input, settings(4080, 255), flat, 2), None);
    assert_eq!(find_split_line(&input, flat, Axis::Vertical, 1), None);
    let thin = Rectangle { left: 16384, top: 0, right: 16384, bottom: 65536 };
    assert_eq!(find_split_line(&input, thin, Axis::Horizontal, 1), None);
}

#[test]
fn single_rect_draws_nothing() {
    let inputs = [checkerboard(), gray(4, 4, vec![0; 16]), gray(4, 4, vec![255; 16])];
    for input in inputs.iter() {
        for (num, den) in [(1u128, 1u128), (0, 1), (1000, 1), (1, 1000)] {
            let before: Vec<u8> = (0..16).collect();
            let mut output = gray(4, 4, before.clone());
            let cells = draw_rects(input, &mut output, settings(num, den), Rectangle::full(4, 4), 1);
            assert_eq!(cells, 1);
            assert_eq!(output.as_raw(), &before);
        }
    }
}

#[test]
fn region_without_darkness_stays_one_cell() {
    let white = gray(2, 2, vec![255; 4]);
    let mut output = gray(2, 2, vec![255; 4]);
    assert_eq!(draw_rects(&white, &mut output, settings(1, 1), Rectangle::full(2, 2), 2), 1);
    assert_eq!(draw_rects(&white, &mut output, settings(1, 1), Rectangle::full(2, 2), 1000), 1);
    assert_eq!(output.as_raw(), &vec![255; 4]);
}

#[test]
fn zero_density_splits_nothing() {
    let mut output = gray(4, 4, vec![255; 16]);
    assert_eq!(draw_rects(&checkerboard(), &mut output, settings(0, 1), Rectangle::full(4, 4), 4), 1);
    assert_eq!(output.as_raw(), &vec![255; 16]);
}

#[test]
fn count_short_of_the_darkness_is_dropped_in_part() {
    // The first half of six rectangles is due three pixels' worth and takes
    // the three black pixels. The second half is left with the white pixel:
    // it is due three rectangles and stays one cell.
    let input = gray(4, 1, vec![0, 0, 0, 255]);
    let mut output = gray(4, 1, vec![255; 4]);
    let cells = draw_rects(&input, &mut output, settings(1, 1), Rectangle::full(4, 1), 6);
    assert_eq!(cells, 4);
    assert_eq!(output.as_raw(), &vec![0, 0, 0, 255]);
}

#[test]
fn division_draws_on_other_layouts() {
    let input = gray(2, 2, vec![0, 0, 0, 0]);
    let mut output = Raster::from_raw(2, 2, PixelLayout::Rgb8, vec![9; 12]).unwrap();
    let cells = draw_rects(&input, &mut output, settings(1, 1), Rectangle::full(2, 2), 4);
    assert_eq!(cells, 4);
    assert_eq!(output.as_raw(), &vec![0, 0, 0, 0, 0, 0, 0, 0, 0, 9, 9, 9]);
}

#[test]
fn division_within_a_part_of_the_canvas() {
    let input = gray(4, 4, vec![0; 16]);
    let mut output = gray(4, 4, vec![255; 16]);
    let area = Rectangle { left: 2 * SUBPIXELS, top: 2 * SUBPIXELS, right: 4 * SUBPIXELS, bottom: 4 * SUBPIXELS };
    let cells = draw_rects(&input, &mut output, settings(1, 1), area, 4);
    assert_eq!(cells, 4);
    assert_eq!(
        output.as_raw(),
        &vec![
            255, 255, 255, 255, //
            255, 255, 255, 255, //
            255, 255, 0, 0, //
            255, 255, 0, 255,
        ]
    );
}
