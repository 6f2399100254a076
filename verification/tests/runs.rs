use rectanglify::darkness::total_darkness_of;
use rectanglify::partition::draw_rects;
use rectanglify::pixel::PixelLayout;
use rectanglify::raster::Raster;
use rectanglify::rects::rectanglify;
use rectanglify::settings::{calibrate, Ratio, Settings};
use rectanglify::geometry::Rectangle;

fn gray(width: u32, height: u32, samples: Vec<u8>) -> Raster {
    Raster::from_raw(width, height, PixelLayout::Gray8, samples).unwrap()
}

fn settings(num: u128, den: u128) -> Settings {
    Settings::new(num, den).unwrap()
}

fn checkerboard() -> Raster {
    let mut samples = Vec::new();
    for y in 0..4u32 {
        for x in 0..4u32 {
            samples.push(if (x + y) % 2 == 0 { 0u8 } else { 255u8 });
        }
    }
    gray(4, 4, samples)
}

#[test]
fn black_two_by_two_has_total_darkness_four() {
    let input = gray(2, 2, vec![0, 0, 0, 0]);
    assert_eq!(total_darkness_of(&input), 4 * 255);
}

#[test]
fn black_two_by_two_is_due_four_rectangles() {
    let (rects, calibrated) = calibrate(4 * 255, settings(1, 1));
    assert_eq!(rects, 4);
    assert_eq!(calibrated.rects_per_pixel, Ratio { num: 4 * 255, den: 4 * 255 });
}

#[test]
fn black_two_by_two_is_cut_once_each_way() {
    let input = gray(2, 2, vec![0, 0, 0, 0]);
    let mut output = Raster::new(2, 2, PixelLayout::Gray8).unwrap();
    rectanglify(&input, &mut output, settings(1, 1));
    // One horizontal separator through row 0, one vertical through column 0
    // in each half: three quadrants hold a line, the last stays white.
    assert_eq!(output.as_raw(), &vec![0, 0, 0, 255]);
}

#[test]
fn black_two_by_two_comes_to_four_cells() {
    let input = gray(2, 2, vec![0, 0, 0, 0]);
    let mut output = gray(2, 2, vec![255; 4]);
    let (rects, calibrated) = calibrate(total_darkness_of(&input), settings(1, 1));
    let cells = draw_rects(&input, &mut output, calibrated, Rectangle::full(2, 2), rects);
    assert_eq!(cells, 4);
}

#[test]
fn white_image_has_no_darkness() {
    let input = Raster::from_raw(3, 2, PixelLayout::Rgb8, vec![255; 18]).unwrap();
    assert_eq!(total_darkness_of(&input), 0);
}

#[test]
fn white_image_is_due_no_rectangle_at_any_density() {
    assert_eq!(calibrate(0, settings(1, 10)), (0, settings(1, 10)));
    assert_eq!(calibrate(0, settings(1000, 1)), (0, settings(1000, 1)));
    assert_eq!(calibrate(0, settings(0, 1)), (0, settings(0, 1)));
    assert_eq!(calibrate(0, settings(u128::MAX, 1)), (0, settings(u128::MAX, 1)));
}

#[test]
fn white_image_leaves_output_white() {
    let input = Raster::from_raw(3, 2, PixelLayout::Rgb8, vec![255; 18]).unwrap();
    for (num, den) in [(1u128, 10u128), (1, 1), (1000, 1), (0, 1), (u128::MAX, 1)] {
        let mut output = gray(3, 2, vec![7; 6]);
        rectanglify(&input, &mut output, settings(num, den));
        assert_eq!(output.as_raw(), &vec![255; 6]);
    }
}

#[test]
fn white_image_of_other_sizes_leaves_output_white() {
    for (width, height) in [(1u32, 1u32), (1, 7), (9, 1), (5, 4)] {
        let count = (width * height) as usize;
        let input = gray(width, height, vec![255; count]);
        let mut output = Raster::new(width, height, PixelLayout::Rgba8).unwrap();
        rectanglify(&input, &mut output, settings(3, 1));
        assert_eq!(output.as_raw(), &vec![255; count * 4]);
    }
}

#[test]
fn empty_image_leaves_output_untouched_but_cleared() {
    let input = gray(0, 0, vec![]);
    let mut output = gray(2, 1, vec![1, 2]);
    rectanglify(&input, &mut output, Settings::default());
    assert_eq!(output.as_raw(), &vec![255, 255]);
}

#[test]
fn single_pixel_at_default_density_stays_background() {
    for value in [0u8, 1, 100, 254, 255] {
        let input = gray(1, 1, vec![value]);
        let mut output = gray(1, 1, vec![0]);
        rectanglify(&input, &mut output, Settings::default());
        assert_eq!(output.as_raw(), &vec![255]);
    }
}

#[test]
fn single_black_pixel_at_density_one_is_one_cell() {
    let input = gray(1, 1, vec![0]);
    let (rects, calibrated) = calibrate(total_darkness_of(&input), settings(1, 1));
    assert_eq!(rects, 1);
    let mut output = gray(1, 1, vec![255]);
    let cells = draw_rects(&input, &mut output, calibrated, Rectangle::full(1, 1), rects);
    assert_eq!(cells, 1);
    assert_eq!(output.as_raw(), &vec![255]);
}

#[test]
fn single_black_pixel_at_density_two_is_cut() {
    let input = gray(1, 1, vec![0]);
    let (rects, calibrated) = calibrate(total_darkness_of(&input), settings(2, 1));
    assert_eq!(rects, 2);
    let mut output = gray(1, 1, vec![255]);
    let cells = draw_rects(&input, &mut output, calibrated, Rectangle::full(1, 1), rects);
    assert_eq!(cells, 2);
    assert_eq!(output.as_raw(), &vec![0]);
}

#[test]
fn checkerboard_total_darkness() {
    assert_eq!(total_darkness_of(&checkerboard()), 8 * 255);
}

#[test]
fn checkerboard_rect_count_is_rounded_product() {
    let total = total_darkness_of(&checkerboard());
    // 8 pixels' worth of darkness at one rectangle per two pixels.
    assert_eq!(calibrate(total, settings(1, 2)).0, 4);
    // 8 * 0.3 = 2.4 rounds down, 8 * 0.32 = 2.56 rounds up.
    assert_eq!(calibrate(total, settings(3, 10)).0, 2);
    assert_eq!(calibrate(total, settings(32, 100)).0, 3);
    // 8 * 0.3125 = 2.5 rounds away from zero.
    assert_eq!(calibrate(total, settings(3125, 10000)).0, 3);
}

#[test]
fn checkerboard_density_is_recalibrated_to_count_over_darkness() {
    let total = total_darkness_of(&checkerboard());
    let (rects, calibrated) = calibrate(total, settings(32, 100));
    // rects / (total / 255), written over the common denominator.
    assert_eq!(calibrated.rects_per_pixel, Ratio { num: 255 * rects as u128, den: total });
    assert_eq!(calibrated.rects_per_pixel, Ratio { num: 765, den: 2040 });
    // The recalibrated density asks for the same count again.
    assert_eq!(calibrate(total, calibrated), (rects, calibrated));
}

#[test]
fn checkerboard_rendering() {
    let mut output = Raster::new(4, 4, PixelLayout::Gray8).unwrap();
    rectanglify(&checkerboard(), &mut output, settings(1, 2));
    assert_eq!(
        output.as_raw(),
        &vec![
            255, 0, 255, 255, //
            0, 0, 0, 0, //
            255, 0, 255, 255, //
            255, 0, 255, 255,
        ]
    );
    rectanglify(&checkerboard(), &mut output, settings(1, 1));
    assert_eq!(
        output.as_raw(),
        &vec![
            0, 0, 0, 0, //
            0, 0, 0, 0, //
            0, 0, 0, 0, //
            255, 0, 255, 255,
        ]
    );
}

#[test]
fn colour_gradient_rendering() {
    let mut samples = Vec::new();
    for y in 0..3u32 {
        for x in 0..4u32 {
            samples.push((x * 60) as u8);
            samples.push((y * 100) as u8);
            samples.push(((x * y * 20) % 256) as u8);
        }
    }
    let input = Raster::from_raw(4, 3, PixelLayout::Rgb8, samples).unwrap();
    assert_eq!(total_darkness_of(&input), 1952);
    let mut output = Raster::new(4, 3, PixelLayout::Gray8).unwrap();
    rectanglify(&input, &mut output, settings(1, 1));
    assert_eq!(
        output.as_raw(),
        &vec![
            0, 0, 0, 255, //
            0, 0, 0, 0, //
            255, 0, 0, 255,
        ]
    );
    rectanglify(&input, &mut output, settings(3, 2));
    assert_eq!(
        output.as_raw(),
        &vec![
            0, 0, 0, 0, //
            0, 0, 0, 0, //
            0, 0, 0, 255,
        ]
    );
}

#[test]
fn ramp_rendering_into_rgba() {
    let input = gray(5, 1, vec![0, 64, 128, 192, 255]);
    let mut output = Raster::new(5, 1, PixelLayout::Rgba8).unwrap();
    rectanglify(&input, &mut output, settings(1, 1));
    let white = [255u8, 255, 255, 255];
    let black = [0u8, 0, 0, 255];
    let expected: Vec<u8> = [white, black, white, white, white].concat();
    assert_eq!(output.as_raw(), &expected);
    rectanglify(&input, &mut output, settings(2, 1));
    let expected: Vec<u8> = [black, black, black, white, white].concat();
    assert_eq!(output.as_raw(), &expected);
}

#[test]
fn larger_output_is_cleared_whole_and_drawn_in_its_corner() {
    let input = gray(2, 2, vec![0, 0, 0, 0]);
    let mut output = gray(3, 3, vec![9; 9]);
    rectanglify(&input, &mut output, settings(1, 1));
    assert_eq!(output.as_raw(), &vec![0, 0, 255, 0, 255, 255, 255, 255, 255]);
}

#[test]
fn repeated_runs_give_identical_output() {
    let input = gray(5, 1, vec![0, 64, 128, 192, 255]);
    let mut first = gray(5, 1, vec![0; 5]);
    let mut second = gray(5, 1, vec![200, 3, 77, 0, 255]);
    rectanglify(&input, &mut first, settings(2, 1));
    rectanglify(&input, &mut second, settings(2, 1));
    assert_eq!(first.as_raw(), second.as_raw());
    let once = first.as_raw().clone();
    rectanglify(&input, &mut first, settings(2, 1));
    assert_eq!(first.as_raw(), &once);
}

#[test]
fn run_conserves_the_rect_count() {
    let inputs = [
        gray(5, 1, vec![0, 64, 128, 192, 255]),
        checkerboard(),
        gray(3, 3, vec![10, 250, 30, 255, 0, 255, 128, 128, 1]),
    ];
    for input in inputs.iter() {
        for (num, den) in [(1u128, 2u128), (1, 1), (3, 2)] {
            let (rects, calibrated) = calibrate(total_darkness_of(input), settings(num, den));
            assert!(rects >= 1);
            let mut output = Raster::new(input.width(), input.height(), PixelLayout::Gray8).unwrap();
            let area = Rectangle::full(input.width(), input.height());
            assert_eq!(draw_rects(input, &mut output, calibrated, area, rects), rects);
        }
    }
}

#[test]
fn dense_run_can_come_to_fewer_cells() {
    // Regions narrower than a pixel are cut where the line would be cut if
    // it lay wholly inside them, which can leave a half without darkness.
    let pixel = gray(1, 1, vec![0]);
    let (rects, calibrated) = calibrate(total_darkness_of(&pixel), settings(12, 1));
    assert_eq!(rects, 12);
    let mut output = gray(1, 1, vec![255]);
    assert_eq!(draw_rects(&pixel, &mut output, calibrated, Rectangle::full(1, 1), rects), 10);
    assert_eq!(output.as_raw(), &vec![0]);
    let ramp = gray(5, 1, vec![0, 64, 128, 192, 255]);
    let (rects, calibrated) = calibrate(total_darkness_of(&ramp), settings(40, 1));
    assert_eq!(rects, 100);
    let mut output = gray(5, 1, vec![255; 5]);
    assert_eq!(draw_rects(&ramp, &mut output, calibrated, Rectangle::full(5, 1), rects), 67);
    assert_eq!(output.as_raw(), &vec![0, 0, 0, 0, 255]);
}

#[test]
fn input_without_rectangles_renders_on_a_smaller_output() {
    let white = gray(3, 3, vec![255; 9]);
    let mut output = gray(1, 2, vec![4, 5]);
    rectanglify(&white, &mut output, settings(1000, 1));
    assert_eq!(output.as_raw(), &vec![255, 255]);
    // One rectangle is due: still no line.
    let dark = gray(2, 2, vec![0, 255, 255, 255]);
    let mut output = gray(1, 1, vec![9]);
    rectanglify(&dark, &mut output, settings(1, 1));
    assert_eq!(output.as_raw(), &vec![255]);
}

#[test]
fn single_rect_needs_no_room() {
    // With one rectangle due nothing is read and nothing is drawn, even for
    // a region that lies off the input and an output smaller than the input.
    let input = gray(2, 2, vec![0; 4]);
    let mut output = gray(1, 1, vec![77]);
    let off = Rectangle { left: 0, top: 0, right: u64::MAX, bottom: u64::MAX };
    let zero = Settings { rects_per_pixel: Ratio { num: 0, den: 0 } };
    assert_eq!(draw_rects(&input, &mut output, zero, off, 1), 1);
    assert_eq!(output.as_raw(), &vec![77]);
}

#[test]
fn renderings_of_generated_images() {
    // Sixty small images of all layouts from a linear congruential
    // generator, each run at one of seven densities. The digest is a 64-bit
    // FNV-1a over the rect count and the output samples of every run.
    let mut state: u64 = 2024;
    let mut next = move || {
        state = state.wrapping_mul(6364136223846793005).wrapping_add(1442695040888963407);
        state >> 33
    };
    let densities = [(1u128, 10u128), (1, 4), (1, 2), (1, 1), (3, 2), (2, 5), (7, 3)];
    let layouts = [PixelLayout::Gray8, PixelLayout::Rgb8, PixelLayout::Rgba8];
    let mut digest: u64 = 0xcbf29ce484222325;
    let mut cells_total: u64 = 0;
    for _ in 0..60 {
        let width = 1 + (next() % 9) as u32;
        let height = 1 + (next() % 9) as u32;
        let layout = layouts[(next() % 3) as usize];
        let mut samples = Vec::new();
        for _ in 0..(width * height) as usize * layout.channel_count() {
            samples.push((next() % 256) as u8);
        }
        let (num, den) = densities[(next() % 7) as usize];
        let input = Raster::from_raw(width, height, layout, samples).unwrap();
        let (rects, calibrated) = calibrate(total_darkness_of(&input), settings(num, den));
        let mut output = Raster::new(width, height, PixelLayout::Gray8).unwrap();
        rectanglify(&input, &mut output, settings(num, den));
        digest = (digest ^ (rects & 0xff)).wrapping_mul(0x100000001b3);
        for sample in output.as_raw().iter() {
            digest = (digest ^ *sample as u64).wrapping_mul(0x100000001b3);
        }
        if rects > 0 {
            let mut scratch = Raster::new(width, height, PixelLayout::Gray8).unwrap();
            cells_total += draw_rects(&input, &mut scratch, calibrated, Rectangle::full(width, height), rects);
        }
    }
    assert_eq!(digest, 0x1f9997c4e6523adf);
    assert_eq!(cells_total, 637);
}
