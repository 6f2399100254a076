use rectanglify::geometry::{Axis, Rectangle, SUBPIXELS};
use rectanglify::pixel::{Pixel, PixelLayout};
use rectanglify::raster::Raster;
use rectanglify::render::{clear, draw_line, horizontal_line, vertical_line, Line};

#[test]
fn new_raster_is_zeroed() {
    let raster = Raster::new(3, 2, PixelLayout::Rgb8).unwrap();
    assert_eq!(raster.width(), 3);
    assert_eq!(raster.height(), 2);
    assert_eq!(raster.layout(), PixelLayout::Rgb8);
    assert_eq!(raster.as_raw(), &vec![0u8; 18]);
    assert_eq!(Raster::new(0, 9, PixelLayout::Rgba8).unwrap().into_raw(), Vec::<u8>::new());
}

#[test]
fn raster_too_large_for_memory_is_refused() {
    assert!(Raster::new(u32::MAX, u32::MAX, PixelLayout::Rgba8).is_none());
    assert_eq!(Raster::count_samples(u32::MAX, u32::MAX, PixelLayout::Rgba8), 73786976260478468100);
    assert_eq!(Raster::count_samples(3, 5, PixelLayout::Rgb8), 45);
    assert_eq!(Raster::count_samples(0, 5, PixelLayout::Gray8), 0);
}

#[test]
fn raster_over_samples_checks_their_number() {
    assert!(Raster::from_raw(2, 2, PixelLayout::Gray8, vec![1, 2, 3]).is_none());
    assert!(Raster::from_raw(2, 2, PixelLayout::Gray8, vec![1, 2, 3, 4, 5]).is_none());
    assert!(Raster::from_raw(2, 2, PixelLayout::Rgb8, vec![0; 4]).is_none());
    assert!(Raster::from_raw(0, 0, PixelLayout::Rgb8, vec![0]).is_none());
    let raster = Raster::from_raw(2, 2, PixelLayout::Gray8, vec![1, 2, 3, 4]).unwrap();
    assert_eq!(raster.into_raw(), vec![1, 2, 3, 4]);
    assert!(Raster::from_raw(0, 0, PixelLayout::Rgb8, vec![]).is_some());
}

#[test]
fn pixels_are_read_row_by_row() {
    let gray = Raster::from_raw(3, 2, PixelLayout::Gray8, vec![1, 2, 3, 4, 5, 6]).unwrap();
    assert_eq!(gray.get_pixel(0, 0), Pixel::Gray(1));
    assert_eq!(gray.get_pixel(2, 0), Pixel::Gray(3));
    assert_eq!(gray.get_pixel(0, 1), Pixel::Gray(4));
    assert_eq!(gray.get_pixel(2, 1), Pixel::Gray(6));
    let rgb = Raster::from_raw(2, 2, PixelLayout::Rgb8, (1..=12).collect()).unwrap();
    assert_eq!(rgb.get_pixel(0, 0), Pixel::Rgb(1, 2, 3));
    assert_eq!(rgb.get_pixel(1, 0), Pixel::Rgb(4, 5, 6));
    assert_eq!(rgb.get_pixel(0, 1), Pixel::Rgb(7, 8, 9));
    assert_eq!(rgb.get_pixel(1, 1), Pixel::Rgb(10, 11, 12));
    let rgba = Raster::from_raw(1, 2, PixelLayout::Rgba8, (1..=8).collect()).unwrap();
    assert_eq!(rgba.get_pixel(0, 0), Pixel::Rgba(1, 2, 3, 4));
    assert_eq!(rgba.get_pixel(0, 1), Pixel::Rgba(5, 6, 7, 8));
}

#[test]
fn put_pixel_replaces_one_pixel() {
    let mut rgb = Raster::from_raw(2, 2, PixelLayout::Rgb8, (1..=12).collect()).unwrap();
    rgb.put_pixel(1, 0, Pixel::Rgb(100, 101, 102));
    assert_eq!(rgb.as_raw(), &vec![1, 2, 3, 100, 101, 102, 7, 8, 9, 10, 11, 12]);
    rgb.put_pixel(0, 1, Pixel::Rgb(0, 0, 0));
    assert_eq!(rgb.as_raw(), &vec![1, 2, 3, 100, 101, 102, 0, 0, 0, 10, 11, 12]);
    let mut rgba = Raster::new(2, 1, PixelLayout::Rgba8).unwrap();
    rgba.put_pixel(1, 0, Pixel::Rgba(9, 8, 7, 6));
    assert_eq!(rgba.as_raw(), &vec![0, 0, 0, 0, 9, 8, 7, 6]);
}

#[test]
fn fill_sets_every_sample() {
    let mut raster = Raster::from_raw(2, 1, PixelLayout::Rgb8, vec![1, 2, 3, 4, 5, 6]).unwrap();
    raster.fill(42);
    assert_eq!(raster.as_raw(), &vec![42; 6]);
    assert_eq!(raster.width(), 2);
    assert_eq!(raster.height(), 1);
}

#[test]
fn clear_makes_every_pixel_opaque_white() {
    for layout in [PixelLayout::Gray8, PixelLayout::Rgb8, PixelLayout::Rgba8] {
        let mut raster = Raster::new(3, 2, layout).unwrap();
        clear(&mut raster);
        for y in 0..2 {
            for x in 0..3 {
                assert_eq!(raster.get_pixel(x, y), Pixel::background(layout));
            }
        }
        assert_eq!(raster.as_raw(), &vec![255u8; 6 * layout.channel_count()]);
    }
}

#[test]
fn horizontal_line_paints_a_stretch_of_a_row() {
    let mut raster = Raster::from_raw(4, 3, PixelLayout::Gray8, vec![255; 12]).unwrap();
    horizontal_line(&mut raster, 1, 1, 2);
    assert_eq!(raster.as_raw(), &vec![255, 255, 255, 255, 255, 0, 0, 255, 255, 255, 255, 255]);
    horizontal_line(&mut raster, 2, 0, 3);
    assert_eq!(raster.as_raw(), &vec![255, 255, 255, 255, 255, 0, 0, 255, 0, 0, 0, 0]);
    horizontal_line(&mut raster, 0, 3, 3);
    assert_eq!(raster.as_raw(), &vec![255, 255, 255, 0, 255, 0, 0, 255, 0, 0, 0, 0]);
}

#[test]
fn vertical_line_paints_a_stretch_of_a_column() {
    let mut raster = Raster::from_raw(3, 4, PixelLayout::Gray8, vec![255; 12]).unwrap();
    vertical_line(&mut raster, 2, 1, 3);
    assert_eq!(raster.as_raw(), &vec![255, 255, 255, 255, 255, 0, 255, 255, 0, 255, 255, 0]);
    vertical_line(&mut raster, 0, 0, 0);
    assert_eq!(raster.as_raw(), &vec![0, 255, 255, 255, 255, 0, 255, 255, 0, 255, 255, 0]);
}

#[test]
fn lines_are_black_with_full_alpha() {
    let mut rgba = Raster::from_raw(2, 2, PixelLayout::Rgba8, vec![100; 16]).unwrap();
    vertical_line(&mut rgba, 1, 0, 1);
    assert_eq!(
        rgba.as_raw(),
        &vec![100, 100, 100, 100, 0, 0, 0, 255, 100, 100, 100, 100, 0, 0, 0, 255]
    );
    let mut rgb = Raster::from_raw(2, 1, PixelLayout::Rgb8, vec![100; 6]).unwrap();
    horizontal_line(&mut rgb, 0, 0, 0);
    assert_eq!(rgb.as_raw(), &vec![0, 0, 0, 100, 100, 100]);
}

#[test]
fn line_with_reversed_span_paints_nothing() {
    let mut raster = Raster::from_raw(3, 3, PixelLayout::Gray8, vec![255; 9]).unwrap();
    horizontal_line(&mut raster, 1, 2, 1);
    vertical_line(&mut raster, 1, 2, 0);
    // Nothing is touched, so the position may even lie off the canvas.
    horizontal_line(&mut raster, 50, 2, 1);
    assert_eq!(raster.as_raw(), &vec![255; 9]);
}

#[test]
fn draw_line_goes_by_the_axis() {
    let mut raster = Raster::from_raw(3, 3, PixelLayout::Gray8, vec![255; 9]).unwrap();
    draw_line(&mut raster, Line { axis: Axis::Vertical, position: 0, span_start: 1, span_end: 2 });
    assert_eq!(raster.as_raw(), &vec![255, 255, 255, 0, 255, 255, 0, 255, 255]);
    draw_line(&mut raster, Line { axis: Axis::Horizontal, position: 0, span_start: 1, span_end: 2 });
    assert_eq!(raster.as_raw(), &vec![255, 0, 0, 0, 255, 255, 0, 255, 255]);
}

#[test]
fn rectangle_extents_are_signed() {
    let rect = Rectangle { left: 10, top: 50, right: 40, bottom: 30 };
    assert_eq!(rect.width(), 30);
    assert_eq!(rect.height(), -20);
    let wide = Rectangle { left: u64::MAX, top: 0, right: 0, bottom: u64::MAX };
    assert_eq!(wide.width(), -(u64::MAX as i128));
    assert_eq!(wide.height(), u64::MAX as i128);
}

#[test]
fn full_rectangle_covers_the_canvas() {
    assert_eq!(SUBPIXELS, 65536);
    assert_eq!(Rectangle::full(3, 2), Rectangle { left: 0, top: 0, right: 196608, bottom: 131072 });
    assert_eq!(Rectangle::full(0, 0), Rectangle { left: 0, top: 0, right: 0, bottom: 0 });
    assert_eq!(
        Rectangle::full(u32::MAX, 1),
        Rectangle { left: 0, top: 0, right: 281474976645120, bottom: 65536 }
    );
}

#[test]
fn wider_than_tall_is_cut_vertically() {
    assert_eq!(Rectangle::full(3, 2).split_axis(), Axis::Vertical);
    assert_eq!(Rectangle::full(2, 3).split_axis(), Axis::Horizontal);
    let barely = Rectangle { left: 0, top: 0, right: 101, bottom: 100 };
    assert_eq!(barely.split_axis(), Axis::Vertical);
}

#[test]
fn square_is_cut_horizontally() {
    assert_eq!(Rectangle::full(2, 2).split_axis(), Axis::Horizontal);
    assert_eq!(Rectangle::full(0, 0).split_axis(), Axis::Horizontal);
    let square = Rectangle { left: 5, top: 7, right: 105, bottom: 107 };
    assert_eq!(square.split_axis(), Axis::Horizontal);
}

#[test]
fn halves_replace_one_bound() {
    let rect = Rectangle { left: 10, top: 20, right: 110, bottom: 220 };
    assert_eq!(rect.first_half(Axis::Vertical, 60), Rectangle { left: 10, top: 20, right: 60, bottom: 220 });
    assert_eq!(rect.second_half(Axis::Vertical, 60), Rectangle { left: 60, top: 20, right: 110, bottom: 220 });
    assert_eq!(rect.first_half(Axis::Horizontal, 60), Rectangle { left: 10, top: 20, right: 110, bottom: 60 });
    assert_eq!(rect.second_half(Axis::Horizontal, 60), Rectangle { left: 10, top: 60, right: 110, bottom: 220 });
}
