use alacritty_graphics::codec::Raster;
use alacritty_graphics::graphics::ResizeParameter::{Auto, Cells, Pixels, WindowPercent};
use alacritty_graphics::graphics::{
    ColorType, GraphicData, GraphicId, ResizeCommand, ResizeParameter, MAX_GRAPHIC_DIMENSIONS,
};

fn graphic(color_type: ColorType, width: usize, height: usize) -> GraphicData {
    let mut graphic = GraphicData::with_size(color_type, 3, 7, width, height);
    graphic.id = GraphicId(9);
    for (i, byte) in graphic.pixels.iter_mut().enumerate() {
        *byte = (i % 251) as u8;
    }
    graphic
}

fn resized(
    mut graphic: GraphicData,
    width: ResizeParameter,
    height: ResizeParameter,
    preserve_aspect_ratio: bool,
) -> Option<GraphicData> {
    graphic.resize = Some(ResizeCommand { width, height, preserve_aspect_ratio });
    // Cells of 7 by 13 pixels, in a window of 1000 by 600 pixels.
    graphic.resized(7, 13, 1000, 600)
}

fn size(graphic: Option<GraphicData>) -> Option<(usize, usize)> {
    graphic.map(|graphic| {
        assert_eq!(
            graphic.pixels.len(),
            graphic.width * graphic.height * graphic.color_type.bytes_per_pixel()
        );
        (graphic.width, graphic.height)
    })
}

#[test]
fn bytes_per_pixel() {
    assert_eq!(ColorType::RGB.bytes_per_pixel(), 3);
    assert_eq!(ColorType::RGBA.bytes_per_pixel(), 4);
    assert_eq!(MAX_GRAPHIC_DIMENSIONS, (4096, 4096));
}

#[test]
fn with_size_holds_black_pixels() {
    let graphic = GraphicData::with_size(ColorType::RGBA, 3, -7, 5, 2);
    assert_eq!(graphic.id, GraphicId(0));
    assert_eq!((graphic.column, graphic.line), (3, -7));
    assert_eq!((graphic.width, graphic.height), (5, 2));
    assert_eq!(graphic.pixels, vec![0; 40]);
    assert_eq!(graphic.resize, None);
    assert_eq!(GraphicData::with_size(ColorType::RGB, 0, 0, 0, 9).pixels, vec![]);
    assert_eq!(GraphicData::with_size(ColorType::RGB, 0, 0, 9, 0).pixels, vec![]);
    assert_eq!(GraphicData::with_size(ColorType::RGB, 0, 0, usize::MAX, 0).pixels, vec![]);
}

#[test]
fn a_graphic_that_asks_for_nothing_stays_as_it_is() {
    let original = graphic(ColorType::RGB, 4, 3);
    assert_eq!(original.clone().resized(7, 13, 1000, 600), Some(original.clone()));

    let mut both_auto = original.clone();
    both_auto.resize =
        Some(ResizeCommand { width: Auto, height: Auto, preserve_aspect_ratio: false });
    assert_eq!(both_auto.clone().resized(7, 13, 1000, 600), Some(both_auto));

    let mut empty = GraphicData::with_size(ColorType::RGB, 0, 0, 0, 5);
    empty.resize =
        Some(ResizeCommand { width: Cells(1), height: Cells(1), preserve_aspect_ratio: false });
    assert_eq!(empty.clone().resized(7, 13, 1000, 600), Some(empty));
}

#[test]
fn resize_to_cells_is_exact() {
    for preserve in [false, true] {
        // A box of the proportions of the graphic: it is filled either way.
        let out = resized(graphic(ColorType::RGB, 7, 13), Cells(3), Cells(3), preserve);
        assert_eq!(size(out), Some((21, 39)));
    }
    let out = resized(graphic(ColorType::RGBA, 10, 10), Cells(3), Pixels(5), false).unwrap();
    assert_eq!((out.width, out.height), (21, 5));
    assert_eq!(out.color_type, ColorType::RGBA);
    assert_eq!(out.pixels.len(), 21 * 5 * 4);
    assert_eq!(out.resize, None);
    assert_eq!(out.id, GraphicId(9));
    assert_eq!((out.column, out.line), (3, 7));
}

#[test]
fn resize_that_keeps_the_proportions_fits_the_box() {
    // 21 by 5 is asked for. A square fits in it with sides of 5.
    let out = resized(graphic(ColorType::RGB, 10, 10), Cells(3), Pixels(5), true);
    assert_eq!(size(out), Some((5, 5)));
    let out = resized(graphic(ColorType::RGB, 10, 10), Pixels(5), Cells(3), true);
    assert_eq!(size(out), Some((5, 5)));
    // A side is never empty.
    let out = resized(graphic(ColorType::RGBA, 1000, 2), Pixels(10), Pixels(10), true);
    assert_eq!(size(out), Some((10, 1)));
}

#[test]
fn resize_to_pixels_and_percent() {
    let out = resized(graphic(ColorType::RGB, 4, 3), Pixels(9), WindowPercent(1), false);
    assert_eq!(size(out), Some((9, 6)));
    let out = resized(graphic(ColorType::RGB, 4, 3), WindowPercent(50), WindowPercent(25), false);
    assert_eq!(size(out), Some((500, 150)));
    // 1000 * 33 / 100 and 600 * 33 / 100, rounded down.
    let out = resized(graphic(ColorType::RGB, 4, 3), WindowPercent(33), WindowPercent(33), false);
    assert_eq!(size(out), Some((330, 198)));
    let out = resized(graphic(ColorType::RGB, 1, 1), WindowPercent(1), Pixels(1), false);
    assert_eq!(size(out), Some((10, 1)));
}

#[test]
fn resize_with_one_side_computed() {
    // 40 * 30 / 20 and 20 * 30 / 40, rounded down.
    let out = resized(graphic(ColorType::RGB, 40, 20), Auto, Pixels(30), false);
    assert_eq!(size(out), Some((60, 30)));
    let out = resized(graphic(ColorType::RGB, 40, 20), Pixels(30), Auto, false);
    assert_eq!(size(out), Some((30, 15)));
    // 10 by 6 is asked for, and 9 by 6 has the proportions of 3 by 2.
    let out = resized(graphic(ColorType::RGB, 3, 2), Pixels(10), Auto, true);
    assert_eq!(size(out), Some((9, 6)));
    let out = resized(graphic(ColorType::RGB, 3, 2), Pixels(10), Auto, false);
    assert_eq!(size(out), Some((10, 6)));
    let out = resized(graphic(ColorType::RGB, 3, 2), Auto, Cells(1), false);
    assert_eq!(size(out), Some((19, 13)));
}

#[test]
fn resize_is_limited() {
    let out = resized(graphic(ColorType::RGB, 2, 2), Pixels(5000), Pixels(1), false);
    assert_eq!(size(out), Some((4096, 1)));
    let out = resized(graphic(ColorType::RGB, 2, 2), Pixels(2), Pixels(4097), false);
    assert_eq!(size(out), Some((2, 4096)));
    let out = resized(graphic(ColorType::RGB, 2, 2), Pixels(4096), Pixels(1), false);
    assert_eq!(size(out), Some((4096, 1)));
    let out = resized(graphic(ColorType::RGB, 2, 2), Cells(u32::MAX), Pixels(1), false);
    assert_eq!(size(out), Some((4096, 1)));
    let out = resized(graphic(ColorType::RGBA, 2, 2), Pixels(3), WindowPercent(u32::MAX), false);
    assert_eq!(size(out), Some((3, 4096)));
    // The computed side follows the side that is asked for before the limit:
    // 1 * 8192 / 4096, and not 1 * 4096 / 4096.
    let out = resized(graphic(ColorType::RGB, 4096, 1), Pixels(8192), Auto, false);
    assert_eq!(size(out), Some((4096, 2)));
    let out = resized(graphic(ColorType::RGB, 1, 4096), Auto, Pixels(8192), false);
    assert_eq!(size(out), Some((2, 4096)));
}

#[test]
fn resize_to_an_empty_side_drops_the_graphic() {
    assert_eq!(resized(graphic(ColorType::RGB, 4, 3), Pixels(0), Pixels(5), false), None);
    assert_eq!(resized(graphic(ColorType::RGB, 4, 3), Pixels(5), Cells(0), true), None);
    assert_eq!(resized(graphic(ColorType::RGB, 4, 3), WindowPercent(0), Auto, true), None);
    // 600 * 1 / 1000 of the window is less than a pixel.
    let mut small = graphic(ColorType::RGB, 4, 3);
    small.resize = Some(ResizeCommand {
        width: WindowPercent(1),
        height: Pixels(5),
        preserve_aspect_ratio: false,
    });
    assert_eq!(small.resized(7, 13, 99, 600), None);
    // The side that is computed comes out empty: 1 * 5 / 10.
    assert_eq!(resized(graphic(ColorType::RGB, 1, 10), Auto, Pixels(5), false), None);
    assert_eq!(resized(graphic(ColorType::RGB, 10, 1), Pixels(5), Auto, true), None);
}

#[test]
fn resize_drops_a_graphic_without_its_pixels() {
    let mut short = graphic(ColorType::RGB, 4, 3);
    short.pixels.pop();
    assert_eq!(resized(short, Pixels(2), Pixels(2), false), None);

    let mut long = graphic(ColorType::RGB, 4, 3);
    long.pixels.push(0);
    assert_eq!(size(resized(long, Pixels(2), Pixels(2), false)), Some((2, 2)));
}

#[test]
fn resized_pixels_come_from_the_graphic() {
    let mut red = GraphicData::with_size(ColorType::RGB, 0, 0, 2, 2);
    for pixel in red.pixels.chunks_mut(3) {
        pixel[0] = 200;
    }
    let out = resized(red.clone(), Pixels(4), Pixels(6), false).unwrap();
    assert_eq!(out.pixels.len(), 4 * 6 * 3);
    assert!(out.pixels.chunks(3).all(|pixel| pixel == [200, 0, 0]));
    let out = resized(red, Pixels(5), Pixels(5), true).unwrap();
    assert_eq!(out.pixels.len(), 5 * 5 * 3);
    assert!(out.pixels.chunks(3).all(|pixel| pixel == [200, 0, 0]));

    let mut faint = GraphicData::with_size(ColorType::RGBA, 0, 0, 3, 1);
    for pixel in faint.pixels.chunks_mut(4) {
        pixel.copy_from_slice(&[1, 2, 3, 4]);
    }
    let out = resized(faint, Pixels(1), Pixels(2), false).unwrap();
    assert_eq!(out.pixels, vec![1, 2, 3, 4, 1, 2, 3, 4]);
}

#[test]
fn from_dynamic_image_keeps_rgb_and_rgba() {
    let image = image::DynamicImage::ImageRgb8(image::RgbImage::from_fn(2, 3, |x, y| {
        image::Rgb([x as u8, y as u8, 7])
    }));
    let graphic = GraphicData::from_dynamic_image(GraphicId(5), image);
    assert_eq!(graphic.id, GraphicId(5));
    assert_eq!((graphic.column, graphic.line), (0, 0));
    assert_eq!((graphic.width, graphic.height), (2, 3));
    assert_eq!(graphic.color_type, ColorType::RGB);
    assert_eq!(
        graphic.pixels,
        vec![0, 0, 7, 1, 0, 7, 0, 1, 7, 1, 1, 7, 0, 2, 7, 1, 2, 7]
    );
    assert_eq!(graphic.resize, None);

    let image = image::DynamicImage::ImageRgba8(image::RgbaImage::from_pixel(
        1,
        2,
        image::Rgba([9, 8, 7, 6]),
    ));
    let graphic = GraphicData::from_dynamic_image(GraphicId(6), image);
    assert_eq!(graphic.color_type, ColorType::RGBA);
    assert_eq!((graphic.width, graphic.height), (1, 2));
    assert_eq!(graphic.pixels, vec![9, 8, 7, 6, 9, 8, 7, 6]);
}

#[test]
fn from_dynamic_image_converts_other_layouts() {
    let image =
        image::DynamicImage::ImageLuma8(image::GrayImage::from_pixel(2, 1, image::Luma([100])));
    let graphic = GraphicData::from_dynamic_image(GraphicId(1), image);
    assert_eq!(graphic.color_type, ColorType::RGBA);
    assert_eq!((graphic.width, graphic.height), (2, 1));
    assert_eq!(graphic.pixels, vec![100, 100, 100, 255, 100, 100, 100, 255]);

    let image = image::DynamicImage::ImageRgb16(image::ImageBuffer::from_pixel(
        1,
        1,
        image::Rgb([0xffff, 0, 0x8000]),
    ));
    let graphic = GraphicData::from_dynamic_image(GraphicId(1), image);
    assert_eq!(graphic.color_type, ColorType::RGBA);
    assert_eq!(graphic.pixels.len(), 4);
    assert_eq!(graphic.pixels[0], 255);
    assert_eq!(graphic.pixels[1], 0);
    assert_eq!(graphic.pixels[3], 255);
}

#[test]
fn from_dynamic_image_leaves_out_what_is_behind_the_pixels() {
    let buffer = image::RgbImage::from_raw(1, 1, vec![1, 2, 3, 4, 5]).unwrap();
    let graphic =
        GraphicData::from_dynamic_image(GraphicId(1), image::DynamicImage::ImageRgb8(buffer));
    assert_eq!((graphic.width, graphic.height), (1, 1));
    assert_eq!(graphic.pixels, vec![1, 2, 3]);
}

#[test]
fn from_raster_takes_the_pixels_it_needs() {
    let raster = Raster { width: 2, height: 1, pixels: vec![1, 2, 3, 4, 5, 6, 7, 8, 9] };
    let graphic = GraphicData::from_raster(GraphicId(3), ColorType::RGBA, raster.clone());
    assert_eq!(graphic.id, GraphicId(3));
    assert_eq!((graphic.width, graphic.height), (2, 1));
    assert_eq!(graphic.color_type, ColorType::RGBA);
    assert_eq!(graphic.pixels, vec![1, 2, 3, 4, 5, 6, 7, 8]);
    let graphic = GraphicData::from_raster(GraphicId(3), ColorType::RGB, raster);
    assert_eq!(graphic.pixels, vec![1, 2, 3, 4, 5, 6]);
}

#[test]
fn resize_that_keeps_the_proportions_meets_the_side_that_grows_less() {
    // The width is asked to grow 3 times and the height 4 times: the graphic
    // is as wide as asked for.
    let out = resized(graphic(ColorType::RGB, 7, 13), Cells(3), Cells(4), true);
    assert_eq!(size(out).map(|size| size.0), Some(21));
    // The width 4 times and the height 3 times: as high as asked for.
    let out = resized(graphic(ColorType::RGBA, 7, 13), Cells(4), Cells(3), true);
    assert_eq!(size(out).map(|size| size.1), Some(39));
    // Sizes that no float holds the ratio of.
    let out = resized(graphic(ColorType::RGB, 3, 7), Pixels(10), Pixels(4000), true);
    assert_eq!(size(out).map(|size| size.0), Some(10));
    let out = resized(graphic(ColorType::RGB, 7, 3), Pixels(4000), Pixels(10), true);
    assert_eq!(size(out).map(|size| size.1), Some(10));
    // Both at once, where the box has the proportions of the graphic.
    let out = resized(graphic(ColorType::RGB, 3, 7), Pixels(9), Pixels(21), true);
    assert_eq!(size(out), Some((9, 21)));
}
