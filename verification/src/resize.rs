//! Graphics made from decoded images, and their change of size before they
//! are attached to the grid.

use vstd::prelude::*;
use crate::codec::{
    fitted, image_layout, into_rgb8, into_rgba8, pixel_layout, resize_exact_rgb,
    resize_exact_rgba, resize_fit_rgb, resize_fit_rgba, rgb8_raster, rgba8_raster, stretched,
    PixelLayout, Raster,
};
use crate::graphics::{
    ColorType, GraphicData, GraphicDataView, GraphicId, ResizeCommand, ResizeParameter,
    MAX_GRAPHIC_DIMENSIONS,
};

verus! {

/// Pixels that `parameter` asks for, on a side where a cell has `cell` pixels
/// and the viewport `view`. Where it asks for none, 1 stands for the side
/// until the other side is known.
pub open spec fn requested(parameter: ResizeParameter, cell: int, view: int) -> int {
    match parameter {
        ResizeParameter::Auto => 1,
        ResizeParameter::Pixels(n) => n as int,
        ResizeParameter::Cells(n) => n * cell,
        ResizeParameter::WindowPercent(n) => n * view / 100,
    }
}

/// The least of `pixels` and `limit`.
pub open spec fn limited(pixels: int, limit: int) -> int {
    if pixels < limit {
        pixels
    } else {
        limit
    }
}

/// The sizes that `resize` asks for a graphic of `width` by `height` pixels,
/// or `None` where a side comes out empty.
///
/// A side that is `Auto` follows the other side in the proportions of the
/// graphic. Both sides are then limited to `MAX_GRAPHIC_DIMENSIONS`.
pub open spec fn requested_size(
    resize: ResizeCommand,
    width: int,
    height: int,
    cell_width: int,
    cell_height: int,
    view_width: int,
    view_height: int,
) -> Option<(int, int)> {
    let w0 = requested(resize.width, cell_width, view_width);
    let h0 = requested(resize.height, cell_height, view_height);
    if w0 == 0 || h0 == 0 {
        None
    } else {
        let w1 = if resize.width == ResizeParameter::Auto {
            width * h0 / height
        } else {
            w0
        };
        let h1 = if resize.height == ResizeParameter::Auto {
            height * w1 / width
        } else {
            h0
        };
        if w1 == 0 || h1 == 0 {
            None
        } else {
            Some(
                (
                    limited(w1, MAX_GRAPHIC_DIMENSIONS.0 as int),
                    limited(h1, MAX_GRAPHIC_DIMENSIONS.1 as int),
                ),
            )
        }
    }
}

/// Number of bytes that the pixels of `g` take.
pub open spec fn buffer_length(g: GraphicDataView) -> int {
    g.height * g.stride()
}

/// The pixels of `g` can be resampled to `height` rows: the sizes of `g` are
/// those of an image, its buffer holds its pixels, and the buffer in between
/// can be allocated.
pub open spec fn resizable(g: GraphicDataView, height: int) -> bool {
    &&& g.width <= u32::MAX
    &&& g.height <= u32::MAX
    &&& buffer_length(g) <= g.pixels.len()
    &&& 16 * g.width * height <= isize::MAX
}

/// The graphic `g` with its pixels resampled to `width` by `height`, or to
/// the largest size of its proportions within them.
pub open spec fn resampled(g: GraphicDataView, width: int, height: int, preserve: bool)
    -> GraphicDataView {
    let pixels = g.pixels.subrange(0, buffer_length(g));
    if preserve {
        let sized = fitted(
            g.color_type,
            g.width as u32,
            g.height as u32,
            pixels,
            width as u32,
            height as u32,
        );
        GraphicDataView {
            width: sized.0 as usize,
            height: sized.1 as usize,
            pixels: sized.2,
            resize: None,
            ..g
        }
    } else {
        GraphicDataView {
            width: width as usize,
            height: height as usize,
            pixels: stretched(
                g.color_type,
                g.width as u32,
                g.height as u32,
                pixels,
                width as u32,
                height as u32,
            ),
            resize: None,
            ..g
        }
    }
}

/// The graphic `g` has pixels, and asks for a size that does not follow its
/// own on both sides.
pub open spec fn asks_for_size(g: GraphicDataView) -> bool {
    &&& g.resize.is_some()
    &&& !(g.resize.unwrap().width == ResizeParameter::Auto && g.resize.unwrap().height
        == ResizeParameter::Auto)
    &&& g.width > 0
    &&& g.height > 0
}

/// The graphic `g` in the size that it asks for, on a grid with cells and a
/// viewport of the sizes given, or `None` where it is dropped.
///
/// A graphic that asks for no other size, or for a size that follows its own
/// on both sides, and a graphic without pixels, stay as they are. A graphic
/// for which a side comes out empty is dropped, and so is one whose pixels
/// cannot be resampled.
pub open spec fn resized_view(
    g: GraphicDataView,
    cell_width: int,
    cell_height: int,
    view_width: int,
    view_height: int,
) -> Option<GraphicDataView> {
    if !asks_for_size(g) {
        Some(g)
    } else {
        match requested_size(
            g.resize.unwrap(),
            g.width as int,
            g.height as int,
            cell_width,
            cell_height,
            view_width,
            view_height,
        ) {
            None => None,
            Some((width, height)) => {
                if resizable(g, height) {
                    Some(resampled(g, width, height, g.resize.unwrap().preserve_aspect_ratio))
                } else {
                    None
                }
            },
        }
    }
}

/// The graphic at the top left of the grid that is made of the first bytes of
/// `raster`, as many as its pixels take. `raster` holds a width, a height and
/// a buffer.
pub open spec fn raster_view(id: GraphicId, color_type: ColorType, raster: (u32, u32, Seq<u8>))
    -> GraphicDataView {
    GraphicDataView {
        id,
        column: 0,
        line: 0,
        width: raster.0 as usize,
        height: raster.1 as usize,
        color_type,
        pixels: raster.2.subrange(0, raster.0 * raster.1 * color_type.spec_bytes_per_pixel()),
        resize: None,
    }
}

/// The graphic that is made of `image`: an image of three 8-bit channels keeps
/// them, and any other image is taken with four 8-bit channels.
pub open spec fn image_view(id: GraphicId, image: image::DynamicImage) -> GraphicDataView {
    if image_layout(image) == PixelLayout::Rgb8 {
        raster_view(id, ColorType::RGB, rgb8_raster(image))
    } else {
        raster_view(id, ColorType::RGBA, rgba8_raster(image))
    }
}

/// Pixels that `parameter` asks for.
fn requested_pixels(parameter: ResizeParameter, cell: usize, view: usize) -> (pixels: u128)
    ensures
        pixels == requested(parameter, cell as int, view as int),
        pixels <= u32::MAX * usize::MAX,
{
    match parameter {
        ResizeParameter::Auto => 1,
        ResizeParameter::Pixels(n) => n as u128,
        ResizeParameter::Cells(n) => {
            assert(n * cell <= u32::MAX * usize::MAX) by (nonlinear_arith)
                requires
                    0 <= n <= u32::MAX,
                    0 <= cell <= usize::MAX,
            ;
            n as u128 * cell as u128
        },
        ResizeParameter::WindowPercent(n) => {
            assert(n * view <= u32::MAX * usize::MAX) by (nonlinear_arith)
                requires
                    0 <= n <= u32::MAX,
                    0 <= view <= usize::MAX,
            ;
            n as u128 * view as u128 / 100
        },
    }
}

/// `side * other / divisor`, where the product fits.
fn scaled(side: u32, other: u128, divisor: u32) -> (pixels: u128)
    requires
        divisor > 0,
        other <= u32::MAX * usize::MAX,
    ensures
        pixels == side as int * other as int / divisor as int,
{
    assert(side * other <= u32::MAX * (u32::MAX * usize::MAX)) by (nonlinear_arith)
        requires
            0 <= side <= u32::MAX,
            0 <= other <= u32::MAX * usize::MAX,
    ;
    assert(u32::MAX * (u32::MAX * usize::MAX) <= u128::MAX) by (nonlinear_arith)
        requires
            usize::MAX <= u64::MAX,
    ;
    side as u128 * other / divisor as u128
}

fn limit(pixels: u128, most: usize) -> (limited_to: u32)
    requires
        most <= 4096,
    ensures
        limited_to == limited(pixels as int, most as int),
{
    if pixels < most as u128 {
        pixels as u32
    } else {
        most as u32
    }
}

impl GraphicData {
    /// A graphic made of the pixels of `raster`, at the top left of the grid.
    pub fn from_raster(id: GraphicId, color_type: ColorType, raster: Raster) -> (graphic:
        GraphicData)
        requires
            raster.width * raster.height * color_type.spec_bytes_per_pixel()
                <= raster.pixels@.len(),
        ensures
            graphic@.wf(),
            graphic@ == raster_view(id, color_type, (raster.width, raster.height, raster.pixels@)),
    {
        let ghost bpp = color_type.spec_bytes_per_pixel() as int;
        let mut pixels: Vec<u8> = raster.pixels;
        let total: usize = pixels.len();
        proof {
            assert(raster.width * raster.height <= raster.width * raster.height * bpp)
                by (nonlinear_arith)
                requires
                    raster.width >= 0,
                    raster.height >= 0,
                    bpp >= 1,
            ;
            assert(raster.height * (raster.width * bpp) == raster.width * raster.height * bpp)
                by (nonlinear_arith);
        }
        let length: usize = raster.width as usize * raster.height as usize
            * color_type.bytes_per_pixel();
        pixels.truncate(length);
        GraphicData {
            id,
            column: 0,
            line: 0,
            width: raster.width as usize,
            height: raster.height as usize,
            color_type,
            pixels,
            resize: None,
        }
    }

    /// Create an instance from [`image::DynamicImage`].
    ///
    /// An image of three or four 8-bit channels keeps its pixels. Any other
    /// image is converted to four 8-bit channels.
    pub fn from_dynamic_image(id: GraphicId, image: image::DynamicImage) -> (graphic: GraphicData)
        ensures
            graphic@ == image_view(id, image),
            graphic@.wf(),
            graphic.width <= u32::MAX,
            graphic.height <= u32::MAX,
    {
        match pixel_layout(&image) {
            PixelLayout::Rgb8 => GraphicData::from_raster(id, ColorType::RGB, into_rgb8(image)),
            PixelLayout::Rgba8 => GraphicData::from_raster(id, ColorType::RGBA, into_rgba8(image)),
            PixelLayout::Other => {
                // Non-RGB image. Convert it to RGBA.
                GraphicData::from_raster(id, ColorType::RGBA, into_rgba8(image))
            },
        }
    }

    /// Resize the graphic according to the dimensions in the `resize` field.
    pub fn resized(
        self,
        cell_width: usize,
        cell_height: usize,
        view_width: usize,
        view_height: usize,
    ) -> (out: Option<GraphicData>)
        ensures
            out.is_some() == resized_view(
                self@,
                cell_width as int,
                cell_height as int,
                view_width as int,
                view_height as int,
            ).is_some(),
            out matches Some(graphic) ==> Some(graphic@) == resized_view(
                self@,
                cell_width as int,
                cell_height as int,
                view_width as int,
                view_height as int,
            ),
            out.is_some() && asks_for_size(self@) ==> {
                let asked = requested_size(
                    self@.resize.unwrap(),
                    self@.width as int,
                    self@.height as int,
                    cell_width as int,
                    cell_height as int,
                    view_width as int,
                    view_height as int,
                ).unwrap();
                &&& out.unwrap()@.wf()
                &&& 0 < out.unwrap().width <= asked.0 <= MAX_GRAPHIC_DIMENSIONS.0
                &&& 0 < out.unwrap().height <= asked.1 <= MAX_GRAPHIC_DIMENSIONS.1
                &&& asked.0 * self@.height <= asked.1 * self@.width ==> out.unwrap().width
                    == asked.0
                &&& asked.1 * self@.width <= asked.0 * self@.height ==> out.unwrap().height
                    == asked.1
                &&& !self@.resize.unwrap().preserve_aspect_ratio ==> out.unwrap().width
                    == asked.0 && out.unwrap().height == asked.1
            },
    {
        let resize: ResizeCommand = match self.resize {
            Some(resize) => resize,
            None => {
                return Some(self);
            },
        };
        if (resize.width == ResizeParameter::Auto && resize.height == ResizeParameter::Auto)
            || self.height == 0 || self.width == 0 {
            return Some(self);
        }
        let ghost g = self@;
        let total: usize = self.pixels.len();
        if self.width > u32::MAX as usize || self.height > u32::MAX as usize {
            return None;
        }
        let old_width: u32 = self.width as u32;
        let old_height: u32 = self.height as u32;
        let w0: u128 = requested_pixels(resize.width, cell_width, view_width);
        let h0: u128 = requested_pixels(resize.height, cell_height, view_height);
        if w0 == 0 || h0 == 0 {
            return None;
        }
        // Compute "auto" dimensions.
        let w1: u128 = if resize.width == ResizeParameter::Auto {
            scaled(old_width, h0, old_height)
        } else {
            w0
        };
        let h1: u128 = if resize.height == ResizeParameter::Auto {
            scaled(old_height, w1, old_width)
        } else {
            h0
        };
        if w1 == 0 || h1 == 0 {
            return None;
        }
        // Limit size to MAX_GRAPHIC_DIMENSIONS.
        let width: u32 = limit(w1, MAX_GRAPHIC_DIMENSIONS.0);
        let height: u32 = limit(h1, MAX_GRAPHIC_DIMENSIONS.1);
        proof {
            assert(16 * old_width * height <= 16 * 0x1_0000_0000 * 4096) by (nonlinear_arith)
                requires
                    0 <= old_width < 0x1_0000_0000,
                    0 <= height <= 4096,
            ;
        }
        if 16 * (old_width as u128) * (height as u128) > isize::MAX as u128 {
            return None;
        }
        let bpp: usize = self.color_type.bytes_per_pixel();
        proof {
            assert(old_width * bpp <= 0x1_0000_0000 * 4) by (nonlinear_arith)
                requires
                    0 <= old_width < 0x1_0000_0000,
                    0 <= bpp <= 4,
            ;
            assert(old_height * (old_width * bpp) <= 0x1_0000_0000 * (0x1_0000_0000 * 4))
                by (nonlinear_arith)
                requires
                    0 <= old_height < 0x1_0000_0000,
                    0 <= old_width * bpp <= 0x1_0000_0000 * 4,
            ;
            assert(old_width * old_height * bpp == old_height * (old_width * bpp))
                by (nonlinear_arith);
        }
        let length: u128 = old_height as u128 * (old_width as u128 * bpp as u128);
        if length > total as u128 {
            return None;
        }
        let mut pixels: Vec<u8> = self.pixels;
        pixels.truncate(length as usize);
        // Finally, resize within the sizes asked for, or to them.
        let raster: Option<Raster> = match self.color_type {
            ColorType::RGB => if resize.preserve_aspect_ratio {
                resize_fit_rgb(old_width, old_height, pixels, width, height)
            } else {
                resize_exact_rgb(old_width, old_height, pixels, width, height)
            },
            ColorType::RGBA => if resize.preserve_aspect_ratio {
                resize_fit_rgba(old_width, old_height, pixels, width, height)
            } else {
                resize_exact_rgba(old_width, old_height, pixels, width, height)
            },
        };
        match raster {
            Some(raster) => {
                proof {
                    assert(raster.height * (raster.width * bpp) == raster.width * raster.height
                        * bpp) by (nonlinear_arith);
                }
                Some(
                    GraphicData {
                        id: self.id,
                        column: self.column,
                        line: self.line,
                        width: raster.width as usize,
                        height: raster.height as usize,
                        color_type: self.color_type,
                        pixels: raster.pixels,
                        resize: None,
                    },
                )
            },
            None => None,
        }
    }
}

} // verus!
