//! What this crate takes from the `image` and `base64` crates, and from the
//! UTF-8 validation of the standard library.
//!
//! The functions here call into those crates. Verus does not read their
//! bodies: what their contracts state is taken from the sources and the
//! documentation of the crates, and is not proved.

use vstd::prelude::*;
use vstd::string::StringSliceAdditionalSpecFns;
use crate::graphics::ColorType;

verus! {

#[verifier::external_type_specification]
#[verifier::external_body]
pub struct ExDynamicImage(image::DynamicImage);

#[verifier::external_type_specification]
#[verifier::external_body]
pub struct ExImageError(image::ImageError);

#[verifier::external_type_specification]
#[verifier::external_body]
pub struct ExDecodeError(base64::DecodeError);

/// Rows of pixels of 8-bit channels, as the `image` crate hands them out.
#[derive(Clone, Debug, PartialEq, Eq)]
pub struct Raster {
    /// Width in pixels.
    pub width: u32,
    /// Height in pixels.
    pub height: u32,
    /// Bytes of the pixels, row after row from the top.
    pub pixels: Vec<u8>,
}

/// The layouts of pixels that an `image::DynamicImage` is told apart by.
#[derive(Clone, Copy, Debug, PartialEq, Eq, Structural)]
pub enum PixelLayout {
    /// Three 8-bit channels: red, green, blue.
    Rgb8,
    /// Four 8-bit channels: red, green, blue, alpha.
    Rgba8,
    /// Any other layout.
    Other,
}

/// `image::load_from_memory` guesses the format of an image file from its
/// first bytes and decodes it. Nothing is stated of what it returns: a decoder
/// may start threads, and fail where none can be had.
pub assume_specification[ image::load_from_memory ](buffer: &[u8]) -> (loaded: image::ImageResult<
    image::DynamicImage,
>)
;

/// The layout that `image` has, among those that `PixelLayout` tells apart.
pub uninterp spec fn image_layout(image: image::DynamicImage) -> PixelLayout;

/// The sizes and the buffer of the `ImageBuffer` that `DynamicImage::into_rgb8`
/// gives for `image`.
pub uninterp spec fn rgb8_raster(image: image::DynamicImage) -> (u32, u32, Seq<u8>);

/// The sizes and the buffer of the `ImageBuffer` that `DynamicImage::into_rgba8`
/// gives for `image`.
pub uninterp spec fn rgba8_raster(image: image::DynamicImage) -> (u32, u32, Seq<u8>);

/// Tells the variants `ImageRgb8` and `ImageRgba8` of `image::DynamicImage`
/// from one another and from the others. Stated here: the variant depends on
/// the image alone.
#[verifier::external_body]
pub(crate) fn pixel_layout(image: &image::DynamicImage) -> (layout: PixelLayout)
    ensures
        layout == image_layout(*image),
{
    match image {
        image::DynamicImage::ImageRgb8(_) => PixelLayout::Rgb8,
        image::DynamicImage::ImageRgba8(_) => PixelLayout::Rgba8,
        _ => PixelLayout::Other,
    }
}

/// `DynamicImage::into_rgb8` gives an `ImageBuffer` of 3 bytes per pixel: the
/// image itself where it has that layout, a converted copy otherwise. Stated
/// here: its sizes and bytes depend on the image alone; the buffer of an
/// `ImageBuffer` is at least as long as its pixels take, which every
/// constructor of `ImageBuffer` checks.
#[verifier::external_body]
pub(crate) fn into_rgb8(image: image::DynamicImage) -> (raster: Raster)
    ensures
        (raster.width, raster.height, raster.pixels@) == rgb8_raster(image),
        raster.width * raster.height * 3 <= raster.pixels@.len(),
{
    let buffer = image.into_rgb8();
    Raster { width: buffer.width(), height: buffer.height(), pixels: buffer.into_raw() }
}

/// `DynamicImage::into_rgba8` gives an `ImageBuffer` of 4 bytes per pixel: the
/// image itself where it has that layout, a converted copy otherwise. Stated
/// here: its sizes and bytes depend on the image alone; the buffer of an
/// `ImageBuffer` is at least as long as its pixels take, which every
/// constructor of `ImageBuffer` checks.
#[verifier::external_body]
pub(crate) fn into_rgba8(image: image::DynamicImage) -> (raster: Raster)
    ensures
        (raster.width, raster.height, raster.pixels@) == rgba8_raster(image),
        raster.width * raster.height * 4 <= raster.pixels@.len(),
{
    let buffer = image.into_rgba8();
    Raster { width: buffer.width(), height: buffer.height(), pixels: buffer.into_raw() }
}

/// The sizes for which a resize with the `image` crate allocates buffers that
/// a `Vec` can hold: no side is empty, the new sides are at most 4096 pixels,
/// and so is left room for the buffer in between, which has the old width, the
/// new height and 16 bytes per pixel.
pub open spec fn can_resample(width: u32, height: u32, nwidth: u32, nheight: u32) -> bool {
    &&& width > 0
    &&& height > 0
    &&& 0 < nwidth <= 4096
    &&& 0 < nheight <= 4096
    &&& 16 * width * nheight <= isize::MAX
}

/// The bytes that `DynamicImage::resize_exact` gives with the filter
/// `Triangle` for an image of 8-bit channels of the sizes `width` and `height`
/// with the bytes `pixels`, resized to `nwidth` and `nheight`.
pub uninterp spec fn stretched(
    color_type: ColorType,
    width: u32,
    height: u32,
    pixels: Seq<u8>,
    nwidth: u32,
    nheight: u32,
) -> Seq<u8>;

/// The sizes and the bytes that `DynamicImage::resize` gives with the filter
/// `Triangle` for an image of 8-bit channels of the sizes `width` and `height`
/// with the bytes `pixels`, resized to fit within `nwidth` and `nheight`.
pub uninterp spec fn fitted(
    color_type: ColorType,
    width: u32,
    height: u32,
    pixels: Seq<u8>,
    nwidth: u32,
    nheight: u32,
) -> (u32, u32, Seq<u8>);

/// `DynamicImage::resize_exact` with the filter `Triangle`, on an image of 3
/// bytes per pixel built with `ImageBuffer::from_raw` from a buffer that holds
/// exactly its pixels. Stated here: `from_raw` takes such a buffer; the new
/// image has the sizes asked for, the layout of the old one and a buffer that
/// holds exactly its pixels; its bytes depend on the arguments alone.
#[verifier::external_body]
pub(crate) fn resize_exact_rgb(width: u32, height: u32, pixels: Vec<u8>, nwidth: u32, nheight: u32)
    -> (out: Option<Raster>)
    requires
        can_resample(width, height, nwidth, nheight),
        pixels@.len() == width * height * 3,
    ensures
        out.is_some(),
        out.unwrap().width == nwidth,
        out.unwrap().height == nheight,
        out.unwrap().pixels@ == stretched(ColorType::RGB, width, height, pixels@, nwidth, nheight),
        out.unwrap().pixels@.len() == nwidth * nheight * 3,
{
    let source = image::RgbImage::from_raw(width, height, pixels)?;
    let source = image::DynamicImage::ImageRgb8(source);
    let image = source.resize_exact(nwidth, nheight, image::imageops::FilterType::Triangle);
    let (width, height) = (image.width(), image.height());
    Some(Raster { width, height, pixels: image.into_rgb8().into_raw() })
}

/// `DynamicImage::resize_exact` with the filter `Triangle`, on an image of 4
/// bytes per pixel built with `ImageBuffer::from_raw` from a buffer that holds
/// exactly its pixels. Stated here: `from_raw` takes such a buffer; the new
/// image has the sizes asked for, the layout of the old one and a buffer that
/// holds exactly its pixels; its bytes depend on the arguments alone.
#[verifier::external_body]
pub(crate) fn resize_exact_rgba(width: u32, height: u32, pixels: Vec<u8>, nwidth: u32, nheight: u32)
    -> (out: Option<Raster>)
    requires
        can_resample(width, height, nwidth, nheight),
        pixels@.len() == width * height * 4,
    ensures
        out.is_some(),
        out.unwrap().width == nwidth,
        out.unwrap().height == nheight,
        out.unwrap().pixels@ == stretched(ColorType::RGBA, width, height, pixels@, nwidth, nheight),
        out.unwrap().pixels@.len() == nwidth * nheight * 4,
{
    let source = image::RgbaImage::from_raw(width, height, pixels)?;
    let source = image::DynamicImage::ImageRgba8(source);
    let image = source.resize_exact(nwidth, nheight, image::imageops::FilterType::Triangle);
    let (width, height) = (image.width(), image.height());
    Some(Raster { width, height, pixels: image.into_rgba8().into_raw() })
}

/// `DynamicImage::resize` with the filter `Triangle`, on an image of 3 bytes
/// per pixel built with `ImageBuffer::from_raw` from a buffer that holds
/// exactly its pixels. Stated here: `from_raw` takes such a buffer; the new
/// image fits within the sizes asked for, as the documentation says; it is as
/// wide as asked for where the width is asked to grow by no more than the
/// height, and as high as asked for where the height is asked to grow by no
/// more than the width, since both sides are scaled by the smaller of the two
/// ratios and the side with that ratio is rounded to what was asked for; it
/// has no empty side, the layout of the old one and a buffer that holds
/// exactly its pixels; its sizes and bytes depend on the arguments alone.
#[verifier::external_body]
pub(crate) fn resize_fit_rgb(width: u32, height: u32, pixels: Vec<u8>, nwidth: u32, nheight: u32)
    -> (out: Option<Raster>)
    requires
        can_resample(width, height, nwidth, nheight),
        pixels@.len() == width * height * 3,
    ensures
        out.is_some(),
        (out.unwrap().width, out.unwrap().height, out.unwrap().pixels@) == fitted(
            ColorType::RGB,
            width,
            height,
            pixels@,
            nwidth,
            nheight,
        ),
        0 < out.unwrap().width <= nwidth,
        0 < out.unwrap().height <= nheight,
        nwidth * height <= nheight * width ==> out.unwrap().width == nwidth,
        nheight * width <= nwidth * height ==> out.unwrap().height == nheight,
        out.unwrap().pixels@.len() == out.unwrap().width * out.unwrap().height * 3,
{
    let source = image::RgbImage::from_raw(width, height, pixels)?;
    let source = image::DynamicImage::ImageRgb8(source);
    let image = source.resize(nwidth, nheight, image::imageops::FilterType::Triangle);
    let (width, height) = (image.width(), image.height());
    Some(Raster { width, height, pixels: image.into_rgb8().into_raw() })
}

/// `DynamicImage::resize` with the filter `Triangle`, on an image of 4 bytes
/// per pixel built with `ImageBuffer::from_raw` from a buffer that holds
/// exactly its pixels. Stated here: `from_raw` takes such a buffer; the new
/// image fits within the sizes asked for, as the documentation says; it is as
/// wide as asked for where the width is asked to grow by no more than the
/// height, and as high as asked for where the height is asked to grow by no
/// more than the width, since both sides are scaled by the smaller of the two
/// ratios and the side with that ratio is rounded to what was asked for; it
/// has no empty side, the layout of the old one and a buffer that holds
/// exactly its pixels; its sizes and bytes depend on the arguments alone.
#[verifier::external_body]
pub(crate) fn resize_fit_rgba(width: u32, height: u32, pixels: Vec<u8>, nwidth: u32, nheight: u32)
    -> (out: Option<Raster>)
    requires
        can_resample(width, height, nwidth, nheight),
        pixels@.len() == width * height * 4,
    ensures
        out.is_some(),
        (out.unwrap().width, out.unwrap().height, out.unwrap().pixels@) == fitted(
            ColorType::RGBA,
            width,
            height,
            pixels@,
            nwidth,
            nheight,
        ),
        0 < out.unwrap().width <= nwidth,
        0 < out.unwrap().height <= nheight,
        nwidth * height <= nheight * width ==> out.unwrap().width == nwidth,
        nheight * width <= nwidth * height ==> out.unwrap().height == nheight,
        out.unwrap().pixels@.len() == out.unwrap().width * out.unwrap().height * 4,
{
    let source = image::RgbaImage::from_raw(width, height, pixels)?;
    let source = image::DynamicImage::ImageRgba8(source);
    let image = source.resize(nwidth, nheight, image::imageops::FilterType::Triangle);
    let (width, height) = (image.width(), image.height());
    Some(Raster { width, height, pixels: image.into_rgba8().into_raw() })
}

/// The bytes that `base64::decode` gives for `input`, where it takes it.
pub uninterp spec fn base64_decoded(input: Seq<u8>) -> Option<Seq<u8>>;

/// `base64::decode`: the standard alphabet, with padding. Stated here: whether
/// it takes the input, and what it gives, depend on the input alone.
#[verifier::external_body]
pub(crate) fn decode_base64(input: &[u8]) -> (decoded: Result<Vec<u8>, base64::DecodeError>)
    ensures
        decoded.is_ok() == base64_decoded(input@).is_some(),
        decoded.is_ok() ==> base64_decoded(input@) == Some(decoded.unwrap()@),
{
    base64::decode(input)
}

/// `std::str::from_utf8`: the bytes as a string, if they are the UTF-8
/// encoding of one.
#[verifier::external_body]
pub(crate) fn text_of<'a>(bytes: &'a [u8]) -> (text: Option<&'a str>)
    ensures
        text.is_some() == vstd::utf8::valid_utf8(bytes@),
        text.is_some() ==> text.unwrap().spec_bytes() == bytes@,
{
    match std::str::from_utf8(bytes) {
        Ok(text) => Some(text),
        Err(_) => None,
    }
}

} // verus!
