//! The data carried by a graphic on its way from the escape-sequence parser
//! to the display.

use vstd::prelude::*;

verus! {

/// Max allowed dimensions (width, height) for the graphic, in pixels.
pub const MAX_GRAPHIC_DIMENSIONS: (usize, usize) = (4096, 4096);

/// Unique identifier for every graphic added to a grid.
#[derive(Clone, Copy, Debug, PartialEq, Eq, Structural)]
pub struct GraphicId(pub u64);

/// A color of the shared palette.
#[derive(Clone, Copy, Debug, PartialEq, Eq, Structural)]
pub struct Rgb {
    pub r: u8,
    pub g: u8,
    pub b: u8,
}

/// Specifies the format of the pixel data.
#[derive(Clone, Copy, Debug, PartialEq, Eq, Structural)]
pub enum ColorType {
    /// 3 bytes per pixel (red, green, blue).
    RGB,
    /// 4 bytes per pixel (red, green, blue, alpha).
    RGBA,
}

impl ColorType {
    /// Number of bytes that one pixel takes.
    pub open spec fn spec_bytes_per_pixel(&self) -> usize {
        match *self {
            ColorType::RGB => 3,
            ColorType::RGBA => 4,
        }
    }

    /// Number of bytes to define a single pixel.
    #[verifier::when_used_as_spec(spec_bytes_per_pixel)]
    pub fn bytes_per_pixel(&self) -> (n: usize)
        ensures
            n == self.spec_bytes_per_pixel(),
    {
        match *self {
            ColorType::RGB => 3,
            ColorType::RGBA => 4,
        }
    }
}

/// Unit to specify a dimension to resize the graphic.
#[derive(Clone, Copy, Debug, PartialEq, Eq, Structural)]
pub enum ResizeParameter {
    /// Dimension is computed from the original graphic dimensions.
    Auto,
    /// Size is specified in number of grid cells.
    Cells(u32),
    /// Size is specified in number pixels.
    Pixels(u32),
    /// Size is specified in a percent of the window.
    WindowPercent(u32),
}

/// Dimensions to resize a graphic.
#[derive(Clone, Copy, Debug, PartialEq, Eq, Structural)]
pub struct ResizeCommand {
    pub width: ResizeParameter,
    pub height: ResizeParameter,
    pub preserve_aspect_ratio: bool,
}

/// Defines a single graphic read from the PTY.
#[derive(Clone, Debug, PartialEq, Eq)]
pub struct GraphicData {
    /// Graphics identifier.
    pub id: GraphicId,
    /// Column of the grid where the left side of the graphic is.
    pub column: usize,
    /// Row of the grid where the top side of the graphic is.
    pub line: i64,
    /// Width, in pixels, of the graphic.
    pub width: usize,
    /// Height, in pixels, of the graphic.
    pub height: usize,
    /// Color type of the pixels.
    pub color_type: ColorType,
    /// Pixels data, row after row from the top.
    pub pixels: Vec<u8>,
    /// Render graphic in a different size.
    pub resize: Option<ResizeCommand>,
}

/// What a [`GraphicData`] holds, with its pixels as a sequence of bytes.
pub struct GraphicDataView {
    pub id: GraphicId,
    pub column: usize,
    pub line: i64,
    pub width: usize,
    pub height: usize,
    pub color_type: ColorType,
    pub pixels: Seq<u8>,
    pub resize: Option<ResizeCommand>,
}

impl View for GraphicData {
    type V = GraphicDataView;

    open spec fn view(&self) -> GraphicDataView {
        GraphicDataView {
            id: self.id,
            column: self.column,
            line: self.line,
            width: self.width,
            height: self.height,
            color_type: self.color_type,
            pixels: self.pixels@,
            resize: self.resize,
        }
    }
}

/// Number of bytes that `height` rows of `width` pixels take.
pub open spec fn buffer_size(color_type: ColorType, width: int, height: int) -> int {
    height * (width * color_type.spec_bytes_per_pixel())
}

impl GraphicDataView {
    /// Number of bytes in one row of pixels.
    pub open spec fn stride(self) -> int {
        self.width * self.color_type.spec_bytes_per_pixel()
    }

    /// The buffer holds exactly `height` rows of `width` pixels.
    pub open spec fn wf(self) -> bool {
        self.pixels.len() == self.height * self.stride()
    }
}

impl ColorType {
    /// Number of bytes that `height` rows of `width` pixels take, or `None`
    /// if they are more than can be counted.
    pub fn buffer_size(&self, width: usize, height: usize) -> (size: Option<usize>)
        ensures
            size.is_some() == (buffer_size(*self, width as int, height as int) <= usize::MAX),
            size.is_some() ==> size.unwrap() == buffer_size(*self, width as int, height as int),
    {
        let ghost row = width * self.spec_bytes_per_pixel();
        match width.checked_mul(self.bytes_per_pixel()) {
            Some(stride) => height.checked_mul(stride),
            None => {
                proof {
                    if height > 0 {
                        assert(height * row >= row) by (nonlinear_arith)
                            requires
                                height >= 1,
                                row >= 0,
                        ;
                    } else {
                        assert(height * row == 0) by (nonlinear_arith)
                            requires
                                height == 0,
                        ;
                    }
                }
                if height == 0 {
                    Some(0)
                } else {
                    None
                }
            },
        }
    }
}

impl GraphicData {
    /// Whether the buffer holds exactly the pixels of the graphic.
    pub fn is_complete(&self) -> (complete: bool)
        ensures
            complete == self@.wf(),
    {
        let length: usize = self.pixels.len();
        match self.color_type.buffer_size(self.width, self.height) {
            Some(size) => size == length,
            None => false,
        }
    }
}

impl GraphicData {
    /// A graphic of the sizes given whose pixels are all zero, with its top
    /// left corner in the cell at `column` and `line`.
    pub fn with_size(
        color_type: ColorType,
        column: usize,
        line: i64,
        width: usize,
        height: usize,
    ) -> (graphic: GraphicData)
        requires
            height * (width * color_type.spec_bytes_per_pixel()) <= usize::MAX,
        ensures
            graphic@.wf(),
            graphic.id == GraphicId(0),
            graphic.column == column,
            graphic.line == line,
            graphic.width == width,
            graphic.height == height,
            graphic.color_type == color_type,
            graphic.resize.is_none(),
            forall|i: int| 0 <= i < graphic.pixels@.len() ==> graphic.pixels@[i] == 0,
    {
        let bpp: usize = color_type.bytes_per_pixel();
        proof {
            if height > 0 {
                assert(width * bpp <= height * (width * bpp)) by (nonlinear_arith)
                    requires
                        height >= 1,
                        width * bpp >= 0,
                ;
            }
        }
        let length: usize = if height == 0 {
            0
        } else {
            height * (width * bpp)
        };
        let pixels: Vec<u8> = vec![0u8; length];
        GraphicData {
            id: GraphicId(0),
            column,
            line,
            width,
            height,
            color_type,
            pixels,
            resize: None,
        }
    }
}

} // verus!
