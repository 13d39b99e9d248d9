//! The commands that the display executes to bring the GPU up to date with
//! the grid.
//!
//! They are made while the grid is locked, and executed in their order once
//! the lock is released.

use vstd::prelude::*;
use crate::attachments::GraphicItem;
use crate::graphics::{ColorType, GraphicData, GraphicDataView};

verus! {

/// What is needed to move the pixels of a texture to a new, larger one.
#[derive(Clone, Copy, Debug, PartialEq, Eq, Structural)]
pub struct ResizeTextureData {
    /// Texture that receives the pixels.
    pub target_texture: u32,
    /// Graphic whose texture gives the pixels, and is released afterwards.
    pub source: GraphicItem,
    /// Pixels between the left side of the new texture and that of the old one.
    pub source_offset: usize,
    /// Width in pixels of the new texture.
    pub width: usize,
    /// Height in pixels of the new texture.
    pub height: usize,
}

/// Pixels to copy into a region of a texture.
#[derive(Clone, Debug, PartialEq, Eq)]
pub struct BlitGraphicData {
    /// Texture that receives the pixels.
    pub texture: u32,
    /// Pixels between the left side of the texture and that of the region.
    pub offset_x: usize,
    /// Pixels between the top side of the texture and that of the region.
    pub offset_y: usize,
    /// Width in pixels of the region.
    pub width: usize,
    /// Height in pixels of the region.
    pub height: usize,
    /// Color type of the pixels.
    pub color_type: ColorType,
    /// Pixels data, row after row from the top.
    pub pixels: Vec<u8>,
}

/// What a [`BlitGraphicData`] holds, with its pixels as a sequence of bytes.
pub struct BlitGraphicView {
    pub texture: u32,
    pub offset_x: usize,
    pub offset_y: usize,
    pub width: usize,
    pub height: usize,
    pub color_type: ColorType,
    pub pixels: Seq<u8>,
}

impl View for BlitGraphicData {
    type V = BlitGraphicView;

    open spec fn view(&self) -> BlitGraphicView {
        BlitGraphicView {
            texture: self.texture,
            offset_x: self.offset_x,
            offset_y: self.offset_y,
            width: self.width,
            height: self.height,
            color_type: self.color_type,
            pixels: self.pixels@,
        }
    }
}

/// Corner of a graphic that a vertex stands for.
#[derive(Clone, Copy, Debug, PartialEq, Eq, Structural)]
pub enum VertexSide {
    TopLeft,
    TopRight,
    BottomLeft,
    BottomRight,
}

/// One corner of one of the two triangles that show a graphic.
#[derive(Clone, Copy, Debug, PartialEq, Eq, Structural)]
pub struct Vertex {
    /// Texture with the pixels of the graphic.
    pub texture_id: u32,
    /// Corner of the graphic.
    pub sides: VertexSide,
    /// Column of the grid where the left side of the graphic is.
    pub column: usize,
    /// Row of the grid where the top side of the graphic is.
    pub graphics_line: i64,
    /// Height in pixels of the graphic.
    pub height: usize,
    /// Width in pixels of the graphic.
    pub width: usize,
    /// Cell height at the moment the graphic was created.
    pub base_cell_height: usize,
}

/// The graphics to draw in the viewport.
#[derive(Clone, Debug, PartialEq, Eq)]
pub struct RenderData {
    /// Six vertices for each graphic.
    pub vertices: Vec<Vertex>,
    /// Row of the grid that the first line of the viewport shows.
    pub graphics_line_offset: i64,
    /// Width of the grid, in pixels.
    pub view_width: usize,
    /// Height of the grid, in pixels.
    pub view_height: usize,
    /// Width of one cell, in pixels.
    pub cell_width: usize,
    /// Height of one cell, in pixels.
    pub cell_height: usize,
}

/// What a [`RenderData`] holds, with its vertices as a sequence.
pub struct RenderView {
    pub vertices: Seq<Vertex>,
    pub graphics_line_offset: i64,
    pub view_width: usize,
    pub view_height: usize,
    pub cell_width: usize,
    pub cell_height: usize,
}

impl View for RenderData {
    type V = RenderView;

    open spec fn view(&self) -> RenderView {
        RenderView {
            vertices: self.vertices@,
            graphics_line_offset: self.graphics_line_offset,
            view_width: self.view_width,
            view_height: self.view_height,
            cell_width: self.cell_width,
            cell_height: self.cell_height,
        }
    }
}

/// A step for the display to execute.
#[derive(Clone, Debug, PartialEq, Eq)]
pub enum GraphicsCommand {
    /// Release the textures of graphics that left the grid.
    DeleteTextures(Vec<u32>),
    /// Give a texture the size of a graphic, and the pixels of it.
    InitTexture(u32, GraphicData),
    /// Give a texture a new size and the pixels of another, which is released.
    ResizeTexture(ResizeTextureData),
    /// Copy pixels into a region of a texture, and leave the rest of it as it is.
    BlitGraphic(BlitGraphicData),
    /// Draw the graphics that the viewport shows.
    Render(RenderData),
}

/// What a [`GraphicsCommand`] holds, with sequences for its buffers.
pub enum CommandView {
    DeleteTextures(Seq<u32>),
    InitTexture(u32, GraphicDataView),
    ResizeTexture(ResizeTextureData),
    BlitGraphic(BlitGraphicView),
    Render(RenderView),
}

impl View for GraphicsCommand {
    type V = CommandView;

    open spec fn view(&self) -> CommandView {
        match *self {
            GraphicsCommand::DeleteTextures(textures) => CommandView::DeleteTextures(textures@),
            GraphicsCommand::InitTexture(texture, graphic) => CommandView::InitTexture(
                texture,
                graphic@,
            ),
            GraphicsCommand::ResizeTexture(data) => CommandView::ResizeTexture(data),
            GraphicsCommand::BlitGraphic(data) => CommandView::BlitGraphic(data@),
            GraphicsCommand::Render(data) => CommandView::Render(data@),
        }
    }
}

/// What a batch of commands holds, command by command.
pub open spec fn batch(commands: Seq<GraphicsCommand>) -> Seq<CommandView> {
    commands.map_values(|c: GraphicsCommand| c@)
}

/// A command added at the end of a batch is added at the end of what it holds.
pub proof fn lemma_batch_push(commands: Seq<GraphicsCommand>, command: GraphicsCommand)
    ensures
        batch(commands.push(command)) == batch(commands).push(command@),
{
    assert(batch(commands.push(command)) =~= batch(commands).push(command@));
}

} // verus!
