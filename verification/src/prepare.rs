//! Functions to create graphics commands in the *prepare* phase.
//!
//! The grid is locked while they run. They reserve textures and update the
//! graphics attached to the grid, and leave every transfer of pixels to the
//! commands that they emit.

use vstd::prelude::*;
use crate::attach::{
    attach, can_attach, can_go, continues, copy_commands, goes, issued_with,
    lemma_attach_prefix, lemma_continues_above, lemma_continues_across, lemma_continues_start,
    lemma_cut, lemma_finish_empty, lemma_finish_free, lemma_finish_inside, lemma_go_above,
    lemma_go_across, lemma_go_into, lemma_made_by_add, lemma_made_by_push,
    lemma_rows_positive, lemma_target, made_by, need_resize, resize_of, space, surface_bounds,
    target, widened, Attached,
};
use crate::attachments::{
    lemma_reach, ordered, reach, Attachment, GraphicItem, TextureName,
};
use crate::command::{
    batch, lemma_batch_push, BlitGraphicData, CommandView, GraphicsCommand, RenderData,
    RenderView, ResizeTextureData, Vertex, VertexSide,
};
use crate::geometry::{rows_of, SizeInfo};
use crate::graphics::{GraphicData, GraphicDataView};
use crate::resize::resized_view;
use crate::store::{views, visible_end, visible_start, Graphics, LineRange};

verus! {

broadcast use vstd::function::group_function_axioms;

/// The textures of `items`, in their order.
pub open spec fn textures_of(items: Seq<GraphicItem>) -> Seq<u32> {
    items.map_values(|item: GraphicItem| item.texture.0)
}

/// Take the graphic items in the `removed` queue and prepare a
/// `DeleteTextures` command to release their resources.
pub fn delete(items: Vec<GraphicItem>) -> (command: GraphicsCommand)
    ensures
        command@ == CommandView::DeleteTextures(textures_of(items@)),
{
    let mut textures: Vec<u32> = Vec::with_capacity(items.len());
    let mut i: usize = 0;
    while i < items.len()
        invariant
            i <= items@.len(),
            textures@ == textures_of(items@.subrange(0, i as int)),
        decreases items@.len() - i,
    {
        textures.push(items[i].texture.0);
        proof {
            assert(textures@ =~= textures_of(items@.subrange(0, i + 1)));
        }
        i = i + 1;
    }
    proof {
        assert(items@.subrange(0, items@.len() as int) =~= items@);
    }
    GraphicsCommand::DeleteTextures(textures)
}

/// `after` and `emitted` are what `attach` gives for `g` on a grid with the
/// graphics `s`, when the textures that it takes are `textures`.
pub open spec fn attached(
    s: Seq<Attachment>,
    size: SizeInfo,
    g: GraphicDataView,
    textures: Seq<u32>,
    after: Seq<Attachment>,
    emitted: Seq<CommandView>,
) -> bool {
    let outcome = attach(s, size, g, textures);
    &&& outcome.textures == textures.len()
    &&& outcome.entries == after
    &&& outcome.commands == emitted
}

/// Whether `graphic` can be attached to `graphics` on a grid with cells of the
/// sizes in `size_info`.
///
/// It can where the cells have a size, its buffer holds its pixels, and its
/// last row, its right side and the sizes of the graphics that it meets can be
/// computed. On a grid whose cells kept their height nothing else is asked.
/// A texture that was made for cells of another height is in the way of a
/// graphic where the grid has no place for rows of pixels of it: where one of
/// its rows starts below the last row of pixels of such a texture, where the
/// rows above a graphic take more rows of pixels than are left of it, and
/// where rows of pixels are left of it at a graphic that ends on its last row
/// or below.
pub fn attachable(graphics: &Graphics, size_info: &SizeInfo, graphic: &GraphicData) -> (yes: bool)
    requires
        graphics.wf(),
    ensures
        yes == can_attach(graphics.attachments@, *size_info, graphic@),
{
    if !size_info.is_usable() || !graphic.is_complete() {
        return false;
    }
    if graphic.width == 0 || graphic.height == 0 {
        return true;
    }
    let cell_height: usize = size_info.cell_height;
    let rows: usize = rows_of(graphic.height, cell_height);
    let bottom: i128 = graphic.line as i128 + rows as i128 - 1;
    if bottom > i64::MAX as i128 {
        return false;
    }
    let right: usize = match size_info.cell_width.checked_mul(graphic.column) {
        Some(left) => match left.checked_add(graphic.width) {
            Some(right) => right,
            None => {
                return false;
            },
        },
        None => {
            return false;
        },
    };
    let ghost s = graphics.attachments@;
    let ghost g = graphic@;
    let ghost size = *size_info;
    let first: usize = graphics.attachments.first_reaching(graphic.line);
    let mut i: usize = first;
    proof {
        lemma_reach(s, g.line as int);
        lemma_rows_positive(g, size);
    }
    // The sizes of the graphics that it meets.
    while i < graphics.attachments.len() && graphics.attachments.entry(i).line as i128 <= bottom
        invariant
            size == *size_info,
            size.wf(),
            ordered(s),
            s == graphics.attachments@,
            g == graphic@,
            g.height > 0,
            g.width > 0,
            bottom == g.bottom(size),
            first == reach(s, g.line as int),
            first <= i <= s.len(),
            forall|j: int| 0 <= j < first ==> (#[trigger] s[j]).item.bottom < g.line,
            forall|j: int| first <= j < s.len() ==> (#[trigger] s[j]).item.bottom >= g.line,
            forall|j: int| first <= j < i ==> surface_bounds(#[trigger] s[j], size),
        decreases s.len() - i,
    {
        let a: Attachment = graphics.attachments.entry(i);
        if !surface_measures(&a, size_info) {
            proof {
                assert(s[i as int].meets(g.line as int, g.bottom(size)));
            }
            return false;
        }
        i = i + 1;
    }
    proof {
        assert forall|j: int|
            0 <= j < s.len() && (#[trigger] s[j]).meets(
                g.line as int,
                g.bottom(size),
            ) implies surface_bounds(s[j], size) by {
            if j > i {
                assert(s[i as int].item.bottom < s[j].line);
                assert(s[i as int].line <= s[i as int].item.bottom);
            }
        }
    }
    // The way of its rows of pixels down the graphics that it meets.
    let mut j: usize = first;
    let mut line: i64 = graphic.line;
    let mut left: usize = graphic.height;
    let ghost mut rest: GraphicDataView = g;
    proof {
        assert(g.wf());
    }
    while j < graphics.attachments.len() && graphics.attachments.entry(j).line as i128 <= bottom
        invariant
            size == *size_info,
            size.wf(),
            cell_height == size.cell_height,
            ordered(s),
            s == graphics.attachments@,
            first <= j <= s.len(),
            first == reach(s, g.line as int),
            g == graphic@,
            g.wf(),
            g.width > 0,
            g.height > 0,
            bottom == g.bottom(size),
            forall|k: int|
                0 <= k < s.len() && (#[trigger] s[k]).meets(g.line as int, bottom as int)
                    ==> surface_bounds(s[k], size),
            bottom <= i64::MAX,
            right == g.right(size),
            rest.column == g.column,
            rest.width == g.width,
            g.line <= line,
            rest.line == line,
            rest.height == left,
            left > 0,
            line <= bottom,
            j < s.len() ==> s[j as int].item.bottom >= line,
            goes(s.skip(first as int), size, g, bottom as int) == goes(
                s.skip(j as int),
                size,
                rest,
                bottom as int,
            ),
        decreases s.len() - j,
    {
        let a: Attachment = graphics.attachments.entry(j);
        let ghost here = s.skip(j as int);
        proof {
            assert(here[0] == a);
            assert(here.skip(1) =~= s.skip(j + 1));
            assert(a.line <= a.item.bottom);
            assert(a.meets(g.line as int, bottom as int));
        }
        if line < a.line {
            proof {
                assert((a.line - line) * cell_height <= 0xffff_ffff_ffff_ffff
                    * 0xffff_ffff_ffff_ffff) by (nonlinear_arith)
                    requires
                        0 <= a.line - line <= 0xffff_ffff_ffff_ffff,
                        0 <= cell_height <= 0xffff_ffff_ffff_ffff,
                ;
            }
            let above: u128 = (a.line as i128 - line as i128) as u128 * cell_height as u128;
            if above > left as u128 {
                proof {
                    assert(!goes(here, size, rest, bottom as int));
                }
                return false;
            }
            left = left - above as usize;
            line = a.line;
            proof {
                rest = rest.tail(above as int, a.line as int);
            }
            if left == 0 {
                return true;
            }
        }
        let surface_right: usize = size_info.cell_width * a.item.column + a.item.width;
        let resize: bool = a.item.column > graphic.column || surface_right < right
            || a.item.height % cell_height != 0;
        proof {
            assert(resize == need_resize(a.item, size, rest));
        }
        proof {
            assert(a.rows() <= a.rows() * cell_height) by (nonlinear_arith)
                requires
                    a.rows() >= 1,
                    cell_height >= 1,
            ;
            assert((line - a.line) * cell_height <= a.rows() * cell_height) by (nonlinear_arith)
                requires
                    0 <= line - a.line <= a.rows(),
                    cell_height >= 1,
            ;
        }
        let surface_rows: usize = (a.item.bottom as i128 - a.line as i128 + 1) as usize;
        let height: usize = if resize {
            surface_rows * cell_height
        } else {
            a.item.height
        };
        let offset: u128 = (line as i128 - a.line as i128) as u128 * cell_height as u128;
        proof {
            assert(height == target(a, size, rest, 0).height);
        }
        if offset > height as u128 {
            return false;
        }
        let fits: usize = height - offset as usize;
        proof {
            assert(fits == space(a, size, rest));
        }
        if fits >= left {
            return true;
        }
        if a.item.bottom as i128 >= bottom {
            return false;
        }
        left = left - fits;
        line = a.item.bottom + 1;
        proof {
            rest = rest.tail(fits as int, a.item.bottom + 1);
            if j + 1 < s.len() {
                assert(s[j as int].item.bottom < s[j + 1].line);
                assert(s[j + 1].line <= s[j + 1].item.bottom);
            }
        }
        j = j + 1;
    }
    true
}

/// Whether the sizes in pixels of the rows and of the columns of `a` can be
/// computed.
fn surface_measures(a: &Attachment, size_info: &SizeInfo) -> (yes: bool)
    requires
        size_info.wf(),
        a.line <= a.item.bottom,
    ensures
        yes == surface_bounds(*a, *size_info),
{
    let rows: i128 = a.item.bottom as i128 - a.line as i128 + 1;
    if rows > usize::MAX as i128 {
        proof {
            assert(a.rows() * size_info.cell_height >= a.rows()) by (nonlinear_arith)
                requires
                    a.rows() >= 1,
                    size_info.cell_height >= 1,
            ;
        }
        return false;
    }
    if (rows as usize).checked_mul(size_info.cell_height).is_none() {
        return false;
    }
    match size_info.cell_width.checked_mul(a.item.column) {
        Some(left) => left.checked_add(a.item.width).is_some(),
        None => false,
    }
}

/// Attach a new graphic to a grid.
///
/// A graphic that shares no row with another gets a new texture. It is
/// attached to the grid (the `graphics` parameter), and an `InitTexture`
/// command is emitted to upload its pixels in the *draw* phase.
///
/// A graphic that shares rows with others is split. The graphics of the grid
/// that it meets are gone through from the top, and their textures are called
/// _surfaces_ in this function:
///
/// - The rows above a surface become a graphic of their own, as above.
/// - If the new graphic is not within the bounds of the surface, or the
///   surface does not end with the last row of pixels of a cell, a new texture
///   is generated, a `ResizeTexture` command is emitted to fill it, and the
///   graphic of the grid gets the new texture.
/// - A `BlitGraphic` command is emitted to copy the pixels of the shared rows
///   to the surface.
///
/// What is left below the last surface becomes a graphic of its own.
///
/// A surface may have been made for cells of another height. As many rows of
/// pixels as it has below the row where the new graphic starts are copied
/// into it, and what is left goes on below the graphic of the grid, down to
/// the last row of the new graphic. `attachable` tells whether the grid has a
/// place for every row of pixels.
///
/// The textures come from `texture_generator`, which is called once for each
/// of them, in the order in which the commands use them.
pub fn attach_graphics<T>(
    graphics: &mut Graphics,
    size_info: &SizeInfo,
    commands: &mut Vec<GraphicsCommand>,
    new_graphic: GraphicData,
    mut texture_generator: T,
) where T: FnMut() -> u32
    requires
        can_attach(old(graphics).attachments@, *size_info, new_graphic@),
        call_requires(texture_generator, ()),
    ensures
        final(graphics).wf(),
        final(graphics).last_id == old(graphics).last_id,
        final(graphics).base_position == old(graphics).base_position,
        final(graphics).pending == old(graphics).pending,
        final(graphics).removed == old(graphics).removed,
        final(graphics).sixel_shared_palette == old(graphics).sixel_shared_palette,
        exists|textures: Seq<u32>, emitted: Seq<CommandView>|
            {
                &&& made_by(texture_generator, textures)
                &&& batch(final(commands)@) == batch(old(commands)@) + emitted
                &&& #[trigger] attached(
                    old(graphics).attachments@,
                    *size_info,
                    new_graphic@,
                    textures,
                    final(graphics).attachments@,
                    emitted,
                )
            },
{
    attach_with(graphics, size_info, commands, new_graphic, &mut texture_generator);
}

/// Attach a new graphic to a grid, with textures from a generator that is used
/// again afterwards.
///
/// The contract speaks of the generator as of a value that a call does not
/// change, which is how the verifier sees a closure: what is stated of the
/// textures that it gives holds of the calls made here and of later ones
/// alike, and says nothing of the order of the textures.
#[verifier::rlimit(60)]
pub fn attach_with<T>(
    graphics: &mut Graphics,
    size_info: &SizeInfo,
    commands: &mut Vec<GraphicsCommand>,
    new_graphic: GraphicData,
    texture_generator: &mut T,
) where T: FnMut() -> u32
    requires
        can_attach(old(graphics).attachments@, *size_info, new_graphic@),
        call_requires(*old(texture_generator), ()),
    ensures
        *final(texture_generator) == *old(texture_generator),
        final(graphics).wf(),
        final(graphics).last_id == old(graphics).last_id,
        final(graphics).base_position == old(graphics).base_position,
        final(graphics).pending == old(graphics).pending,
        final(graphics).removed == old(graphics).removed,
        final(graphics).sixel_shared_palette == old(graphics).sixel_shared_palette,
        exists|textures: Seq<u32>, emitted: Seq<CommandView>|
            {
                &&& made_by(*old(texture_generator), textures)
                &&& batch(final(commands)@) == batch(old(commands)@) + emitted
                &&& #[trigger] attached(
                    old(graphics).attachments@,
                    *size_info,
                    new_graphic@,
                    textures,
                    final(graphics).attachments@,
                    emitted,
                )
            },
{
    let ghost generator = *texture_generator;
    let ghost s0 = graphics.attachments@;
    let ghost g0 = new_graphic@;
    let ghost c0 = batch(commands@);
    let ghost size = *size_info;
    let ghost mut issued: Seq<u32> = Seq::empty();
    let ghost mut emitted: Seq<CommandView> = Seq::empty();
    if new_graphic.width == 0 || new_graphic.height == 0 {
        proof {
            assert(c0 + emitted =~= c0);
            assert(attached(s0, size, g0, issued, s0, emitted));
        }
        return ;
    }
    let mut graphic = new_graphic;
    // The bytes of the buffer can be counted.
    let length: usize = graphic.pixels.len();
    let cell_width: usize = size_info.cell_width;
    let cell_height: usize = size_info.cell_height;
    let rows: usize = rows_of(graphic.height, cell_height);
    proof {
        lemma_rows_positive(g0, size);
        lemma_continues_start(s0, size, g0);
    }

    // Last line to contain the new graphic.
    let new_graphic_bottom: i64 = (graphic.line as i128 + rows as i128 - 1) as i64;
    let new_graphic_right: usize = cell_width * graphic.column + graphic.width;

    let mut i: usize = graphics.attachments.first_reaching(graphic.line);
    proof {
        assert(c0 + emitted =~= c0);
    }
    let ghost bottom = new_graphic_bottom as int;
    while i < graphics.attachments.len() && graphics.attachments.entry(i).line
        <= new_graphic_bottom
        invariant
            size == *size_info,
            s0 == old(graphics).attachments@,
            g0 == new_graphic@,
            c0 == batch(old(commands)@),
            cell_width == size.cell_width,
            cell_height == size.cell_height,
            *texture_generator == generator,
            generator == *old(texture_generator),
            call_requires(generator, ()),
            made_by(generator, issued),
            graphics.last_id == old(graphics).last_id,
            graphics.base_position == old(graphics).base_position,
            graphics.pending == old(graphics).pending,
            graphics.removed == old(graphics).removed,
            graphics.sixel_shared_palette == old(graphics).sixel_shared_palette,
            bottom == new_graphic_bottom,
            can_go(graphics.attachments@, size, graphic@, bottom),
            graphic@.height > 0,
            graphic@.pixels.len() <= usize::MAX,
            graphic@.right(size) == new_graphic_right,
            i == reach(graphics.attachments@, graphic@.line as int),
            batch(commands@) == c0 + emitted,
            continues(s0, size, g0, issued, emitted, graphics.attachments@, graphic@, bottom),
        decreases bottom - graphic@.line,
    {
        let ghost s = graphics.attachments@;
        let ghost g = graphic@;
        let ghost before = commands@;
        let surface: Attachment = graphics.attachments.entry(i);
        let surface_line: i64 = surface.line;
        proof {
            lemma_reach(s, g.line as int);
        }
        if graphic.line < surface_line {
            // Split the upper region of the new graphic, which lies above
            // the existing texture.
            let upper_lines: usize = (surface_line as i128 - graphic.line as i128) as usize;
            proof {
                lemma_go_above(s, size, g, bottom, 0);
                lemma_cut(g, upper_lines * cell_height, surface_line as int);
            }
            let top: i64 = graphic.line;
            let height: usize = upper_lines * cell_height;
            let mut pixels: Vec<u8> = graphic.pixels.split_off(
                height * graphic.width * graphic.color_type.bytes_per_pixel(),
            );
            std::mem::swap(&mut pixels, &mut graphic.pixels);

            // Update data of the new graphic.
            graphic.height -= height;
            graphic.line = surface_line;

            let upper_data = GraphicData {
                id: graphic.id,
                column: graphic.column,
                line: top,
                width: graphic.width,
                height,
                color_type: graphic.color_type,
                pixels,
                resize: None,
            };

            let texture: u32 = texture_generator();
            let upper_item = GraphicItem {
                texture: TextureName(texture),
                column: upper_data.column,
                bottom: surface_line - 1,
                cell_height,
                width: upper_data.width,
                height: upper_data.height,
            };
            proof {
                lemma_go_above(s, size, g, bottom, texture);
                lemma_continues_above(s0, size, g0, issued, emitted, s, g, bottom, texture);
                assert(upper_data@ == g.head(height as int));
                assert(upper_item == g.head(height as int).item_to(
                    surface_line - 1,
                    size,
                    texture,
                ));
                assert(graphic@ == g.tail(height as int, surface_line as int));
                lemma_batch_push(before, GraphicsCommand::InitTexture(texture, upper_data));
                assert(c0 + emitted.push(CommandView::InitTexture(texture, upper_data@)) =~= (c0
                    + emitted).push(CommandView::InitTexture(texture, upper_data@)));
                emitted = emitted.push(CommandView::InitTexture(texture, upper_data@));
                lemma_made_by_push(generator, issued, texture);
                issued = issued.push(texture);
            }
            graphics.attach(top, upper_item);
            commands.push(GraphicsCommand::InitTexture(texture, upper_data));
            if graphic.height == 0 {
                // The rows above the surface took every row of pixels.
                proof {
                    lemma_finish_empty(
                        s0,
                        size,
                        g0,
                        issued,
                        emitted,
                        graphics.attachments@,
                        graphic@,
                        bottom,
                    );
                    assert(attached(s0, size, g0, issued, graphics.attachments@, emitted));
                }
                return ;
            }
            i = i + 1;
        } else {
            // Copy the overlapping region to the existing texture.
            proof {
                lemma_go_into(s, size, g, bottom);
                lemma_target(s[i as int], size, g, 0);
            }
            let surface_rows: usize = (surface.item.bottom as i128 - surface_line as i128
                + 1) as usize;
            let surface_right: usize = cell_width * surface.item.column + surface.item.width;
            let mut surface_height: usize = surface.item.height;
            let blit_tex: u32;
            let blit_offset_x: usize;
            let ghost mut first: Seq<CommandView> = Seq::empty();
            let ghost mut texture: u32 = 0;

            // The surface is resized if any of the following conditions is
            // satisfied:
            //
            // - The left column of the surface is greater than the left column of the graphic.
            // - The right side of the surface is less than the right side of the graphic.
            // - The surface does not cover completely the last line in the grid.
            let resize: bool = surface.item.column > graphic.column || surface_right
                < new_graphic_right || surface.item.height % cell_height != 0;
            assert(resize == need_resize(surface.item, size, g));

            if resize {
                blit_tex = texture_generator();
                proof {
                    texture = blit_tex;
                    lemma_target(s[i as int], size, g, texture);
                    lemma_made_by_push(generator, issued, texture);
                }
                let resize_column: usize = if surface.item.column < graphic.column {
                    surface.item.column
                } else {
                    graphic.column
                };
                let resize_right: usize = if surface_right > new_graphic_right {
                    surface_right
                } else {
                    new_graphic_right
                };
                let source_offset: usize = (surface.item.column - resize_column) * cell_width;
                blit_offset_x = (graphic.column - resize_column) * cell_width;
                let resize_width: usize = resize_right - cell_width * resize_column;

                // After a resize, the last pixels row of the surface should be at
                // the bottom of the last row in the grid.
                surface_height = surface_rows * cell_height;

                // Attach the resized texture.
                let new_surface = GraphicItem {
                    texture: TextureName(blit_tex),
                    column: resize_column,
                    bottom: surface.item.bottom,
                    cell_height,
                    width: resize_width,
                    height: surface_height,
                };
                let command = GraphicsCommand::ResizeTexture(
                    ResizeTextureData {
                        target_texture: blit_tex,
                        source: surface.item,
                        source_offset,
                        width: resize_width,
                        height: surface_height,
                    },
                );
                proof {
                    assert(new_surface == widened(s[i as int], size, g, texture));
                    assert(command@ == CommandView::ResizeTexture(
                        resize_of(s[i as int], size, g, texture),
                    ));
                    lemma_batch_push(before, command);
                    first = seq![command@];
                }
                graphics.attachments.replace(i, new_surface);
                commands.push(command);
            } else {
                blit_tex = surface.item.texture.0;
                blit_offset_x = (graphic.column - surface.item.column) * cell_width;
                proof {
                    assert(s.update(i as int, s[i as int]) =~= s);
                }
            }
            let ghost item = target(s[i as int], size, g, texture);
            let ghost middle = commands@;
            assert(batch(middle) == c0 + emitted + first);
            assert(graphics.attachments@ == s.update(
                i as int,
                Attachment { line: surface_line, item },
            ));

            let blit_offset_y: usize = ((graphic.line as i128 - surface_line as i128) as usize)
                * cell_height;
            let blit_height: usize = surface_height - blit_offset_y;
            assert(blit_height == space(s[i as int], size, g));
            if blit_height >= graphic.height {
                let command = GraphicsCommand::BlitGraphic(
                    BlitGraphicData {
                        texture: blit_tex,
                        offset_x: blit_offset_x,
                        offset_y: blit_offset_y,
                        width: graphic.width,
                        height: graphic.height,
                        color_type: graphic.color_type,
                        pixels: graphic.pixels,
                    },
                );
                proof {
                    lemma_finish_inside(s0, size, g0, issued, emitted, s, g, bottom, texture);
                    lemma_batch_push(middle, command);
                    let copied = copy_commands(s[i as int], size, g, texture, g);
                    assert(copied == first.push(command@));
                    assert(c0 + (emitted + copied) =~= (c0 + emitted + first).push(command@));
                    issued = issued_with(issued, s[i as int], size, g, texture);
                    emitted = emitted + copied;
                }
                commands.push(command);
                proof {
                    assert(batch(commands@) == c0 + emitted);
                    assert(attached(s0, size, g0, issued, graphics.attachments@, emitted));
                }
                return ;
            }
            proof {
                lemma_go_across(s, size, g, bottom, texture);
                lemma_cut(g, blit_height as int, surface.item.bottom + 1);
            }
            let mut pixels: Vec<u8> = graphic.pixels.split_off(
                blit_height * graphic.width * graphic.color_type.bytes_per_pixel(),
            );
            std::mem::swap(&mut pixels, &mut graphic.pixels);
            graphic.height -= blit_height;
            graphic.line = surface.item.bottom + 1;
            let command = GraphicsCommand::BlitGraphic(
                BlitGraphicData {
                    texture: blit_tex,
                    offset_x: blit_offset_x,
                    offset_y: blit_offset_y,
                    width: graphic.width,
                    height: blit_height,
                    color_type: graphic.color_type,
                    pixels,
                },
            );
            proof {
                lemma_continues_across(s0, size, g0, issued, emitted, s, g, bottom, texture);
                lemma_batch_push(middle, command);
                let copied = copy_commands(
                    s[i as int],
                    size,
                    g,
                    texture,
                    g.head(blit_height as int),
                );
                assert(copied == first.push(command@));
                assert(c0 + (emitted + copied) =~= (c0 + emitted + first).push(command@));
                assert(graphic@ == g.tail(blit_height as int, surface.item.bottom + 1));
                issued = issued_with(issued, s[i as int], size, g, texture);
                emitted = emitted + copied;
            }
            commands.push(command);
            i = i + 1;
        }
    }

    // The new graphic (or its lower region) does not overlap with any existing
    // item in the grid, so we only need to create a new texture and emit a
    // command to initialize it.
    let ghost s = graphics.attachments@;
    let ghost g = graphic@;
    let texture: u32 = texture_generator();
    proof {
        lemma_finish_free(s0, size, g0, issued, emitted, s, g, bottom, texture);
        lemma_made_by_push(generator, issued, texture);
    }
    let graphics_item = GraphicItem {
        texture: TextureName(texture),
        column: graphic.column,
        bottom: new_graphic_bottom,
        cell_height,
        width: graphic.width,
        height: graphic.height,
    };
    proof {
        assert(graphics_item == g.item_to(bottom, size, texture));
        lemma_batch_push(commands@, GraphicsCommand::InitTexture(texture, graphic));
        assert(c0 + emitted.push(CommandView::InitTexture(texture, g)) =~= (c0 + emitted).push(
            CommandView::InitTexture(texture, g),
        ));
        issued = issued.push(texture);
        emitted = emitted.push(CommandView::InitTexture(texture, g));
    }
    graphics.attach(graphic.line, graphics_item);
    commands.push(GraphicsCommand::InitTexture(texture, graphic));
    proof {
        assert(attached(s0, size, g0, issued, graphics.attachments@, emitted));
    }
}

/// The graphic `a` is drawn in a viewport of `lines` rows that is scrolled
/// `offset` rows up from a grid whose first line is on row `base`: its top is
/// among the rows where the graphics that can show are looked for, and its
/// bottom is not above the viewport.
pub open spec fn shows(a: Attachment, base: int, offset: int, lines: int) -> bool {
    &&& visible_start(base, offset) <= a.line <= visible_end(base, offset, lines)
    &&& a.item.bottom >= base - offset
}

/// `shows`, as a function of the graphic.
pub open spec fn showing(base: int, offset: int, lines: int) -> spec_fn(Attachment) -> bool {
    |a: Attachment| shows(a, base, offset, lines)
}

/// The graphics of `s` that are drawn, in their order.
pub open spec fn visible(s: Seq<Attachment>, base: int, offset: int, lines: int) -> Seq<
    Attachment,
> {
    s.filter(showing(base, offset, lines))
}

/// The vertex for one corner of the graphic `a`.
pub open spec fn corner(a: Attachment, sides: VertexSide) -> Vertex {
    Vertex {
        texture_id: a.item.texture.0,
        sides,
        column: a.item.column,
        graphics_line: a.line,
        height: a.item.height,
        width: a.item.width,
        base_cell_height: a.item.cell_height,
    }
}

/// The vertices of the two triangles that show the graphic `a`.
pub open spec fn quad(a: Attachment) -> Seq<Vertex> {
    seq![
        corner(a, VertexSide::TopLeft),
        corner(a, VertexSide::TopRight),
        corner(a, VertexSide::BottomLeft),
        corner(a, VertexSide::TopRight),
        corner(a, VertexSide::BottomRight),
        corner(a, VertexSide::BottomLeft),
    ]
}

/// The vertices of the graphics of `s`, one graphic after the other.
pub open spec fn vertices_of(s: Seq<Attachment>) -> Seq<Vertex>
    decreases s.len(),
{
    if s.len() == 0 {
        Seq::empty()
    } else {
        vertices_of(s.drop_last()) + quad(s.last())
    }
}

/// The command that draws the graphics of `s` that show in the viewport, if
/// there are any.
pub open spec fn rendered(s: Seq<Attachment>, base: int, size: SizeInfo, offset: int) -> Seq<
    CommandView,
> {
    let shown = visible(s, base, offset, size.screen_lines as int);
    if shown.len() == 0 {
        Seq::empty()
    } else {
        seq![
            CommandView::Render(
                RenderView {
                    vertices: vertices_of(shown),
                    graphics_line_offset: (base - offset) as i64,
                    view_width: size.spec_view_width() as usize,
                    view_height: size.spec_view_height() as usize,
                    cell_width: size.cell_width,
                    cell_height: size.cell_height,
                },
            ),
        ]
    }
}

/// The graphics among the first `j + 1` of `s` that are drawn are those among
/// the first `j`, and the next one if it is drawn.
proof fn lemma_visible_next(s: Seq<Attachment>, j: int, base: int, offset: int, lines: int)
    requires
        0 <= j < s.len(),
    ensures
        visible(s.subrange(0, j + 1), base, offset, lines) == if shows(s[j], base, offset, lines) {
            visible(s.subrange(0, j), base, offset, lines).push(s[j])
        } else {
            visible(s.subrange(0, j), base, offset, lines)
        },
        shows(s[j], base, offset, lines) ==> vertices_of(
            visible(s.subrange(0, j + 1), base, offset, lines),
        ) == vertices_of(visible(s.subrange(0, j), base, offset, lines)) + quad(s[j]),
{
    reveal(Seq::filter);
    let next = s.subrange(0, j + 1);
    assert(next.drop_last() =~= s.subrange(0, j));
    assert(next.last() == s[j]);
    if shows(s[j], base, offset, lines) {
        let shown = visible(s.subrange(0, j), base, offset, lines);
        assert(shown.push(s[j]).drop_last() =~= shown);
    }
}

/// Graphics that are not drawn can be left out.
proof fn lemma_visible_rest(s: Seq<Attachment>, i: int, base: int, offset: int, lines: int)
    requires
        0 <= i <= s.len(),
        forall|j: int| i <= j < s.len() ==> !shows(#[trigger] s[j], base, offset, lines),
    ensures
        visible(s, base, offset, lines) == visible(s.subrange(0, i), base, offset, lines),
    decreases s.len() - i,
{
    if i < s.len() {
        lemma_visible_rest(s.drop_last(), i, base, offset, lines);
        reveal(Seq::filter);
        assert(s.drop_last().subrange(0, i) =~= s.subrange(0, i));
    } else {
        assert(s.subrange(0, i) =~= s);
    }
}

/// No graphic is drawn among graphics that are not drawn.
proof fn lemma_visible_none(s: Seq<Attachment>, base: int, offset: int, lines: int)
    requires
        forall|j: int| 0 <= j < s.len() ==> !shows(#[trigger] s[j], base, offset, lines),
    ensures
        visible(s, base, offset, lines) == Seq::<Attachment>::empty(),
{
    lemma_visible_rest(s, 0, base, offset, lines);
    reveal(Seq::filter);
    assert(s.subrange(0, 0) =~= Seq::<Attachment>::empty());
}

/// Generate the vertices required to render the graphics visible in the current
/// viewport, and emit a `Render` command with all of them.
///
/// If no graphics are visible, it does not emit any command.
pub fn render_commands(
    graphics: &Graphics,
    size_info: &SizeInfo,
    display_offset: usize,
    commands: &mut Vec<GraphicsCommand>,
)
    requires
        graphics.wf(),
        size_info.wf(),
        graphics.base_position - display_offset >= i64::MIN,
    ensures
        batch(final(commands)@) == batch(old(commands)@) + rendered(
            graphics.attachments@,
            graphics.base_position as int,
            *size_info,
            display_offset as int,
        ),
{
    let ghost s = graphics.attachments@;
    let ghost base = graphics.base_position as int;
    let ghost offset = display_offset as int;
    let ghost lines = size_info.screen_lines as int;
    let mut vertices: Vec<Vertex> = Vec::new();

    let visible_range: LineRange = graphics.visible_range(size_info, display_offset);
    let display_top: i64 = (graphics.base_position as i128 - display_offset as i128) as i64;

    let first: usize = graphics.attachments.first_reaching(visible_range.start);
    let mut i: usize = first;
    proof {
        lemma_reach(s, visible_range.start as int);
        assert forall|j: int| 0 <= j < first implies !shows(
            #[trigger] s.subrange(0, first as int)[j],
            base,
            offset,
            lines,
        ) by {
            assert(s[j].line <= s[j].item.bottom);
            assert(!visible_range.spec_contains(s[j].line));
        }
        lemma_visible_none(s.subrange(0, first as int), base, offset, lines);
    }
    while i < graphics.attachments.len() && graphics.attachments.entry(i).line <= visible_range.end
        invariant
            s == graphics.attachments@,
            ordered(s),
            i <= s.len(),
            forall|line: i64|
                visible_range.spec_contains(line) <==> visible_start(base, offset) <= line
                    <= visible_end(base, offset, lines),
            display_top == base - offset,
            vertices@ == vertices_of(visible(s.subrange(0, i as int), base, offset, lines)),
            vertices@.len() == 0 <==> visible(s.subrange(0, i as int), base, offset, lines).len()
                == 0,
        decreases s.len() - i,
    {
        let attachment: Attachment = graphics.attachments.entry(i);
        let graphics_line: i64 = attachment.line;
        let graphics_item: GraphicItem = attachment.item;
        proof {
            lemma_visible_next(s, i as int, base, offset, lines);
        }
        // Check if the graphic is within the rows looked at, and if its
        // bottom side is within the viewport.
        if visible_range.contains(graphics_line) && display_top <= graphics_item.bottom {
            // 2 triangles to render the graphic.
            let vertex = Vertex {
                texture_id: graphics_item.texture.0,
                sides: VertexSide::TopLeft,
                column: graphics_item.column,
                graphics_line,
                height: graphics_item.height,
                width: graphics_item.width,
                base_cell_height: graphics_item.cell_height,
            };
            let ghost before = vertices@;
            vertices.push(vertex);
            vertices.push(Vertex { sides: VertexSide::TopRight, ..vertex });
            vertices.push(Vertex { sides: VertexSide::BottomLeft, ..vertex });
            vertices.push(Vertex { sides: VertexSide::TopRight, ..vertex });
            vertices.push(Vertex { sides: VertexSide::BottomRight, ..vertex });
            vertices.push(Vertex { sides: VertexSide::BottomLeft, ..vertex });
            proof {
                assert(vertices@ =~= before + quad(s[i as int]));
            }
        }
        i = i + 1;
    }
    proof {
        assert forall|j: int| i <= j < s.len() implies !shows(
            #[trigger] s[j],
            base,
            offset,
            lines,
        ) by {
            if j > i {
                assert(s[i as int].item.bottom < s[j].line);
                assert(s[i as int].line <= s[i as int].item.bottom);
            }
            assert(!visible_range.spec_contains(s[j].line));
        }
        lemma_visible_rest(s, i as int, base, offset, lines);
        assert(batch(commands@) + Seq::<CommandView>::empty() =~= batch(commands@));
    }
    if vertices.len() != 0 {
        let data = RenderData {
            vertices,
            graphics_line_offset: display_top,
            view_width: size_info.view_width(),
            view_height: size_info.view_height(),
            cell_width: size_info.cell_width,
            cell_height: size_info.cell_height,
        };
        proof {
            lemma_batch_push(commands@, GraphicsCommand::Render(data));
            assert(batch(commands@).push(CommandView::Render(data@)) =~= batch(commands@)
                + seq![CommandView::Render(data@)]);
        }
        commands.push(GraphicsCommand::Render(data));
    }
}

/// What the graphic `g` of the `pending` queue comes to: it is brought to the
/// size that it asks for and attached, or dropped if a side comes out empty or
/// it cannot be attached.
pub open spec fn attach_pending(
    s: Seq<Attachment>,
    size: SizeInfo,
    g: GraphicDataView,
    textures: Seq<u32>,
) -> Attached {
    let sized = resized_view(
        g,
        size.cell_width as int,
        size.cell_height as int,
        size.width as int,
        size.height as int,
    );
    if sized.is_some() && can_attach(s, size, sized.unwrap()) {
        attach(s, size, sized.unwrap(), textures)
    } else {
        Attached { entries: s, commands: Seq::empty(), textures: 0 }
    }
}

/// What the graphics of the `pending` queue come to, one after the other, with
/// `textures` as the new textures in the order in which they are taken.
pub open spec fn attach_all(
    s: Seq<Attachment>,
    size: SizeInfo,
    pending: Seq<GraphicDataView>,
    textures: Seq<u32>,
) -> Attached
    decreases pending.len(),
{
    if pending.len() == 0 {
        Attached { entries: s, commands: Seq::empty(), textures: 0 }
    } else {
        let first = attach_pending(s, size, pending[0], textures);
        attach_all(
            first.entries,
            size,
            pending.skip(1),
            textures.skip(first.textures as int),
        ).after(first.commands, first.textures)
    }
}

/// The command that releases the textures of the graphics `removed`, if there
/// are any.
pub open spec fn deleted(removed: Seq<GraphicItem>) -> Seq<CommandView> {
    if removed.len() == 0 {
        Seq::empty()
    } else {
        seq![CommandView::DeleteTextures(textures_of(removed))]
    }
}

/// The graphics attached to the grid and the commands of one *prepare* phase:
/// the textures of the graphics that left the grid are released, the pending
/// graphics are attached, and the graphics that the viewport shows are drawn.
pub open spec fn prepared(
    graphics: Graphics,
    size: SizeInfo,
    display_offset: int,
    textures: Seq<u32>,
) -> Attached {
    let all = attach_all(graphics.attachments@, size, views(graphics.pending@), textures);
    Attached {
        entries: all.entries,
        commands: deleted(graphics.removed@) + all.commands + rendered(
            all.entries,
            graphics.base_position as int,
            size,
            display_offset,
        ),
        textures: all.textures,
    }
}

/// Attaching the graphics `waiting` to `s0` comes to the commands `emitted`, which
/// took the textures `issued`, followed by attaching the graphics `p` to `s`.
pub open spec fn all_continues(
    s0: Seq<Attachment>,
    size: SizeInfo,
    waiting: Seq<GraphicDataView>,
    issued: Seq<u32>,
    emitted: Seq<CommandView>,
    s: Seq<Attachment>,
    p: Seq<GraphicDataView>,
) -> bool {
    forall|rest: Seq<u32>| #[trigger]
        attach_all(s0, size, waiting, issued + rest) == attach_all(s, size, p, rest).after(
            emitted,
            issued.len(),
        )
}

proof fn lemma_all_start(s: Seq<Attachment>, size: SizeInfo, p: Seq<GraphicDataView>)
    ensures
        all_continues(s, size, p, Seq::empty(), Seq::empty(), s, p),
{
    assert forall|rest: Seq<u32>| #[trigger]
        attach_all(s, size, p, Seq::<u32>::empty() + rest) == attach_all(s, size, p, rest).after(
            Seq::empty(),
            0,
        ) by {
        assert(Seq::<u32>::empty() + rest =~= rest);
        let inner = attach_all(s, size, p, rest);
        assert(inner.after(Seq::empty(), 0) =~= inner);
    }
}

/// The first of the graphics left is dropped, or attached with the textures
/// `taken`, and the others are left.
proof fn lemma_all_next(
    s0: Seq<Attachment>,
    size: SizeInfo,
    waiting: Seq<GraphicDataView>,
    issued: Seq<u32>,
    emitted: Seq<CommandView>,
    s: Seq<Attachment>,
    p: Seq<GraphicDataView>,
    taken: Seq<u32>,
)
    requires
        all_continues(s0, size, waiting, issued, emitted, s, p),
        p.len() > 0,
        attach_pending(s, size, p[0], taken).textures == taken.len(),
    ensures
        all_continues(
            s0,
            size,
            waiting,
            issued + taken,
            emitted + attach_pending(s, size, p[0], taken).commands,
            attach_pending(s, size, p[0], taken).entries,
            p.skip(1),
        ),
{
    let first = attach_pending(s, size, p[0], taken);
    assert forall|rest: Seq<u32>| #[trigger]
        attach_all(s0, size, waiting, issued + taken + rest) == attach_all(
            first.entries,
            size,
            p.skip(1),
            rest,
        ).after(emitted + first.commands, (issued + taken).len()) by {
        let all = taken + rest;
        assert(issued + all =~= issued + taken + rest);
        let sized = resized_view(
            p[0],
            size.cell_width as int,
            size.cell_height as int,
            size.width as int,
            size.height as int,
        );
        if sized.is_some() && can_attach(s, size, sized.unwrap()) {
            lemma_attach_prefix(s, size, sized.unwrap(), taken, rest);
        }
        assert(attach_pending(s, size, p[0], all) == first);
        assert(all.skip(first.textures as int) =~= rest);
        let inner = attach_all(first.entries, size, p.skip(1), rest);
        assert(attach_all(s, size, p, all) == inner.after(first.commands, first.textures));
        assert(inner.after(first.commands, first.textures).after(emitted, issued.len())
            =~= inner.after(emitted + first.commands, (issued + taken).len()));
    }
}

/// The graphics of `queue`, last first.
fn reversed(queue: Vec<GraphicData>) -> (turned: Vec<GraphicData>)
    ensures
        turned@ == queue@.reverse(),
{
    let mut queue = queue;
    let mut turned: Vec<GraphicData> = Vec::new();
    let ghost all = queue@;
    while queue.len() > 0
        invariant
            queue@.len() + turned@.len() == all.len(),
            queue@ == all.subrange(0, queue@.len() as int),
            forall|j: int| 0 <= j < turned@.len() ==> turned@[j] == all[all.len() - 1 - j],
        decreases queue@.len(),
    {
        match queue.pop() {
            Some(graphic) => {
                turned.push(graphic);
            },
            None => {},
        }
    }
    proof {
        assert(turned@ =~= all.reverse());
    }
    turned
}

/// Run the *prepare* phase: release the textures of the graphics that left
/// the grid, attach the graphics that wait for it, and draw the graphics that
/// the viewport shows when it is scrolled `display_offset` rows up.
///
/// A pending graphic is first brought to the size that it asks for. It is
/// dropped if a side comes out empty, or if it cannot be attached.
///
/// Returns `None` if there is nothing for the display to do.
pub fn prepare<T>(
    graphics: &mut Graphics,
    size_info: &SizeInfo,
    display_offset: usize,
    mut texture_generator: T,
) -> (commands: Option<Vec<GraphicsCommand>>) where T: FnMut() -> u32
    requires
        old(graphics).wf(),
        size_info.wf(),
        old(graphics).base_position - display_offset >= i64::MIN,
        call_requires(texture_generator, ()),
    ensures
        final(graphics).wf(),
        final(graphics).pending@.len() == 0,
        final(graphics).removed@.len() == 0,
        final(graphics).last_id == old(graphics).last_id,
        final(graphics).base_position == old(graphics).base_position,
        final(graphics).sixel_shared_palette == old(graphics).sixel_shared_palette,
        exists|textures: Seq<u32>|
            {
                let outcome = #[trigger] prepared(
                    *old(graphics),
                    *size_info,
                    display_offset as int,
                    textures,
                );
                &&& made_by(texture_generator, textures)
                &&& outcome.textures == textures.len()
                &&& outcome.entries == final(graphics).attachments@
                &&& commands.is_none() <==> outcome.commands.len() == 0
                &&& commands.is_some() ==> batch(commands.unwrap()@) == outcome.commands
            },
{
    let ghost generator = texture_generator;
    let ghost s0 = graphics.attachments@;
    let ghost waiting = views(graphics.pending@);
    let ghost size = *size_info;
    let ghost removed0 = graphics.removed@;
    let mut commands: Vec<GraphicsCommand> = Vec::new();

    let mut removed: Vec<GraphicItem> = Vec::new();
    std::mem::swap(&mut removed, &mut graphics.removed);
    if removed.len() > 0 {
        let command = delete(removed);
        proof {
            lemma_batch_push(commands@, command);
        }
        commands.push(command);
    }
    assert(batch(commands@) =~= deleted(removed0));

    let mut pending: Vec<GraphicData> = Vec::new();
    std::mem::swap(&mut pending, &mut graphics.pending);
    let ghost queue0 = pending@;
    let mut queue: Vec<GraphicData> = reversed(pending);
    let ghost mut issued: Seq<u32> = Seq::empty();
    let ghost mut emitted: Seq<CommandView> = Seq::empty();
    let ghost mut done: int = 0;
    proof {
        lemma_all_start(s0, size, waiting);
        assert(waiting.skip(0) =~= waiting);
        assert(deleted(removed0) + emitted =~= deleted(removed0));
    }
    while queue.len() > 0
        invariant
            size == *size_info,
            size.wf(),
            texture_generator == generator,
            call_requires(generator, ()),
            made_by(generator, issued),
            graphics.wf(),
            graphics.pending@.len() == 0,
            graphics.removed@.len() == 0,
            graphics.last_id == old(graphics).last_id,
            graphics.base_position == old(graphics).base_position,
            graphics.sixel_shared_palette == old(graphics).sixel_shared_palette,
            waiting == views(queue0),
            0 <= done <= queue0.len(),
            queue@.len() == queue0.len() - done,
            forall|j: int| 0 <= j < queue@.len() ==> queue@[j] == queue0[queue0.len() - 1 - j],
            batch(commands@) == deleted(removed0) + emitted,
            all_continues(s0, size, waiting, issued, emitted, graphics.attachments@, waiting.skip(done)),
        decreases queue@.len(),
    {
        let ghost s = graphics.attachments@;
        let ghost p = waiting.skip(done);
        let ghost before = batch(commands@);
        let ghost mut taken: Seq<u32> = Seq::empty();
        let ghost mut added: Seq<CommandView> = Seq::empty();
        match queue.pop() {
            Some(graphic) => {
                proof {
                    assert(graphic@ == p[0]);
                }
                match graphic.resized(
                    size_info.cell_width,
                    size_info.cell_height,
                    size_info.width,
                    size_info.height,
                ) {
                    Some(graphic) => {
                        if attachable(graphics, size_info, &graphic) {
                            let ghost sized = graphic@;
                            attach_with(
                                graphics,
                                size_info,
                                &mut commands,
                                graphic,
                                &mut texture_generator,
                            );
                            proof {
                                let pair = choose|textures: Seq<u32>, emitted: Seq<CommandView>|
                                    {
                                        &&& made_by(generator, textures)
                                        &&& batch(commands@) == before + emitted
                                        &&& #[trigger] attached(
                                            s,
                                            size,
                                            sized,
                                            textures,
                                            graphics.attachments@,
                                            emitted,
                                        )
                                    };
                                taken = pair.0;
                                added = pair.1;
                            }
                        }
                    },
                    None => {},
                }
            },
            None => {},
        }
        proof {
            assert(attach_pending(s, size, p[0], taken).entries == graphics.attachments@);
            assert(attach_pending(s, size, p[0], taken).commands == added);
            lemma_all_next(s0, size, waiting, issued, emitted, s, p, taken);
            assert(p.skip(1) =~= waiting.skip(done + 1));
            assert(before + added =~= deleted(removed0) + (emitted + added));
            lemma_made_by_add(generator, issued, taken);
            issued = issued + taken;
            emitted = emitted + added;
            done = done + 1;
        }
    }
    proof {
        assert(waiting.skip(done) =~= Seq::<GraphicDataView>::empty());
        assert(issued + Seq::<u32>::empty() =~= issued);
        let all = attach_all(s0, size, waiting, issued);
        assert(all.entries == graphics.attachments@);
        assert(all.commands =~= emitted);
        assert(all.textures == issued.len());
    }
    render_commands(graphics, size_info, display_offset, &mut commands);
    proof {
        let outcome = prepared(*old(graphics), size, display_offset as int, issued);
        assert(outcome.textures == issued.len());
        assert(batch(commands@) == outcome.commands);
    }
    if commands.len() == 0 {
        None
    } else {
        Some(commands)
    }
}

} // verus!
