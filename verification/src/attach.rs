//! How a new graphic finds its place among the graphics of the grid.
//!
//! A row of the grid shows one texture only. A new graphic that covers rows
//! where other graphics are attached is cut into bands of rows: a band that
//! lies on free rows gets a texture of its own, and a band that lies on the
//! rows of another graphic is copied into the texture of that graphic, which
//! is first replaced by a larger one where the new graphic does not fit.
//!
//! This module states what comes out of that: the graphics attached to the
//! grid afterwards, and the commands for the display, in their order.

use vstd::prelude::*;
use crate::attachments::{ordered, reach, Attachment, GraphicItem, TextureName};
use crate::command::{BlitGraphicView, CommandView, ResizeTextureData};
use crate::geometry::{rows_for, SizeInfo};
use crate::graphics::GraphicDataView;

verus! {

impl GraphicDataView {
    /// Number of rows of the grid that the graphic reaches into.
    pub open spec fn rows(self, size: SizeInfo) -> int {
        rows_for(self.height as int, size.cell_height as int)
    }

    /// Last row of the grid that the graphic reaches into.
    pub open spec fn bottom(self, size: SizeInfo) -> int {
        self.line + self.rows(size) - 1
    }

    /// Pixels between the left side of the grid and the right side of the
    /// graphic.
    pub open spec fn right(self, size: SizeInfo) -> int {
        size.cell_width * self.column + self.width
    }

    /// The first `height` rows of pixels, as a graphic of its own.
    pub open spec fn head(self, height: int) -> GraphicDataView {
        GraphicDataView {
            height: height as usize,
            pixels: self.pixels.subrange(0, height * self.stride()),
            resize: None,
            ..self
        }
    }

    /// What is left below the first `height` rows of pixels, with its top side
    /// at `line`.
    pub open spec fn tail(self, height: int, line: int) -> GraphicDataView {
        GraphicDataView {
            line: line as i64,
            height: (self.height - height) as usize,
            pixels: self.pixels.subrange(height * self.stride(), self.pixels.len() as int),
            ..self
        }
    }

    /// The graphic as it is attached to the grid down to the row `bottom`,
    /// with `texture` for its pixels.
    pub open spec fn item_to(self, bottom: int, size: SizeInfo, texture: u32) -> GraphicItem {
        GraphicItem {
            texture: TextureName(texture),
            column: self.column,
            bottom: bottom as i64,
            cell_height: size.cell_height,
            width: self.width,
            height: self.height,
        }
    }

    /// The graphic as it is attached to the grid down to the last row that it
    /// reaches into, with `texture` for its pixels.
    pub open spec fn item(self, size: SizeInfo, texture: u32) -> GraphicItem {
        self.item_to(self.bottom(size), size, texture)
    }

    /// The copy of the whole graphic into `texture`, with its top left corner
    /// `x` pixels from the left side of the texture and `y` from the top.
    pub open spec fn blit(self, texture: u32, x: int, y: int) -> BlitGraphicView {
        BlitGraphicView {
            texture,
            offset_x: x as usize,
            offset_y: y as usize,
            width: self.width,
            height: self.height,
            color_type: self.color_type,
            pixels: self.pixels,
        }
    }
}

/// Pixels between the left side of the grid and the right side of the texture.
pub open spec fn surface_right(item: GraphicItem, size: SizeInfo) -> int {
    size.cell_width * item.column + item.width
}

/// The texture of `item` has to be replaced before `g` is copied into it: `g`
/// starts left of it, or ends right of it, or the texture does not end with
/// the last row of pixels of a cell.
pub open spec fn need_resize(item: GraphicItem, size: SizeInfo, g: GraphicDataView) -> bool {
    ||| item.column > g.column
    ||| surface_right(item, size) < g.right(size)
    ||| item.height % size.cell_height != 0
}

/// The graphic that takes the place of `a` when its texture is replaced by
/// `texture`: it covers the same rows down to their last row of pixels, and
/// the columns of both `a` and `g`.
pub open spec fn widened(a: Attachment, size: SizeInfo, g: GraphicDataView, texture: u32)
    -> GraphicItem {
    let column = if a.item.column < g.column {
        a.item.column
    } else {
        g.column
    };
    let right = if surface_right(a.item, size) > g.right(size) {
        surface_right(a.item, size)
    } else {
        g.right(size)
    };
    GraphicItem {
        texture: TextureName(texture),
        column,
        bottom: a.item.bottom,
        cell_height: size.cell_height,
        width: (right - size.cell_width * column) as usize,
        height: (a.rows() * size.cell_height) as usize,
    }
}

/// The command that replaces the texture of `a` by `texture`.
pub open spec fn resize_of(a: Attachment, size: SizeInfo, g: GraphicDataView, texture: u32)
    -> ResizeTextureData {
    let item = widened(a, size, g, texture);
    ResizeTextureData {
        target_texture: texture,
        source: a.item,
        source_offset: ((a.item.column - item.column) * size.cell_width) as usize,
        width: item.width,
        height: item.height,
    }
}

/// The sizes in pixels of the rows and of the columns that the texture of `a`
/// takes can be computed.
pub open spec fn surface_bounds(a: Attachment, size: SizeInfo) -> bool {
    &&& a.rows() * size.cell_height <= usize::MAX
    &&& surface_right(a.item, size) <= usize::MAX
}

/// The texture of `a` is as high as the rows that `a` covers, unless it has
/// yet to be replaced, and its sizes in pixels can be computed. It is so for
/// every texture that was made for cells of the height that they have now.
pub open spec fn surface_fits(a: Attachment, size: SizeInfo) -> bool {
    &&& a.item.height % size.cell_height == 0 ==> a.item.height == a.rows()
        * size.cell_height
    &&& surface_bounds(a, size)
}

/// The rows of pixels of `g` can be told where they go, on its way down the
/// graphics `rest` to the row `bottom`. `rest` starts with the first graphic
/// that reaches down to the top of `g`.
///
/// Where `g` starts above the first of `rest`, it has the rows of pixels that
/// the rows above it take. Then it is copied into the texture of that graphic,
/// see `enters`.
pub open spec fn goes(rest: Seq<Attachment>, size: SizeInfo, g: GraphicDataView, bottom: int)
    -> bool
    decreases rest.len(), 1int,
{
    if g.height == 0 || rest.len() == 0 || rest[0].line > bottom {
        true
    } else if g.line < rest[0].line {
        let height = (rest[0].line - g.line) * size.cell_height;
        height <= g.height && enters(rest, size, g.tail(height, rest[0].line as int), bottom)
    } else {
        enters(rest, size, g, bottom)
    }
}

/// The rows of pixels of `g`, whose top the first graphic of `rest` covers,
/// can be told where they go.
///
/// The top of `g` is not below the last row of pixels of the texture that it is
/// copied into. Either everything that is left of `g` fits into that texture,
/// or the graphic ends above `bottom` and what is left of `g` goes on below
/// it.
pub open spec fn enters(rest: Seq<Attachment>, size: SizeInfo, g: GraphicDataView, bottom: int)
    -> bool
    decreases rest.len(), 0int,
{
    if g.height == 0 || rest.len() == 0 {
        true
    } else {
        let a = rest[0];
        &&& (g.line - a.line) * size.cell_height <= target(a, size, g, 0).height
        &&& space(a, size, g) >= g.height || (a.item.bottom < bottom && goes(
            rest.skip(1),
            size,
            g.tail(space(a, size, g), a.item.bottom + 1),
            bottom,
        ))
    }
}

/// What is left of a graphic, `g`, can be attached down to the row `bottom` to
/// a grid with the graphics `s`.
pub open spec fn can_go(s: Seq<Attachment>, size: SizeInfo, g: GraphicDataView, bottom: int)
    -> bool {
    &&& size.wf()
    &&& ordered(s)
    &&& g.wf()
    &&& g.width > 0
    &&& g.height > 0 ==> g.line <= bottom
    &&& bottom <= i64::MAX
    &&& g.right(size) <= usize::MAX
    &&& forall|i: int|
        0 <= i < s.len() && (#[trigger] s[i]).meets(g.line as int, bottom) ==> surface_bounds(
            s[i],
            size,
        )
    &&& goes(s.skip(reach(s, g.line as int)), size, g, bottom)
}

/// `g` can be attached to a grid with the graphics `s` and cells of the sizes
/// in `size`.
///
/// Its buffer holds its pixels. Its last row and its right side can be
/// computed, and so can the sizes of the graphics that it meets. Its rows of
/// pixels can be told where they go, see `goes`. That is so on every grid
/// whose cells kept their height, see `lemma_fits_can_attach`. A texture from
/// cells of another height is in the way where the rows of the grid and the
/// rows of pixels of the texture give no place to pixels of `g`: where a row
/// of `g` starts below the last row of pixels of a texture that is kept; where
/// the rows above a graphic take more rows of pixels than are left of `g`;
/// and where rows of pixels are left of `g` at a graphic that ends on the
/// last row of `g` or below it, so that the grid has no row for them.
pub open spec fn can_attach(s: Seq<Attachment>, size: SizeInfo, g: GraphicDataView) -> bool {
    &&& size.wf()
    &&& ordered(s)
    &&& g.wf()
    &&& g.width > 0 && g.height > 0 ==> can_go(s, size, g, g.bottom(size))
}

/// `g` can be attached to a grid with the graphics `s`, all of whose textures
/// that `g` meets are as high as their rows, unless they have yet to be
/// replaced.
pub open spec fn can_attach_aligned(s: Seq<Attachment>, size: SizeInfo, g: GraphicDataView) -> bool {
    &&& can_attach(s, size, g)
    &&& g.width > 0 && g.height > 0 ==> forall|i: int|
        0 <= i < s.len() && (#[trigger] s[i]).meets(g.line as int, g.bottom(size))
            ==> surface_fits(s[i], size)
}

/// The graphics attached to the grid and the commands for the display, once a
/// graphic has been attached.
#[verifier::ext_equal]
pub struct Attached {
    /// The graphics attached to the grid, ordered by their rows.
    pub entries: Seq<Attachment>,
    /// The commands for the display, in their order.
    pub commands: Seq<CommandView>,
    /// Number of new textures in use.
    pub textures: nat,
}

impl Attached {
    /// The same outcome, reached after `commands` which took `textures` new
    /// textures.
    pub open spec fn after(self, commands: Seq<CommandView>, textures: nat) -> Attached {
        Attached {
            entries: self.entries,
            commands: commands + self.commands,
            textures: textures + self.textures,
        }
    }
}

/// What attaching `g` to a grid that holds the graphics `s` gives, with
/// `textures` as the new textures in the order in which they are taken.
///
/// Nothing happens for a graphic without pixels. Otherwise the graphic goes
/// down the grid to the last row that it reaches into, see `attach_rows`.
pub open spec fn attach(
    s: Seq<Attachment>,
    size: SizeInfo,
    g: GraphicDataView,
    textures: Seq<u32>,
) -> Attached {
    if g.width == 0 || g.height == 0 {
        Attached { entries: s, commands: Seq::empty(), textures: 0 }
    } else {
        attach_rows(s, size, g, g.bottom(size), textures)
    }
}

/// What attaching what is left of a graphic, `g`, down to the row `bottom`
/// gives.
///
/// Nothing happens once no pixels are left. Otherwise the first graphic of
/// `s` that reaches down to the top of `g` decides:
/// - where it starts below the top of `g`, but not below `bottom`, the rows
///   of `g` above it become a graphic of their own, with a new texture, and
///   the rest of `g` is attached in the same way;
/// - where it covers the top of `g`, its texture is replaced if `g` does not
///   fit within it, the rows of pixels of `g` that fit between the top of `g`
///   and the bottom of the texture are copied into it, and what is left of `g`
///   is attached below it in the same way;
/// - where no such graphic is left, `g` is attached down to `bottom` with a new
///   texture.
pub open spec fn attach_rows(
    s: Seq<Attachment>,
    size: SizeInfo,
    g: GraphicDataView,
    bottom: int,
    textures: Seq<u32>,
) -> Attached
    decreases bottom - g.line,
    when can_go(s, size, g, bottom)
    via attach_rows_decreases
{
    let i = reach(s, g.line as int);
    if g.height == 0 {
        Attached { entries: s, commands: Seq::empty(), textures: 0 }
    } else if i < s.len() && s[i].line <= bottom {
        let a = s[i];
        if g.line < a.line {
            let height = (a.line - g.line) * size.cell_height;
            let upper = g.head(height);
            attach_rows(
                s.insert(
                    i,
                    Attachment { line: g.line, item: upper.item_to(a.line - 1, size, textures[0]) },
                ),
                size,
                g.tail(height, a.line as int),
                bottom,
                textures.skip(1),
            ).after(seq![CommandView::InitTexture(textures[0], upper)], 1)
        } else {
            let entries = s.update(
                i,
                Attachment { line: a.line, item: target(a, size, g, textures[0]) },
            );
            let fits = space(a, size, g);
            if fits >= g.height {
                Attached {
                    entries,
                    commands: copy_commands(a, size, g, textures[0], g),
                    textures: taken(a, size, g),
                }
            } else {
                attach_rows(
                    entries,
                    size,
                    g.tail(fits, a.item.bottom + 1),
                    bottom,
                    textures.skip(taken(a, size, g) as int),
                ).after(copy_commands(a, size, g, textures[0], g.head(fits)), taken(a, size, g))
            }
        }
    } else {
        Attached {
            entries: s.insert(
                i,
                Attachment { line: g.line, item: g.item_to(bottom, size, textures[0]) },
            ),
            commands: seq![CommandView::InitTexture(textures[0], g)],
            textures: 1,
        }
    }
}

#[via_fn]
proof fn attach_rows_decreases(
    s: Seq<Attachment>,
    size: SizeInfo,
    g: GraphicDataView,
    bottom: int,
    textures: Seq<u32>,
) {
    let i = reach(s, g.line as int);
    crate::attachments::lemma_reach(s, g.line as int);
    if g.height != 0 && i < s.len() && s[i].line <= bottom {
        let rest = s.skip(i);
        assert(rest[0] == s[i]);
    }
}

/// The rows of pixels of `g` that lie above `a`, or within `a` from the top
/// of `g` on, are fewer than `g` has, unless `g` ends within `a`.
pub proof fn lemma_band(a: Attachment, size: SizeInfo, g: GraphicDataView)
    requires
        size.wf(),
        g.height > 0,
        a.line <= a.item.bottom,
        a.meets(g.line as int, g.bottom(size)),
        surface_fits(a, size),
    ensures
        g.line < a.line ==> 0 < (a.line - g.line) * size.cell_height < g.height,
        g.line >= a.line && !need_resize(a.item, size, g) ==> a.item.height == a.rows()
            * size.cell_height,
        g.line >= a.line ==> (a.rows() * size.cell_height - (g.line - a.line) * size.cell_height
            == (a.item.bottom - g.line + 1) * size.cell_height),
        g.line >= a.line ==> 0 < (a.item.bottom - g.line + 1) * size.cell_height,
        g.line >= a.line ==> ((a.item.bottom - g.line + 1) * size.cell_height >= g.height
            <==> a.item.bottom >= g.bottom(size)),
{
    let c = size.cell_height as int;
    let h = g.height as int;
    let rows = g.rows(size);
    crate::geometry::lemma_rows_bounds(h, c);
    if g.line < a.line {
        let k = a.line - g.line;
        assert(k <= rows - 1);
        assert(0 < k * c <= (rows - 1) * c) by (nonlinear_arith)
            requires
                0 < k <= rows - 1,
                c > 0,
        ;
    } else {
        let m = a.item.bottom - g.line + 1;
        let d = g.line - a.line;
        assert(a.rows() * c - d * c == m * c) by (nonlinear_arith)
            requires
                a.rows() - d == m,
        ;
        assert(0 < m * c) by (nonlinear_arith)
            requires
                m > 0,
                c > 0,
        ;
        if a.item.bottom >= g.bottom(size) {
            assert(m * c >= rows * c) by (nonlinear_arith)
                requires
                    m >= rows,
                    c > 0,
            ;
        } else {
            assert(m * c <= (rows - 1) * c) by (nonlinear_arith)
                requires
                    m <= rows - 1,
                    c > 0,
            ;
        }
    }
}

/// Every one of `textures` is a value that a call of `generator` gives.
pub open spec fn made_by<T: FnMut() -> u32>(generator: T, textures: Seq<u32>) -> bool {
    forall|k: int| 0 <= k < textures.len() ==> call_ensures(generator, (), #[trigger] textures[k])
}

/// A value that `generator` gives can follow others that it gave.
pub proof fn lemma_made_by_push<T: FnMut() -> u32>(generator: T, textures: Seq<u32>, texture: u32)
    requires
        made_by(generator, textures),
        call_ensures(generator, (), texture),
    ensures
        made_by(generator, textures.push(texture)),
{
    let all = textures.push(texture);
    assert forall|k: int| 0 <= k < all.len() implies call_ensures(
        generator,
        (),
        #[trigger] all[k],
    ) by {
        if k < textures.len() {
            assert(all[k] == textures[k]);
        }
    }
}

/// Values that `generator` gives can follow others that it gave.
pub proof fn lemma_made_by_add<T: FnMut() -> u32>(generator: T, first: Seq<u32>, next: Seq<u32>)
    requires
        made_by(generator, first),
        made_by(generator, next),
    ensures
        made_by(generator, first + next),
{
    let all = first + next;
    assert forall|k: int| 0 <= k < all.len() implies call_ensures(
        generator,
        (),
        #[trigger] all[k],
    ) by {
        if k < first.len() {
            assert(all[k] == first[k]);
        } else {
            assert(all[k] == next[k - first.len()]);
        }
    }
}

/// A graphic with pixels reaches into a row at least.
pub proof fn lemma_rows_positive(g: GraphicDataView, size: SizeInfo)
    requires
        size.wf(),
        g.height > 0,
    ensures
        g.rows(size) >= 1,
        g.bottom(size) >= g.line,
{
    crate::geometry::lemma_rows_bounds(g.height as int, size.cell_height as int);
    assert(g.rows(size) >= 1) by (nonlinear_arith)
        requires
            g.rows(size) * size.cell_height >= g.height,
            g.height > 0,
            size.cell_height > 0,
    ;
}

/// Cutting a graphic after `height` rows of pixels gives two graphics whose
/// buffers hold their pixels.
pub proof fn lemma_cut(g: GraphicDataView, height: int, line: int)
    requires
        g.wf(),
        0 <= height <= g.height,
    ensures
        height * g.stride() <= g.pixels.len(),
        height * g.width * g.color_type.spec_bytes_per_pixel() == height * g.stride(),
        height * g.width <= height * g.stride(),
        g.head(height).wf(),
        g.tail(height, line).wf(),
        g.head(height).pixels + g.tail(height, line).pixels == g.pixels,
{
    let stride = g.stride();
    let total = g.height as int;
    let bpp = g.color_type.spec_bytes_per_pixel() as int;
    assert(height * stride <= total * stride) by (nonlinear_arith)
        requires
            0 <= height <= total,
            stride >= 0,
    ;
    assert((total - height) * stride == total * stride - height * stride) by (nonlinear_arith);
    assert(height * g.width * bpp == height * (g.width * bpp)) by (nonlinear_arith);
    assert(height * g.width <= height * g.width * bpp) by (nonlinear_arith)
        requires
            height >= 0,
            g.width >= 0,
            bpp >= 1,
    ;
    assert(g.head(height).pixels + g.tail(height, line).pixels =~= g.pixels);
}

/// What holds of the graphic `a` that covers the top of `g`, and of the
/// texture that `g` is copied into, whatever the height of the texture of
/// `a`.
pub proof fn lemma_target(a: Attachment, size: SizeInfo, g: GraphicDataView, texture: u32)
    requires
        size.wf(),
        g.wf(),
        g.right(size) <= usize::MAX,
        a.line <= g.line <= a.item.bottom,
        surface_bounds(a, size),
        (g.line - a.line) * size.cell_height <= target(a, size, g, 0).height,
    ensures
        ({
            let item = target(a, size, g, texture);
            let y = (g.line - a.line) * size.cell_height;
            &&& 1 <= a.rows() <= usize::MAX
            &&& size.cell_width * a.item.column <= usize::MAX
            &&& size.cell_width * g.column <= usize::MAX
            &&& size.cell_width * item.column <= size.cell_width * g.column
            &&& size.cell_width * item.column <= size.cell_width * a.item.column
            &&& (g.column - item.column) * size.cell_width == size.cell_width * g.column
                - size.cell_width * item.column
            &&& (a.item.column - item.column) * size.cell_width == size.cell_width * a.item.column
                - size.cell_width * item.column
            &&& item.column <= g.column
            &&& item.bottom == a.item.bottom
            &&& item.height == target(a, size, g, 0).height
            &&& need_resize(a.item, size, g) ==> item.height == a.rows() * size.cell_height
                && item.width == surface_right(item, size) - size.cell_width * item.column
            &&& surface_right(item, size) <= usize::MAX
            &&& surface_right(item, size) >= g.right(size)
            &&& (g.column - item.column) * size.cell_width + g.width <= item.width
            &&& 0 <= g.line - a.line < a.rows()
            &&& 0 <= y <= item.height
            &&& space(a, size, g) == item.height - y
            &&& surface_bounds(Attachment { line: a.line, item }, size)
        }),
{
    let c = size.cell_height as int;
    let cw = size.cell_width as int;
    let d = g.line - a.line;
    assert(a.rows() <= a.rows() * c) by (nonlinear_arith)
        requires
            a.rows() >= 1,
            c >= 1,
    ;
    assert(cw * a.item.column >= 0 && cw * g.column >= 0) by (nonlinear_arith)
        requires
            cw >= 0,
            a.item.column >= 0,
            g.column >= 0,
    ;
    let item = target(a, size, g, texture);
    assert(cw * item.column <= cw * g.column && cw * item.column <= cw * a.item.column
        && cw * item.column >= 0) by (nonlinear_arith)
        requires
            cw >= 0,
            0 <= item.column <= g.column,
            item.column <= a.item.column,
    ;
    assert((g.column - item.column) * cw == cw * g.column - cw * item.column) by (nonlinear_arith);
    assert((a.item.column - item.column) * cw == cw * a.item.column - cw * item.column)
        by (nonlinear_arith);
    assert(d * c < a.rows() * c && d * c >= 0) by (nonlinear_arith)
        requires
            0 <= d < a.rows(),
            c > 0,
    ;
}

/// What holds once the rows of `g` above the first graphic that it meets
/// have become a graphic of their own, on its way down to `bottom`: what is
/// left of `g` can go on, and meets that graphic next.
pub proof fn lemma_go_above(
    s: Seq<Attachment>,
    size: SizeInfo,
    g: GraphicDataView,
    bottom: int,
    texture: u32,
)
    requires
        can_go(s, size, g, bottom),
        g.height > 0,
        reach(s, g.line as int) < s.len(),
        g.line < s[reach(s, g.line as int)].line <= bottom,
    ensures
        ({
            let i = reach(s, g.line as int);
            let a = s[i];
            let height = (a.line - g.line) * size.cell_height;
            let upper = g.head(height);
            let rest = g.tail(height, a.line as int);
            let entries = s.insert(
                i,
                Attachment { line: g.line, item: upper.item_to(a.line - 1, size, texture) },
            );
            &&& 0 < a.line - g.line <= height <= g.height
            &&& crate::attachments::vacant(s, g.line as int, a.line - 1)
            &&& rest.line == a.line
            &&& can_go(entries, size, rest, bottom)
            &&& reach(entries, rest.line as int) == i + 1
            &&& entries.len() == s.len() + 1
            &&& entries[i + 1] == a
        }),
{
    let i = reach(s, g.line as int);
    let a = s[i];
    let c = size.cell_height as int;
    let k = a.line - g.line;
    let height = k * c;
    let upper = g.head(height);
    let rest = g.tail(height, a.line as int);
    let e = Attachment { line: g.line, item: upper.item_to(a.line - 1, size, texture) };
    let entries = s.insert(i, e);
    crate::attachments::lemma_reach(s, g.line as int);
    assert(s.skip(i)[0] == a);
    assert(k <= k * c) by (nonlinear_arith)
        requires
            k >= 1,
            c >= 1,
    ;
    lemma_cut(g, height, a.line as int);
    crate::attachments::lemma_reach_vacant(s, g.line as int, a.line - 1);
    crate::attachments::lemma_insert_ordered(s, i, e);
    assert forall|j: int|
        0 <= j < entries.len() && (#[trigger] entries[j]).meets(
            rest.line as int,
            bottom,
        ) implies surface_bounds(entries[j], size) by {
        if j < i {
            assert(entries[j] == s[j]);
        } else if j > i {
            assert(entries[j] == s[j - 1]);
            assert(s[j - 1].meets(g.line as int, bottom));
        }
    }
    assert forall|j: int| 0 <= j < i + 1 implies (#[trigger] entries[j]).item.bottom
        < rest.line by {
        if j < i {
            assert(entries[j] == s[j]);
        }
    }
    assert(entries[i + 1] == s[i]);
    crate::attachments::lemma_reach_is(entries, rest.line as int, i + 1);
    assert(entries.skip(i + 1) =~= s.skip(i));
}

/// What holds once the rows of pixels of `g` that fit in the graphic that
/// covers its top have been copied, and rows of pixels are left, on its way
/// down to `bottom`: what is left of `g` can go on below that graphic.
pub proof fn lemma_go_across(
    s: Seq<Attachment>,
    size: SizeInfo,
    g: GraphicDataView,
    bottom: int,
    texture: u32,
)
    requires
        can_go(s, size, g, bottom),
        g.height > 0,
        reach(s, g.line as int) < s.len(),
        s[reach(s, g.line as int)].line <= g.line,
        space(s[reach(s, g.line as int)], size, g) < g.height,
    ensures
        ({
            let i = reach(s, g.line as int);
            let a = s[i];
            let fits = space(a, size, g);
            let rest = g.tail(fits, a.item.bottom + 1);
            let entries = s.update(
                i,
                Attachment { line: a.line, item: target(a, size, g, texture) },
            );
            &&& 0 <= fits < g.height
            &&& a.item.bottom < bottom
            &&& rest.height > 0
            &&& rest.line == a.item.bottom + 1
            &&& can_go(entries, size, rest, bottom)
            &&& reach(entries, rest.line as int) == i + 1
        }),
{
    let i = reach(s, g.line as int);
    let a = s[i];
    crate::attachments::lemma_reach(s, g.line as int);
    assert(s.skip(i)[0] == a);
    assert(a.meets(g.line as int, bottom));
    lemma_target(a, size, g, texture);
    let item = target(a, size, g, texture);
    let fits = space(a, size, g);
    let rest = g.tail(fits, a.item.bottom + 1);
    let e = Attachment { line: a.line, item };
    let entries = s.update(i, e);
    lemma_cut(g, fits, a.item.bottom + 1);
    assert forall|x: int, y: int| 0 <= x < y < entries.len() implies (
    #[trigger] entries[x]).item.bottom < (#[trigger] entries[y]).line by {
        assert(s[x].item.bottom < s[y].line);
    }
    assert forall|x: int| 0 <= x < entries.len() implies (#[trigger] entries[x]).line
        <= entries[x].item.bottom by {
        assert(s[x].line <= s[x].item.bottom);
    }
    assert forall|j: int|
        0 <= j < entries.len() && (#[trigger] entries[j]).meets(
            rest.line as int,
            bottom,
        ) implies surface_bounds(entries[j], size) by {
        if j != i {
            assert(entries[j] == s[j]);
            assert(s[j].meets(g.line as int, bottom));
        }
    }
    assert forall|j: int| 0 <= j < i + 1 implies (#[trigger] entries[j]).item.bottom
        < rest.line by {
        if j < i {
            assert(entries[j] == s[j]);
        }
    }
    if i + 1 < entries.len() {
        assert(s[i].item.bottom < s[i + 1].line);
        assert(s[i + 1].line <= s[i + 1].item.bottom);
    }
    crate::attachments::lemma_reach_is(entries, rest.line as int, i + 1);
    assert(entries.skip(i + 1) =~= s.skip(i).skip(1));
}

/// What holds of a graphic whose top no graphic covers any more, on its way
/// down to `bottom`, and which ends above the next graphic: its rows are free.
pub proof fn lemma_go_free(s: Seq<Attachment>, size: SizeInfo, g: GraphicDataView, bottom: int)
    requires
        can_go(s, size, g, bottom),
        g.height > 0,
        reach(s, g.line as int) < s.len() ==> s[reach(s, g.line as int)].line > bottom,
    ensures
        g.line <= bottom,
        crate::attachments::vacant(s, g.line as int, bottom),
        ordered(
            s.insert(
                reach(s, g.line as int),
                Attachment { line: g.line, item: g.item_to(bottom, size, 0) },
            ),
        ),
{
    crate::attachments::lemma_reach_vacant(s, g.line as int, bottom);
    crate::attachments::lemma_insert_ordered(
        s,
        reach(s, g.line as int),
        Attachment { line: g.line, item: g.item_to(bottom, size, 0) },
    );
}

/// What holds of what is left of a graphic, on its way down to `bottom`, where
/// the first graphic that it meets covers its top.
pub proof fn lemma_go_into(s: Seq<Attachment>, size: SizeInfo, g: GraphicDataView, bottom: int)
    requires
        can_go(s, size, g, bottom),
        g.height > 0,
        reach(s, g.line as int) < s.len(),
        s[reach(s, g.line as int)].line <= g.line,
    ensures
        ({
            let a = s[reach(s, g.line as int)];
            &&& a.line <= g.line <= a.item.bottom
            &&& surface_bounds(a, size)
            &&& (g.line - a.line) * size.cell_height <= target(a, size, g, 0).height
            &&& space(a, size, g) < g.height ==> a.item.bottom < bottom
        }),
{
    let i = reach(s, g.line as int);
    crate::attachments::lemma_reach(s, g.line as int);
    assert(s.skip(i)[0] == s[i]);
    assert(s[i].meets(g.line as int, bottom));
}

/// What holds once the rows of `g` above the first graphic that it meets
/// have become a graphic of their own: the rest of `g` can be attached, ends
/// on the same row, and meets that graphic next.
pub proof fn lemma_upper_step(s: Seq<Attachment>, size: SizeInfo, g: GraphicDataView, texture: u32)
    requires
        can_attach_aligned(s, size, g),
        g.width > 0,
        g.height > 0,
        reach(s, g.line as int) < s.len(),
        g.line < s[reach(s, g.line as int)].line <= g.bottom(size),
    ensures
        ({
            let i = reach(s, g.line as int);
            let a = s[i];
            let height = (a.line - g.line) * size.cell_height;
            let upper = g.head(height);
            let rest = g.tail(height, a.line as int);
            let entries = s.insert(
                i,
                Attachment { line: g.line, item: upper.item(size, texture) },
            );
            &&& 0 < a.line - g.line <= height < g.height
            &&& upper.bottom(size) == a.line - 1
            &&& crate::attachments::vacant(s, g.line as int, a.line - 1)
            &&& rest.height > 0
            &&& rest.bottom(size) == g.bottom(size)
            &&& can_attach_aligned(entries, size, rest)
            &&& reach(entries, rest.line as int) == i + 1
        }),
{
    let i = reach(s, g.line as int);
    let a = s[i];
    let c = size.cell_height as int;
    let k = a.line - g.line;
    let height = k * c;
    let upper = g.head(height);
    let rest = g.tail(height, a.line as int);
    let entries = s.insert(i, Attachment { line: g.line, item: upper.item(size, texture) });
    crate::attachments::lemma_reach(s, g.line as int);
    crate::geometry::lemma_rows_bounds(g.height as int, c);
    let rows = g.rows(size);
    assert(a.meets(g.line as int, g.bottom(size)));
    lemma_band(a, size, g);
    lemma_cut(g, height, a.line as int);
    assert((k - 1) * c < k * c <= k * c) by (nonlinear_arith)
        requires
            c > 0,
    ;
    assert(k <= k * c) by (nonlinear_arith)
        requires
            k >= 1,
            c >= 1,
    ;
    crate::geometry::lemma_rows_unique(height, c, k);
    assert((rows - k - 1) * c == (rows - 1) * c - k * c && (rows - k) * c == rows * c - k * c)
        by (nonlinear_arith);
    crate::geometry::lemma_rows_unique(g.height - height, c, rows - k);
    crate::attachments::lemma_reach_vacant(s, g.line as int, a.line - 1);
    crate::attachments::lemma_insert_ordered(
        s,
        i,
        Attachment { line: g.line, item: upper.item(size, texture) },
    );
    assert forall|j: int|
        0 <= j < entries.len() && (#[trigger] entries[j]).meets(
            rest.line as int,
            rest.bottom(size),
        ) implies surface_fits(entries[j], size) by {
        if j < i {
            assert(entries[j] == s[j]);
        } else if j > i {
            assert(entries[j] == s[j - 1]);
            assert(s[j - 1].meets(g.line as int, g.bottom(size)));
        }
    }
    assert forall|j: int| 0 <= j < i + 1 implies (#[trigger] entries[j]).item.bottom
        < rest.line by {
        if j < i {
            assert(entries[j] == s[j]);
        }
    }
    assert(entries[i + 1] == s[i]);
    crate::attachments::lemma_reach_is(entries, rest.line as int, i + 1);
    lemma_go_above(s, size, g, g.bottom(size), texture);
}

/// What holds of the graphic `a` that covers the top of `g`, and of the
/// texture that `g` is copied into.
pub proof fn lemma_surface(a: Attachment, size: SizeInfo, g: GraphicDataView, texture: u32)
    requires
        size.wf(),
        g.wf(),
        g.height > 0,
        g.right(size) <= usize::MAX,
        a.line <= g.line <= a.item.bottom,
        surface_fits(a, size),
    ensures
        ({
            let item = if need_resize(a.item, size, g) {
                widened(a, size, g, texture)
            } else {
                a.item
            };
            let y = (g.line - a.line) * size.cell_height;
            let space = item.height - y;
            &&& 1 <= a.rows() <= usize::MAX
            &&& size.cell_width * a.item.column <= usize::MAX
            &&& size.cell_width * g.column <= usize::MAX
            &&& size.cell_width * item.column <= size.cell_width * g.column
            &&& size.cell_width * item.column <= size.cell_width * a.item.column
            &&& (g.column - item.column) * size.cell_width == size.cell_width * g.column
                - size.cell_width * item.column
            &&& (a.item.column - item.column) * size.cell_width == size.cell_width * a.item.column
                - size.cell_width * item.column
            &&& item.column <= g.column
            &&& item.bottom == a.item.bottom
            &&& item.height == a.rows() * size.cell_height
            &&& surface_right(item, size) <= usize::MAX
            &&& surface_right(item, size) >= g.right(size)
            &&& need_resize(a.item, size, g) ==> item.width == surface_right(item, size)
                - size.cell_width * item.column
            &&& 0 <= g.line - a.line < a.rows()
            &&& 0 <= y < item.height
            &&& space == (a.item.bottom - g.line + 1) * size.cell_height
            &&& (space >= g.height <==> a.item.bottom >= g.bottom(size))
            &&& surface_fits(Attachment { line: a.line, item }, size)
        }),
{
    let c = size.cell_height as int;
    let cw = size.cell_width as int;
    let d = g.line - a.line;
    crate::geometry::lemma_rows_bounds(g.height as int, c);
    assert(a.meets(g.line as int, g.bottom(size)));
    lemma_band(a, size, g);
    assert(a.rows() <= a.rows() * c) by (nonlinear_arith)
        requires
            a.rows() >= 1,
            c >= 1,
    ;
    assert(cw * a.item.column >= 0 && cw * g.column >= 0) by (nonlinear_arith)
        requires
            cw >= 0,
            a.item.column >= 0,
            g.column >= 0,
    ;
    let item = if need_resize(a.item, size, g) {
        widened(a, size, g, texture)
    } else {
        a.item
    };
    assert(cw * item.column <= cw * g.column && cw * item.column <= cw * a.item.column
        && cw * item.column >= 0) by (nonlinear_arith)
        requires
            cw >= 0,
            0 <= item.column <= g.column,
            item.column <= a.item.column,
    ;
    assert((g.column - item.column) * cw == cw * g.column - cw * item.column) by (nonlinear_arith);
    assert((a.item.column - item.column) * cw == cw * a.item.column - cw * item.column)
        by (nonlinear_arith);
    assert(d * c < a.rows() * c && d * c >= 0) by (nonlinear_arith)
        requires
            0 <= d < a.rows(),
            c > 0,
    ;
    if need_resize(a.item, size, g) {
        assert(item.height == a.rows() * c);
        assert(item.height % size.cell_height == 0) by {
            vstd::arithmetic::div_mod::lemma_mod_multiples_basic(a.rows(), c);
        }
    }
}

/// What holds once the rows of pixels of `g` that fit in the graphic that
/// covers its top have been copied, and rows of pixels are left: the rest of
/// `g` can be attached, ends on the same row, and meets the next graphic.
pub proof fn lemma_lower_step(s: Seq<Attachment>, size: SizeInfo, g: GraphicDataView, texture: u32)
    requires
        can_attach_aligned(s, size, g),
        g.width > 0,
        g.height > 0,
        reach(s, g.line as int) < s.len(),
        s[reach(s, g.line as int)].line <= g.line,
        s[reach(s, g.line as int)].item.bottom < g.bottom(size),
    ensures
        ({
            let i = reach(s, g.line as int);
            let a = s[i];
            let item = if need_resize(a.item, size, g) {
                widened(a, size, g, texture)
            } else {
                a.item
            };
            let space = item.height - (g.line - a.line) * size.cell_height;
            let rest = g.tail(space, a.item.bottom + 1);
            let entries = s.update(i, Attachment { line: a.line, item });
            &&& 0 < space < g.height
            &&& rest.height > 0
            &&& rest.line == a.item.bottom + 1
            &&& rest.bottom(size) == g.bottom(size)
            &&& can_attach_aligned(entries, size, rest)
            &&& reach(entries, rest.line as int) == i + 1
        }),
{
    let i = reach(s, g.line as int);
    let a = s[i];
    let c = size.cell_height as int;
    crate::attachments::lemma_reach(s, g.line as int);
    assert(a.meets(g.line as int, g.bottom(size)));
    lemma_surface(a, size, g, texture);
    let item = if need_resize(a.item, size, g) {
        widened(a, size, g, texture)
    } else {
        a.item
    };
    let m = a.item.bottom - g.line + 1;
    let space = item.height - (g.line - a.line) * c;
    let rest = g.tail(space, a.item.bottom + 1);
    let entries = s.update(i, Attachment { line: a.line, item });
    let rows = g.rows(size);
    crate::geometry::lemma_rows_bounds(g.height as int, c);
    lemma_cut(g, space, a.item.bottom + 1);
    assert((rows - m - 1) * c == (rows - 1) * c - m * c && (rows - m) * c == rows * c - m * c)
        by (nonlinear_arith);
    crate::geometry::lemma_rows_unique(g.height - space, c, rows - m);
    assert forall|x: int, y: int| 0 <= x < y < entries.len() implies (
    #[trigger] entries[x]).item.bottom < (#[trigger] entries[y]).line by {
        assert(s[x].item.bottom < s[y].line);
    }
    assert forall|x: int| 0 <= x < entries.len() implies (#[trigger] entries[x]).line
        <= entries[x].item.bottom by {
        assert(s[x].line <= s[x].item.bottom);
    }
    assert forall|j: int|
        0 <= j < entries.len() && (#[trigger] entries[j]).meets(
            rest.line as int,
            rest.bottom(size),
        ) implies surface_fits(entries[j], size) by {
        if j != i {
            assert(entries[j] == s[j]);
            assert(s[j].meets(g.line as int, g.bottom(size)));
        }
    }
    assert forall|j: int| 0 <= j < i + 1 implies (#[trigger] entries[j]).item.bottom
        < rest.line by {
        if j < i {
            assert(entries[j] == s[j]);
        }
    }
    if i + 1 < entries.len() {
        assert(s[i].item.bottom < s[i + 1].line);
        assert(s[i + 1].line <= s[i + 1].item.bottom);
    }
    crate::attachments::lemma_reach_is(entries, rest.line as int, i + 1);
    lemma_go_across(s, size, g, g.bottom(size), texture);
}

/// The texture that `g` is copied into, where the graphic `a` covers the top
/// of `g`: that of `a`, or `texture` if it has to be replaced.
pub open spec fn target(a: Attachment, size: SizeInfo, g: GraphicDataView, texture: u32)
    -> GraphicItem {
    if need_resize(a.item, size, g) {
        widened(a, size, g, texture)
    } else {
        a.item
    }
}

/// Number of textures that copying `g` into the texture of `a` takes.
pub open spec fn taken(a: Attachment, size: SizeInfo, g: GraphicDataView) -> nat {
    if need_resize(a.item, size, g) {
        1
    } else {
        0
    }
}

/// Rows of pixels between the top of `g` and the bottom of the texture that
/// `g` is copied into, where the graphic `a` covers the top of `g`.
pub open spec fn space(a: Attachment, size: SizeInfo, g: GraphicDataView) -> int {
    target(a, size, g, 0).height - (g.line - a.line) * size.cell_height
}

/// The commands that copy `piece`, the first rows of pixels of `g`, into the
/// texture of the graphic `a`, which covers the top of `g`.
pub open spec fn copy_commands(
    a: Attachment,
    size: SizeInfo,
    g: GraphicDataView,
    texture: u32,
    piece: GraphicDataView,
) -> Seq<CommandView> {
    let item = target(a, size, g, texture);
    let first: Seq<CommandView> = if need_resize(a.item, size, g) {
        seq![CommandView::ResizeTexture(resize_of(a, size, g, texture))]
    } else {
        Seq::empty()
    };
    first.push(
        CommandView::BlitGraphic(
            piece.blit(
                item.texture.0,
                (g.column - item.column) * size.cell_width,
                (g.line - a.line) * size.cell_height,
            ),
        ),
    )
}

/// The rows above a row that a graphic reaches into take fewer rows of pixels
/// than the graphic has. Cut there, the graphic gives a graphic that ends on
/// the row before, and one that ends where the graphic ends.
pub proof fn lemma_slice_rows(g: GraphicDataView, size: SizeInfo, line: int)
    requires
        size.wf(),
        g.line < line <= g.bottom(size) <= i64::MAX,
    ensures
        ({
            let height = (line - g.line) * size.cell_height;
            &&& 0 < height < g.height
            &&& g.head(height).bottom(size) == line - 1
            &&& g.tail(height, line).bottom(size) == g.bottom(size)
            &&& g.head(height).item(size, 0) == g.head(height).item_to(line - 1, size, 0)
        }),
{
    let c = size.cell_height as int;
    let k = line - g.line;
    let rows = g.rows(size);
    crate::geometry::lemma_rows_bounds(g.height as int, c);
    assert(0 < k * c <= (rows - 1) * c) by (nonlinear_arith)
        requires
            0 < k <= rows - 1,
            c > 0,
    ;
    assert((k - 1) * c < k * c) by (nonlinear_arith)
        requires
            c > 0,
    ;
    crate::geometry::lemma_rows_unique(k * c, c, k);
    assert((rows - k - 1) * c == (rows - 1) * c - k * c && (rows - k) * c == rows * c - k * c)
        by (nonlinear_arith);
    crate::geometry::lemma_rows_unique(g.height - k * c, c, rows - k);
}

/// A graphic that starts above the first graphic that it meets gives one
/// `InitTexture` for the rows above that graphic, and then what attaching the
/// rest of it gives.
pub proof fn lemma_attach_above(
    s: Seq<Attachment>,
    size: SizeInfo,
    g: GraphicDataView,
    textures: Seq<u32>,
)
    requires
        can_attach(s, size, g),
        g.width > 0,
        g.height > 0,
        reach(s, g.line as int) < s.len(),
        g.line < s[reach(s, g.line as int)].line <= g.bottom(size),
    ensures
        ({
            let i = reach(s, g.line as int);
            let height = (s[i].line - g.line) * size.cell_height;
            let upper = g.head(height);
            let entries = s.insert(
                i,
                Attachment { line: g.line, item: upper.item(size, textures[0]) },
            );
            &&& 0 < height < g.height
            &&& can_attach(entries, size, g.tail(height, s[i].line as int))
            &&& attach(s, size, g, textures) == attach(
                entries,
                size,
                g.tail(height, s[i].line as int),
                textures.skip(1),
            ).after(seq![CommandView::InitTexture(textures[0], upper)], 1)
        }),
{
    let i = reach(s, g.line as int);
    lemma_slice_rows(g, size, s[i].line as int);
    lemma_go_above(s, size, g, g.bottom(size), textures[0]);
}

/// A graphic whose top is covered by a graphic, and which ends in that graphic
/// or fits into its texture, gives the commands that copy it into that
/// texture, and no others.
pub proof fn lemma_attach_inside(
    s: Seq<Attachment>,
    size: SizeInfo,
    g: GraphicDataView,
    textures: Seq<u32>,
)
    requires
        can_attach(s, size, g),
        g.width > 0,
        g.height > 0,
        reach(s, g.line as int) < s.len(),
        s[reach(s, g.line as int)].line <= g.line,
        s[reach(s, g.line as int)].item.bottom >= g.bottom(size) || space(
            s[reach(s, g.line as int)],
            size,
            g,
        ) >= g.height,
    ensures
        ({
            let i = reach(s, g.line as int);
            let a = s[i];
            attach(s, size, g, textures) == (Attached {
                entries: s.update(
                    i,
                    Attachment { line: a.line, item: target(a, size, g, textures[0]) },
                ),
                commands: copy_commands(a, size, g, textures[0], g),
                textures: taken(a, size, g),
            })
        }),
{
    lemma_rows_positive(g, size);
    lemma_go_into(s, size, g, g.bottom(size));
}

/// A graphic whose top is covered by a graphic that ends above its bottom, on
/// a grid whose cells kept their height, gives the commands that copy the rows
/// of pixels that fit into the texture of that graphic, and then what
/// attaching the rest of it gives.
pub proof fn lemma_attach_across(
    s: Seq<Attachment>,
    size: SizeInfo,
    g: GraphicDataView,
    textures: Seq<u32>,
)
    requires
        can_attach_aligned(s, size, g),
        g.width > 0,
        g.height > 0,
        reach(s, g.line as int) < s.len(),
        s[reach(s, g.line as int)].line <= g.line,
        s[reach(s, g.line as int)].item.bottom < g.bottom(size),
    ensures
        ({
            let i = reach(s, g.line as int);
            let a = s[i];
            let fits = space(a, size, g);
            attach(s, size, g, textures) == attach(
                s.update(i, Attachment { line: a.line, item: target(a, size, g, textures[0]) }),
                size,
                g.tail(fits, a.item.bottom + 1),
                textures.skip(taken(a, size, g) as int),
            ).after(copy_commands(a, size, g, textures[0], g.head(fits)), taken(a, size, g))
        }),
{
    let i = reach(s, g.line as int);
    let a = s[i];
    crate::attachments::lemma_reach(s, g.line as int);
    assert(a.meets(g.line as int, g.bottom(size)));
    lemma_surface(a, size, g, textures[0]);
    lemma_surface(a, size, g, 0);
    lemma_lower_step(s, size, g, textures[0]);
    lemma_go_across(s, size, g, g.bottom(size), textures[0]);
}

/// A graphic that meets no other gives one `InitTexture` with all of it, and
/// is attached as it is.
pub proof fn lemma_attach_free(
    s: Seq<Attachment>,
    size: SizeInfo,
    g: GraphicDataView,
    textures: Seq<u32>,
)
    requires
        can_attach(s, size, g),
        g.width > 0,
        g.height > 0,
        crate::attachments::vacant(s, g.line as int, g.bottom(size)),
    ensures
        attach(s, size, g, textures) == (Attached {
            entries: s.insert(
                reach(s, g.line as int),
                Attachment { line: g.line, item: g.item(size, textures[0]) },
            ),
            commands: seq![CommandView::InitTexture(textures[0], g)],
            textures: 1,
        }),
{
    let i = reach(s, g.line as int);
    crate::attachments::lemma_reach(s, g.line as int);
    if i < s.len() {
        assert(!s[i].meets(g.line as int, g.bottom(size)));
    }
}
/// On a grid whose cells have kept their height, what is left of a graphic
/// goes on down to its last row, whatever graphics it meets.
proof fn lemma_fits_goes(s: Seq<Attachment>, size: SizeInfo, g: GraphicDataView, j: int)
    requires
        size.wf(),
        ordered(s),
        g.wf(),
        g.bottom(size) <= i64::MAX,
        g.right(size) <= usize::MAX,
        j == reach(s, g.line as int),
        forall|i: int|
            0 <= i < s.len() && (#[trigger] s[i]).meets(g.line as int, g.bottom(size))
                ==> surface_fits(s[i], size),
    ensures
        goes(s.skip(j), size, g, g.bottom(size)),
    decreases s.len() - j, 1int,
{
    let rest = s.skip(j);
    let bottom = g.bottom(size);
    crate::attachments::lemma_reach(s, g.line as int);
    if g.height > 0 && j < s.len() && s[j].line <= bottom {
        let a = s[j];
        assert(rest[0] == a);
        assert(a.meets(g.line as int, bottom));
        if g.line < a.line {
            lemma_slice_rows(g, size, a.line as int);
            let height = (a.line - g.line) * size.cell_height;
            let lower = g.tail(height, a.line as int);
            lemma_cut(g, height, a.line as int);
            assert forall|i: int| 0 <= i < j implies (#[trigger] s[i]).item.bottom
                < lower.line by {}
            crate::attachments::lemma_reach_is(s, lower.line as int, j);
            lemma_fits_enters(s, size, lower, j);
        } else {
            lemma_fits_enters(s, size, g, j);
        }
    }
}

/// On a grid whose cells have kept their height, what is left of a graphic
/// goes on down to its last row from the graphic that covers its top.
proof fn lemma_fits_enters(s: Seq<Attachment>, size: SizeInfo, g: GraphicDataView, j: int)
    requires
        size.wf(),
        ordered(s),
        g.wf(),
        g.height > 0,
        g.bottom(size) <= i64::MAX,
        g.right(size) <= usize::MAX,
        j == reach(s, g.line as int),
        j < s.len(),
        s[j].line <= g.line,
        forall|i: int|
            0 <= i < s.len() && (#[trigger] s[i]).meets(g.line as int, g.bottom(size))
                ==> surface_fits(s[i], size),
    ensures
        enters(s.skip(j), size, g, g.bottom(size)),
    decreases s.len() - j, 0int,
{
    let rest = s.skip(j);
    let bottom = g.bottom(size);
    let a = s[j];
    let c = size.cell_height as int;
    crate::attachments::lemma_reach(s, g.line as int);
    lemma_rows_positive(g, size);
    assert(rest[0] == a);
    assert(a.meets(g.line as int, bottom));
    lemma_surface(a, size, g, 0);
    let fits = space(a, size, g);
    if fits < g.height {
        let lower = g.tail(fits, a.item.bottom + 1);
        let m = a.item.bottom - g.line + 1;
        let rows = g.rows(size);
        crate::geometry::lemma_rows_bounds(g.height as int, c);
        lemma_cut(g, fits, a.item.bottom + 1);
        assert((rows - m - 1) * c == (rows - 1) * c - m * c && (rows - m) * c == rows * c - m * c)
            by (nonlinear_arith);
        crate::geometry::lemma_rows_unique(g.height - fits, c, rows - m);
        assert(lower.bottom(size) == bottom);
        assert forall|i: int| 0 <= i < j + 1 implies (#[trigger] s[i]).item.bottom
            < lower.line by {}
        if j + 1 < s.len() {
            assert(s[j].item.bottom < s[j + 1].line);
            assert(s[j + 1].line <= s[j + 1].item.bottom);
        }
        crate::attachments::lemma_reach_is(s, lower.line as int, j + 1);
        assert forall|i: int|
            0 <= i < s.len() && (#[trigger] s[i]).meets(
                lower.line as int,
                lower.bottom(size),
            ) implies surface_fits(s[i], size) by {
            assert(s[i].meets(g.line as int, bottom));
        }
        lemma_fits_goes(s, size, lower, j + 1);
        assert(rest.skip(1) =~= s.skip(j + 1));
    }
}

/// On a grid whose cells have kept their height, a graphic can be attached
/// wherever its last row and its right side can be computed, and the sizes in
/// pixels of the graphics that it meets: nothing else is asked of it.
pub proof fn lemma_fits_can_attach(s: Seq<Attachment>, size: SizeInfo, g: GraphicDataView)
    requires
        size.wf(),
        ordered(s),
        g.wf(),
        g.width > 0 && g.height > 0 ==> {
            &&& g.bottom(size) <= i64::MAX
            &&& g.right(size) <= usize::MAX
            &&& forall|i: int|
                0 <= i < s.len() && (#[trigger] s[i]).meets(g.line as int, g.bottom(size))
                    ==> surface_fits(s[i], size)
        },
    ensures
        can_attach_aligned(s, size, g),
{
    if g.width > 0 && g.height > 0 {
        lemma_rows_positive(g, size);
        lemma_fits_goes(s, size, g, reach(s, g.line as int));
    }
}

/// Attaching `g0` to `s0` comes to the commands `emitted`, which took the
/// textures `issued`, followed by attaching what is left of it, `g`, to `s`
/// down to the row `bottom`.
pub open spec fn continues(
    s0: Seq<Attachment>,
    size: SizeInfo,
    g0: GraphicDataView,
    issued: Seq<u32>,
    emitted: Seq<CommandView>,
    s: Seq<Attachment>,
    g: GraphicDataView,
    bottom: int,
) -> bool {
    forall|rest: Seq<u32>| #[trigger]
        attach(s0, size, g0, issued + rest) == attach_rows(s, size, g, bottom, rest).after(
            emitted,
            issued.len(),
        )
}

/// The textures taken so far, once `g` has been copied into the texture of
/// `a`, which took `texture` if it had to be replaced.
pub open spec fn issued_with(
    issued: Seq<u32>,
    a: Attachment,
    size: SizeInfo,
    g: GraphicDataView,
    texture: u32,
) -> Seq<u32> {
    if need_resize(a.item, size, g) {
        issued.push(texture)
    } else {
        issued
    }
}

/// Attaching a graphic with pixels starts with attaching it down to the last
/// row that it reaches into.
pub proof fn lemma_continues_start(s: Seq<Attachment>, size: SizeInfo, g: GraphicDataView)
    requires
        g.width > 0,
        g.height > 0,
    ensures
        continues(s, size, g, Seq::empty(), Seq::empty(), s, g, g.bottom(size)),
{
    assert forall|rest: Seq<u32>| #[trigger]
        attach(s, size, g, Seq::<u32>::empty() + rest) == attach_rows(
            s,
            size,
            g,
            g.bottom(size),
            rest,
        ).after(Seq::empty(), 0) by {
        assert(Seq::<u32>::empty() + rest =~= rest);
        let inner = attach_rows(s, size, g, g.bottom(size), rest);
        assert(inner.after(Seq::empty(), 0) =~= inner);
    }
}

/// The rows of `g` above the first graphic that it meets are attached with
/// `texture`, and the rest of `g` is what is left to attach.
pub proof fn lemma_continues_above(
    s0: Seq<Attachment>,
    size: SizeInfo,
    g0: GraphicDataView,
    issued: Seq<u32>,
    emitted: Seq<CommandView>,
    s: Seq<Attachment>,
    g: GraphicDataView,
    bottom: int,
    texture: u32,
)
    requires
        continues(s0, size, g0, issued, emitted, s, g, bottom),
        can_go(s, size, g, bottom),
        g.height > 0,
        reach(s, g.line as int) < s.len(),
        g.line < s[reach(s, g.line as int)].line <= bottom,
    ensures
        ({
            let i = reach(s, g.line as int);
            let height = (s[i].line - g.line) * size.cell_height;
            let upper = g.head(height);
            continues(
                s0,
                size,
                g0,
                issued.push(texture),
                emitted.push(CommandView::InitTexture(texture, upper)),
                s.insert(
                    i,
                    Attachment { line: g.line, item: upper.item_to(s[i].line - 1, size, texture) },
                ),
                g.tail(height, s[i].line as int),
                bottom,
            )
        }),
{
    let i = reach(s, g.line as int);
    let height = (s[i].line - g.line) * size.cell_height;
    let upper = g.head(height);
    let entries = s.insert(
        i,
        Attachment { line: g.line, item: upper.item_to(s[i].line - 1, size, texture) },
    );
    let lower = g.tail(height, s[i].line as int);
    let command = CommandView::InitTexture(texture, upper);
    lemma_go_above(s, size, g, bottom, texture);
    assert forall|rest: Seq<u32>| #[trigger]
        attach(s0, size, g0, issued.push(texture) + rest) == attach_rows(
            entries,
            size,
            lower,
            bottom,
            rest,
        ).after(emitted.push(command), issued.push(texture).len()) by {
        let all = seq![texture] + rest;
        assert(issued + all =~= issued.push(texture) + rest);
        assert(all[0] == texture);
        assert(all.skip(1) =~= rest);
        let inner = attach_rows(entries, size, lower, bottom, rest);
        assert(attach_rows(s, size, g, bottom, all) == inner.after(seq![command], 1));
        assert(inner.after(seq![command], 1).after(emitted, issued.len()) =~= inner.after(
            emitted.push(command),
            issued.push(texture).len(),
        ));
    }
}

/// The rows of pixels of `g` that fit in the graphic that covers its top are
/// copied into its texture, and the rest of `g` is what is left to attach.
pub proof fn lemma_continues_across(
    s0: Seq<Attachment>,
    size: SizeInfo,
    g0: GraphicDataView,
    issued: Seq<u32>,
    emitted: Seq<CommandView>,
    s: Seq<Attachment>,
    g: GraphicDataView,
    bottom: int,
    texture: u32,
)
    requires
        continues(s0, size, g0, issued, emitted, s, g, bottom),
        can_go(s, size, g, bottom),
        g.height > 0,
        reach(s, g.line as int) < s.len(),
        s[reach(s, g.line as int)].line <= g.line,
        space(s[reach(s, g.line as int)], size, g) < g.height,
    ensures
        ({
            let i = reach(s, g.line as int);
            let a = s[i];
            let fits = space(a, size, g);
            continues(
                s0,
                size,
                g0,
                issued_with(issued, a, size, g, texture),
                emitted + copy_commands(a, size, g, texture, g.head(fits)),
                s.update(i, Attachment { line: a.line, item: target(a, size, g, texture) }),
                g.tail(fits, a.item.bottom + 1),
                bottom,
            )
        }),
{
    let i = reach(s, g.line as int);
    let a = s[i];
    let fits = space(a, size, g);
    let entries = s.update(i, Attachment { line: a.line, item: target(a, size, g, texture) });
    let lower = g.tail(fits, a.item.bottom + 1);
    let commands = copy_commands(a, size, g, texture, g.head(fits));
    let now = issued_with(issued, a, size, g, texture);
    lemma_go_across(s, size, g, bottom, texture);
    assert forall|rest: Seq<u32>| #[trigger]
        attach(s0, size, g0, now + rest) == attach_rows(entries, size, lower, bottom, rest).after(
            emitted + commands,
            now.len(),
        ) by {
        let inner = attach_rows(entries, size, lower, bottom, rest);
        if need_resize(a.item, size, g) {
            let all = seq![texture] + rest;
            assert(issued + all =~= now + rest);
            assert(all[0] == texture);
            assert(all.skip(1) =~= rest);
            assert(attach_rows(s, size, g, bottom, all) == inner.after(commands, 1));
            assert(inner.after(commands, 1).after(emitted, issued.len()) =~= inner.after(
                emitted + commands,
                now.len(),
            ));
        } else {
            assert(rest.skip(0) =~= rest);
            assert(copy_commands(a, size, g, rest[0], g.head(fits)) == commands);
            assert(target(a, size, g, rest[0]) == target(a, size, g, texture));
            assert(attach_rows(s, size, g, bottom, rest) == inner.after(commands, 0));
            assert(inner.after(commands, 0).after(emitted, issued.len()) =~= inner.after(
                emitted + commands,
                now.len(),
            ));
        }
    }
}

/// The last rows of pixels of `g` are copied into the texture of the graphic
/// that covers its top, and nothing is left to attach.
pub proof fn lemma_finish_inside(
    s0: Seq<Attachment>,
    size: SizeInfo,
    g0: GraphicDataView,
    issued: Seq<u32>,
    emitted: Seq<CommandView>,
    s: Seq<Attachment>,
    g: GraphicDataView,
    bottom: int,
    texture: u32,
)
    requires
        continues(s0, size, g0, issued, emitted, s, g, bottom),
        can_go(s, size, g, bottom),
        g.height > 0,
        reach(s, g.line as int) < s.len(),
        s[reach(s, g.line as int)].line <= g.line,
        space(s[reach(s, g.line as int)], size, g) >= g.height,
    ensures
        ({
            let i = reach(s, g.line as int);
            let a = s[i];
            let now = issued_with(issued, a, size, g, texture);
            let outcome = attach(s0, size, g0, now);
            &&& outcome.textures == now.len()
            &&& outcome.entries == s.update(
                i,
                Attachment { line: a.line, item: target(a, size, g, texture) },
            )
            &&& outcome.commands == emitted + copy_commands(a, size, g, texture, g)
        }),
{
    let i = reach(s, g.line as int);
    let a = s[i];
    let now = issued_with(issued, a, size, g, texture);
    crate::attachments::lemma_reach(s, g.line as int);
    if need_resize(a.item, size, g) {
        let all = seq![texture];
        assert(issued + all =~= now);
        assert(all[0] == texture);
        let last = attach_rows(s, size, g, bottom, all);
        assert(attach(s0, size, g0, issued + all) == last.after(emitted, issued.len()));
    } else {
        let all = Seq::<u32>::empty();
        assert(issued + all =~= now);
        let last = attach_rows(s, size, g, bottom, all);
        assert(attach(s0, size, g0, issued + all) == last.after(emitted, issued.len()));
        assert(copy_commands(a, size, g, all[0], g) == copy_commands(a, size, g, texture, g));
        assert(target(a, size, g, all[0]) == target(a, size, g, texture));
    }
}

/// No rows of pixels are left to attach.
pub proof fn lemma_finish_empty(
    s0: Seq<Attachment>,
    size: SizeInfo,
    g0: GraphicDataView,
    issued: Seq<u32>,
    emitted: Seq<CommandView>,
    s: Seq<Attachment>,
    g: GraphicDataView,
    bottom: int,
)
    requires
        continues(s0, size, g0, issued, emitted, s, g, bottom),
        can_go(s, size, g, bottom),
        g.height == 0,
    ensures
        attach(s0, size, g0, issued).textures == issued.len(),
        attach(s0, size, g0, issued).entries == s,
        attach(s0, size, g0, issued).commands == emitted,
{
    let all = Seq::<u32>::empty();
    assert(issued + all =~= issued);
    let last = attach_rows(s, size, g, bottom, all);
    assert(attach(s0, size, g0, issued + all) == last.after(emitted, issued.len()));
    assert(emitted + last.commands =~= emitted);
}

/// What is left of `g` meets no graphic, is attached with `texture`, and
/// nothing is left to attach.
pub proof fn lemma_finish_free(
    s0: Seq<Attachment>,
    size: SizeInfo,
    g0: GraphicDataView,
    issued: Seq<u32>,
    emitted: Seq<CommandView>,
    s: Seq<Attachment>,
    g: GraphicDataView,
    bottom: int,
    texture: u32,
)
    requires
        continues(s0, size, g0, issued, emitted, s, g, bottom),
        can_go(s, size, g, bottom),
        g.height > 0,
        reach(s, g.line as int) < s.len() ==> s[reach(s, g.line as int)].line > bottom,
    ensures
        ({
            let i = reach(s, g.line as int);
            let outcome = attach(s0, size, g0, issued.push(texture));
            &&& outcome.textures == issued.len() + 1
            &&& outcome.entries == s.insert(
                i,
                Attachment { line: g.line, item: g.item_to(bottom, size, texture) },
            )
            &&& outcome.commands == emitted.push(CommandView::InitTexture(texture, g))
            &&& crate::attachments::vacant(s, g.line as int, bottom)
            &&& g.line <= bottom
        }),
{
    lemma_go_free(s, size, g, bottom);
    let all = seq![texture];
    assert(issued + all =~= issued.push(texture));
    assert(all[0] == texture);
    let last = attach_rows(s, size, g, bottom, all);
    assert(attach(s0, size, g0, issued + all) == last.after(emitted, issued.len()));
    assert(emitted + seq![CommandView::InitTexture(texture, g)] =~= emitted.push(
        CommandView::InitTexture(texture, g),
    ));
}

/// Attaching what is left of a graphic takes the first of the textures that
/// it is given, one for each that it counts, and does not look at those that
/// follow.
pub proof fn lemma_rows_prefix(
    s: Seq<Attachment>,
    size: SizeInfo,
    g: GraphicDataView,
    bottom: int,
    textures: Seq<u32>,
    rest: Seq<u32>,
)
    requires
        can_go(s, size, g, bottom),
        attach_rows(s, size, g, bottom, textures).textures == textures.len(),
    ensures
        attach_rows(s, size, g, bottom, textures + rest) == attach_rows(
            s,
            size,
            g,
            bottom,
            textures,
        ),
    decreases bottom - g.line,
{
    let all = textures + rest;
    let i = reach(s, g.line as int);
    crate::attachments::lemma_reach(s, g.line as int);
    if g.height == 0 {
    } else if i < s.len() && s[i].line <= bottom {
        let a = s[i];
        if g.line < a.line {
            lemma_go_above(s, size, g, bottom, textures[0]);
            assert(all[0] == textures[0]);
            assert(all.skip(1) =~= textures.skip(1) + rest);
            let height = (a.line - g.line) * size.cell_height;
            lemma_rows_prefix(
                s.insert(
                    i,
                    Attachment {
                        line: g.line,
                        item: g.head(height).item_to(a.line - 1, size, textures[0]),
                    },
                ),
                size,
                g.tail(height, a.line as int),
                bottom,
                textures.skip(1),
                rest,
            );
        } else if space(a, size, g) >= g.height {
            if need_resize(a.item, size, g) {
                assert(all[0] == textures[0]);
            }
        } else {
            lemma_go_across(s, size, g, bottom, textures[0]);
            let used = taken(a, size, g);
            if need_resize(a.item, size, g) {
                assert(all[0] == textures[0]);
            }
            assert(all.skip(used as int) =~= textures.skip(used as int) + rest);
            lemma_rows_prefix(
                s.update(i, Attachment { line: a.line, item: target(a, size, g, textures[0]) }),
                size,
                g.tail(space(a, size, g), a.item.bottom + 1),
                bottom,
                textures.skip(used as int),
                rest,
            );
        }
    } else {
        assert(all[0] == textures[0]);
    }
}

/// Attaching a graphic takes the first of the textures that it is given, one
/// for each that it counts, and does not look at those that follow.
pub proof fn lemma_attach_prefix(
    s: Seq<Attachment>,
    size: SizeInfo,
    g: GraphicDataView,
    textures: Seq<u32>,
    rest: Seq<u32>,
)
    requires
        can_attach(s, size, g),
        attach(s, size, g, textures).textures == textures.len(),
    ensures
        attach(s, size, g, textures + rest) == attach(s, size, g, textures),
{
    if g.width > 0 && g.height > 0 {
        lemma_rows_prefix(s, size, g, g.bottom(size), textures, rest);
    }
}

} // verus!
