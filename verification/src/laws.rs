//! What holds of every graphic attached to a grid, whatever the grid holds.

use vstd::prelude::*;
use crate::attach::{
    attach, attach_rows, can_attach, can_attach_aligned, can_go, copy_commands, enters, goes,
    lemma_attach_above, lemma_attach_across, lemma_attach_free, lemma_attach_inside, lemma_cut,
    lemma_go_above, lemma_go_across, lemma_go_free, lemma_go_into, lemma_lower_step,
    lemma_rows_positive, lemma_surface, lemma_target, lemma_upper_step, need_resize, space,
    surface_bounds, surface_fits, taken, target, Attached,
};
use crate::attachments::{
    lemma_insert_ordered, lemma_reach, lemma_reach_is, lemma_reach_vacant, ordered, reach,
    vacant, Attachment,
};
use crate::command::{CommandView, Vertex};
use crate::geometry::{lemma_rows_bounds, lemma_rows_unique, SizeInfo};
use crate::graphics::{GraphicDataView, ResizeCommand, ResizeParameter, MAX_GRAPHIC_DIMENSIONS};
use crate::prepare::{
    attach_all, attach_pending, corner, quad, rendered, showing, shows, vertices_of, visible,
};
use crate::resize::{limited, requested, requested_size, resizable, resized_view};

verus! {

/// A graphic put in the place of another that covers the same rows leaves
/// the graphics ordered.
pub proof fn lemma_update_ordered(s: Seq<Attachment>, i: int, a: Attachment)
    requires
        ordered(s),
        0 <= i < s.len(),
        a.line == s[i].line,
        a.item.bottom == s[i].item.bottom,
    ensures
        ordered(s.update(i, a)),
{
    let t = s.update(i, a);
    assert forall|x: int, y: int| 0 <= x < y < t.len() implies (#[trigger] t[x]).item.bottom < (
    #[trigger] t[y]).line by {
        assert(s[x].item.bottom < s[y].line);
    }
    assert forall|x: int| 0 <= x < t.len() implies (#[trigger] t[x]).line <= t[x].item.bottom by {
        assert(s[x].line <= s[x].item.bottom);
    }
}

/// On its way down to `bottom`, a graphic leaves the graphics of the grid
/// ordered.
proof fn lemma_rows_ordered(
    s: Seq<Attachment>,
    size: SizeInfo,
    g: GraphicDataView,
    bottom: int,
    textures: Seq<u32>,
)
    requires
        can_go(s, size, g, bottom),
    ensures
        ordered(attach_rows(s, size, g, bottom, textures).entries),
    decreases bottom - g.line,
{
    let i = reach(s, g.line as int);
    lemma_reach(s, g.line as int);
    if g.height == 0 {
    } else if i < s.len() && s[i].line <= bottom {
        let a = s[i];
        if g.line < a.line {
            lemma_go_above(s, size, g, bottom, textures[0]);
            let height = (a.line - g.line) * size.cell_height;
            lemma_rows_ordered(
                s.insert(
                    i,
                    Attachment {
                        line: g.line,
                        item: g.head(height).item_to(a.line - 1, size, textures[0]),
                    },
                ),
                size,
                g.tail(height, a.line as int),
                bottom,
                textures.skip(1),
            );
        } else {
            let e = Attachment { line: a.line, item: target(a, size, g, textures[0]) };
            lemma_go_into(s, size, g, bottom);
            lemma_target(a, size, g, textures[0]);
            lemma_update_ordered(s, i, e);
            if space(a, size, g) < g.height {
                lemma_go_across(s, size, g, bottom, textures[0]);
                lemma_rows_ordered(
                    s.update(i, e),
                    size,
                    g.tail(space(a, size, g), a.item.bottom + 1),
                    bottom,
                    textures.skip(taken(a, size, g) as int),
                );
            }
        }
    } else {
        lemma_go_free(s, size, g, bottom);
        lemma_insert_ordered(
            s,
            i,
            Attachment { line: g.line, item: g.item_to(bottom, size, textures[0]) },
        );
    }
}

/// Attaching a graphic leaves the graphics of the grid ordered: each covers
/// rows of its own, below those of the one before it. This holds whatever the
/// height of the cells that the textures of the grid were made with.
pub proof fn lemma_attach_ordered(
    s: Seq<Attachment>,
    size: SizeInfo,
    g: GraphicDataView,
    textures: Seq<u32>,
)
    requires
        can_attach(s, size, g),
    ensures
        ordered(attach(s, size, g, textures).entries),
{
    if g.width > 0 && g.height > 0 {
        lemma_rows_ordered(s, size, g, g.bottom(size), textures);
    }
}


/// A graphic can be attached where a graphic of the grid covers its top and
/// the texture that it is copied into has a place for each of its rows of
/// pixels, whatever the height of the cells that the texture was made with.
pub proof fn lemma_room_can_attach(s: Seq<Attachment>, size: SizeInfo, g: GraphicDataView, i: int)
    requires
        size.wf(),
        ordered(s),
        g.wf(),
        g.width > 0,
        g.height > 0,
        g.bottom(size) <= i64::MAX,
        g.right(size) <= usize::MAX,
        forall|j: int|
            0 <= j < s.len() && (#[trigger] s[j]).meets(g.line as int, g.bottom(size))
                ==> surface_bounds(s[j], size),
        0 <= i < s.len(),
        s[i].line <= g.line <= s[i].item.bottom,
        (g.line - s[i].line) * size.cell_height <= target(s[i], size, g, 0).height,
        space(s[i], size, g) >= g.height,
    ensures
        can_attach(s, size, g),
{
    lemma_rows_positive(g, size);
    assert forall|j: int| 0 <= j < i implies (#[trigger] s[j]).item.bottom < g.line by {
        assert(s[j].item.bottom < s[i].line);
    }
    lemma_reach_is(s, g.line as int, i);
    assert(s.skip(i)[0] == s[i]);
    assert(enters(s.skip(i), size, g, g.bottom(size)));
    assert(goes(s.skip(i), size, g, g.bottom(size)));
}

/// A graphic that starts within the rows of a graphic of the grid, lies within
/// its columns and ends within its rows or within the rows of pixels of its
/// texture, where that texture is kept, gives one `BlitGraphic` into that
/// texture and no other command. No texture is taken, and the grid holds the
/// same graphics as before. The texture may have been made with cells of
/// another height.
pub proof fn lemma_attach_within(
    s: Seq<Attachment>,
    size: SizeInfo,
    g: GraphicDataView,
    textures: Seq<u32>,
    i: int,
)
    requires
        can_attach(s, size, g),
        g.width > 0,
        g.height > 0,
        0 <= i < s.len(),
        s[i].line <= g.line <= s[i].item.bottom,
        g.bottom(size) <= s[i].item.bottom || space(s[i], size, g) >= g.height,
        !need_resize(s[i].item, size, g),
    ensures
        attach(s, size, g, textures) == (Attached {
            entries: s,
            commands: seq![
                CommandView::BlitGraphic(
                    g.blit(
                        s[i].item.texture.0,
                        (g.column - s[i].item.column) * size.cell_width,
                        (g.line - s[i].line) * size.cell_height,
                    ),
                ),
            ],
            textures: 0,
        }),
{
    lemma_rows_positive(g, size);
    assert forall|j: int| 0 <= j < i implies (#[trigger] s[j]).item.bottom < g.line by {
        assert(s[j].item.bottom < s[i].line);
    }
    lemma_reach_is(s, g.line as int, i);
    lemma_attach_inside(s, size, g, textures);
    assert(s.update(i, s[i]) =~= s);
    let copied = crate::attach::copy_commands(s[i], size, g, textures[0], g);
    assert(copied =~= seq![
        CommandView::BlitGraphic(
            g.blit(
                s[i].item.texture.0,
                (g.column - s[i].item.column) * size.cell_width,
                (g.line - s[i].line) * size.cell_height,
            ),
        ),
    ]);
}

/// Two graphics cover the same rows and columns of the grid.
pub open spec fn same_place(g1: GraphicDataView, g2: GraphicDataView) -> bool {
    &&& g1.line == g2.line
    &&& g1.column == g2.column
    &&& g1.width == g2.width
    &&& g1.height == g2.height
}

/// Of two graphics with the same place and sizes, attached one after the other
/// on rows that were free, the second gives one `BlitGraphic` of all its pixels
/// into the texture of the first, and no other command.
///
/// This is stated for graphics whose last row of pixels is the last of a cell:
/// the texture of the first is replaced otherwise.
pub proof fn lemma_attach_twice(
    s: Seq<Attachment>,
    size: SizeInfo,
    g1: GraphicDataView,
    g2: GraphicDataView,
    textures1: Seq<u32>,
    textures2: Seq<u32>,
)
    requires
        can_attach(s, size, g1),
        g2.wf(),
        same_place(g1, g2),
        g1.width > 0,
        g1.height > 0,
        g1.height % size.cell_height == 0,
        vacant(s, g1.line as int, g1.bottom(size)),
    ensures
        attach(s, size, g1, textures1).commands == seq![
            CommandView::InitTexture(textures1[0], g1),
        ],
        can_attach(attach(s, size, g1, textures1).entries, size, g2),
        attach(attach(s, size, g1, textures1).entries, size, g2, textures2) == (Attached {
            entries: attach(s, size, g1, textures1).entries,
            commands: seq![CommandView::BlitGraphic(g2.blit(textures1[0], 0, 0))],
            textures: 0,
        }),
{
    let c = size.cell_height as int;
    let i = reach(s, g1.line as int);
    let a = Attachment { line: g1.line, item: g1.item(size, textures1[0]) };
    let entries = s.insert(i, a);
    lemma_reach(s, g1.line as int);
    lemma_rows_positive(g1, size);
    lemma_rows_bounds(g1.height as int, c);
    lemma_attach_free(s, size, g1, textures1);
    lemma_insert_ordered(s, i, a);
    assert(entries[i] == a);
    assert(a.rows() == g1.rows(size));
    assert(g1.height == g1.rows(size) * c) by {
        let q = g1.height as int / c;
        vstd::arithmetic::div_mod::lemma_fundamental_div_mod(g1.height as int, c);
        vstd::arithmetic::mul::lemma_mul_is_commutative(c, q);
        assert((q - 1) * c == q * c - c) by (nonlinear_arith);
        lemma_rows_unique(g1.height as int, c, q);
    }
    assert forall|j: int|
        0 <= j < entries.len() && (#[trigger] entries[j]).meets(
            g2.line as int,
            g2.bottom(size),
        ) implies surface_bounds(entries[j], size) by {
        if j < i {
            assert(entries[j] == s[j]);
            assert(!s[j].meets(g1.line as int, g1.bottom(size)));
        } else if j > i {
            assert(entries[j] == s[j - 1]);
            assert(!s[j - 1].meets(g1.line as int, g1.bottom(size)));
        }
    }
    assert((g2.column - a.item.column) * size.cell_width == 0) by (nonlinear_arith)
        requires
            g2.column == a.item.column,
    ;
    assert((g2.line - a.line) * size.cell_height == 0) by (nonlinear_arith)
        requires
            g2.line == a.line,
    ;
    assert(!need_resize(a.item, size, g2));
    assert(space(a, size, g2) == g2.height);
    lemma_room_can_attach(entries, size, g2, i);
    lemma_attach_within(entries, size, g2, textures2, i);
}

/// Of two graphics with the same place and sizes, attached one after the other
/// within the rows of one graphic of the grid, the second gives one
/// `BlitGraphic` of all its pixels into the texture that the first was copied
/// into, and no other command.
pub proof fn lemma_attach_twice_inside(
    s: Seq<Attachment>,
    size: SizeInfo,
    g1: GraphicDataView,
    g2: GraphicDataView,
    textures1: Seq<u32>,
    textures2: Seq<u32>,
    i: int,
)
    requires
        can_attach(s, size, g1),
        g2.wf(),
        same_place(g1, g2),
        g1.width > 0,
        g1.height > 0,
        0 <= i < s.len(),
        s[i].line <= g1.line <= s[i].item.bottom,
        g1.bottom(size) <= s[i].item.bottom || space(s[i], size, g1) >= g1.height,
    ensures
        can_attach(attach(s, size, g1, textures1).entries, size, g2),
        attach(attach(s, size, g1, textures1).entries, size, g2, textures2) == (Attached {
            entries: attach(s, size, g1, textures1).entries,
            commands: seq![
                CommandView::BlitGraphic(
                    g2.blit(
                        target(s[i], size, g1, textures1[0]).texture.0,
                        (g2.column - target(s[i], size, g1, textures1[0]).column) * size.cell_width,
                        (g2.line - s[i].line) * size.cell_height,
                    ),
                ),
            ],
            textures: 0,
        }),
{
    let a = s[i];
    let item = target(a, size, g1, textures1[0]);
    let entries = s.update(i, Attachment { line: a.line, item });
    lemma_rows_positive(g1, size);
    assert forall|j: int| 0 <= j < i implies (#[trigger] s[j]).item.bottom < g1.line by {
        assert(s[j].item.bottom < s[i].line);
    }
    lemma_reach_is(s, g1.line as int, i);
    assert(a.meets(g1.line as int, g1.bottom(size)));
    lemma_attach_inside(s, size, g1, textures1);
    lemma_go_into(s, size, g1, g1.bottom(size));
    lemma_target(a, size, g1, textures1[0]);
    lemma_update_ordered(s, i, Attachment { line: a.line, item });
    assert forall|j: int|
        0 <= j < entries.len() && (#[trigger] entries[j]).meets(
            g2.line as int,
            g2.bottom(size),
        ) implies surface_bounds(entries[j], size) by {
        if j != i {
            assert(entries[j] == s[j]);
            assert(s[j].meets(g1.line as int, g1.bottom(size)));
        }
    }
    if need_resize(a.item, size, g1) {
        vstd::arithmetic::div_mod::lemma_mod_multiples_basic(a.rows(), size.cell_height as int);
    }
    assert(!need_resize(item, size, g2));
    assert(target(entries[i], size, g2, 0) == item);
    assert(space(entries[i], size, g2) == space(a, size, g1));
    assert(space(a, size, g1) >= g1.height);
    lemma_room_can_attach(entries, size, g2, i);
    lemma_attach_within(entries, size, g2, textures2, i);
}

/// The widths that a graphic is asked to take do not depend on whether it
/// keeps its proportions. A graphic that is asked to be `n` cells wide, and
/// as high as something else than its own height gives, is asked to be
/// exactly as wide as `n` cells, up to the limit of `MAX_GRAPHIC_DIMENSIONS`.
pub proof fn lemma_requested_cells(
    resize: ResizeCommand,
    n: u32,
    width: int,
    height: int,
    size: SizeInfo,
)
    requires
        resize.width == ResizeParameter::Cells(n),
        resize.height != ResizeParameter::Auto,
        n * size.cell_width > 0,
        requested(resize.height, size.cell_height as int, size.height as int) > 0,
    ensures
        requested_size(
            resize,
            width,
            height,
            size.cell_width as int,
            size.cell_height as int,
            size.width as int,
            size.height as int,
        ) == requested_size(
            ResizeCommand { preserve_aspect_ratio: !resize.preserve_aspect_ratio, ..resize },
            width,
            height,
            size.cell_width as int,
            size.cell_height as int,
            size.width as int,
            size.height as int,
        ),
        requested_size(
            resize,
            width,
            height,
            size.cell_width as int,
            size.cell_height as int,
            size.width as int,
            size.height as int,
        ).is_some(),
        requested_size(
            resize,
            width,
            height,
            size.cell_width as int,
            size.cell_height as int,
            size.width as int,
            size.height as int,
        ).unwrap().0 == limited(n * size.cell_width, MAX_GRAPHIC_DIMENSIONS.0 as int),
{
}

/// A graphic that is asked to be `n` cells wide without keeping its
/// proportions is exactly as wide as `n` cells once it is resized.
///
/// This is stated for a width within `MAX_GRAPHIC_DIMENSIONS`, for a height
/// that is asked for in cells, pixels or percent and does not come out empty,
/// and for a graphic whose pixels can be resampled. Of a graphic that keeps
/// its proportions, `GraphicData::resized` states the same where the width is
/// asked to grow by no more than the height.
pub proof fn lemma_resized_cells(g: GraphicDataView, resize: ResizeCommand, n: u32, size: SizeInfo)
    requires
        g.resize == Some(resize),
        g.width > 0,
        g.height > 0,
        resize.width == ResizeParameter::Cells(n),
        resize.height != ResizeParameter::Auto,
        !resize.preserve_aspect_ratio,
        0 < n * size.cell_width <= MAX_GRAPHIC_DIMENSIONS.0,
        requested(resize.height, size.cell_height as int, size.height as int) > 0,
        resizable(
            g,
            limited(
                requested(resize.height, size.cell_height as int, size.height as int),
                MAX_GRAPHIC_DIMENSIONS.1 as int,
            ),
        ),
    ensures
        resized_view(
            g,
            size.cell_width as int,
            size.cell_height as int,
            size.width as int,
            size.height as int,
        ).is_some(),
        resized_view(
            g,
            size.cell_width as int,
            size.cell_height as int,
            size.width as int,
            size.height as int,
        ).unwrap().width == n * size.cell_width,
{
    lemma_requested_cells(resize, n, g.width as int, g.height as int, size);
}

/// The graphic `g` comes in its final size, has pixels, and its last row and
/// its right side can be computed.
pub open spec fn ready(g: GraphicDataView, size: SizeInfo) -> bool {
    &&& g.wf()
    &&& g.resize.is_none()
    &&& g.width > 0
    &&& g.height > 0
    &&& g.bottom(size) <= i64::MAX
    &&& g.right(size) <= usize::MAX
}

/// No row of the grid is covered by two graphics of `gs`.
pub open spec fn apart(gs: Seq<GraphicDataView>, size: SizeInfo) -> bool {
    forall|j: int, k: int|
        0 <= j < k < gs.len() ==> (#[trigger] gs[j]).bottom(size) < (#[trigger] gs[k]).line
            || gs[k].bottom(size) < gs[j].line
}

/// Pending graphics that share no row with one another, nor with a graphic of
/// the grid, give one `InitTexture` each, in their order, and no other
/// command. Each of them is attached as it is, with a texture of its own, and
/// the graphics of the grid stay as they are.
pub proof fn lemma_attach_apart(
    s: Seq<Attachment>,
    size: SizeInfo,
    gs: Seq<GraphicDataView>,
    textures: Seq<u32>,
)
    requires
        size.wf(),
        ordered(s),
        apart(gs, size),
        textures.len() >= gs.len(),
        forall|k: int| 0 <= k < gs.len() ==> ready(#[trigger] gs[k], size),
        forall|k: int|
            0 <= k < gs.len() ==> vacant(s, (#[trigger] gs[k]).line as int, gs[k].bottom(size)),
    ensures
        attach_all(s, size, gs, textures).textures == gs.len(),
        attach_all(s, size, gs, textures).commands == Seq::new(
            gs.len(),
            |k: int| CommandView::InitTexture(textures[k], gs[k]),
        ),
        attach_all(s, size, gs, textures).entries.len() == s.len() + gs.len(),
        ordered(attach_all(s, size, gs, textures).entries),
        forall|j: int|
            0 <= j < s.len() ==> attach_all(s, size, gs, textures).entries.contains(
                #[trigger] s[j],
            ),
        forall|k: int|
            0 <= k < gs.len() ==> attach_all(s, size, gs, textures).entries.contains(
                Attachment { line: gs[k].line, item: (#[trigger] gs[k]).item(size, textures[k]) },
            ),
    decreases gs.len(),
{
    let out = attach_all(s, size, gs, textures);
    if gs.len() == 0 {
        assert(out.commands =~= Seq::new(
            gs.len(),
            |k: int| CommandView::InitTexture(textures[k], gs[k]),
        ));
        assert forall|j: int| 0 <= j < s.len() implies out.entries.contains(#[trigger] s[j]) by {
            assert(out.entries[j] == s[j]);
        }
    } else {
        let g = gs[0];
        let i = reach(s, g.line as int);
        let a = Attachment { line: g.line, item: g.item(size, textures[0]) };
        let entries = s.insert(i, a);
        let others = gs.skip(1);
        let later = textures.skip(1);
        assert(ready(g, size));
        assert(vacant(s, g.line as int, g.bottom(size)));
        lemma_reach(s, g.line as int);
        lemma_rows_positive(g, size);
        assert(can_attach_aligned(s, size, g));
        lemma_attach_free(s, size, g, textures);
        lemma_insert_ordered(s, i, a);
        assert(attach_pending(s, size, g, textures) == attach(s, size, g, textures));
        assert forall|k: int| 0 <= k < others.len() implies ready(#[trigger] others[k], size) by {
            assert(others[k] == gs[k + 1]);
        }
        assert forall|j: int, k: int| 0 <= j < k < others.len() implies (
        #[trigger] others[j]).bottom(size) < (#[trigger] others[k]).line || others[k].bottom(size)
            < others[j].line by {
            assert(others[j] == gs[j + 1] && others[k] == gs[k + 1]);
        }
        assert forall|k: int| 0 <= k < others.len() implies vacant(
            entries,
            (#[trigger] others[k]).line as int,
            others[k].bottom(size),
        ) by {
            let o = others[k];
            assert(o == gs[k + 1]);
            assert(vacant(s, gs[k + 1].line as int, gs[k + 1].bottom(size)));
            assert(gs[0].bottom(size) < gs[k + 1].line || gs[k + 1].bottom(size) < gs[0].line);
            assert forall|x: int| 0 <= x < entries.len() implies !(#[trigger] entries[x]).meets(
                o.line as int,
                o.bottom(size),
            ) by {
                if x < i {
                    assert(entries[x] == s[x]);
                } else if x > i {
                    assert(entries[x] == s[x - 1]);
                }
            }
        }
        lemma_attach_apart(entries, size, others, later);
        let inner = attach_all(entries, size, others, later);
        assert(out == inner.after(seq![CommandView::InitTexture(textures[0], g)], 1));
        assert(out.commands =~= Seq::new(
            gs.len(),
            |k: int| CommandView::InitTexture(textures[k], gs[k]),
        )) by {
            assert forall|k: int| 0 <= k < gs.len() implies out.commands[k]
                == CommandView::InitTexture(textures[k], gs[k]) by {
                if k > 0 {
                    assert(inner.commands[k - 1] == CommandView::InitTexture(
                        later[k - 1],
                        others[k - 1],
                    ));
                }
            }
        }
        assert forall|j: int| 0 <= j < s.len() implies out.entries.contains(#[trigger] s[j]) by {
            if j < i {
                assert(entries[j] == s[j]);
            } else {
                assert(entries[j + 1] == s[j]);
            }
        }
        assert forall|k: int| 0 <= k < gs.len() implies out.entries.contains(
            Attachment { line: gs[k].line, item: (#[trigger] gs[k]).item(size, textures[k]) },
        ) by {
            if k == 0 {
                assert(entries[i] == a);
            } else {
                assert(others[k - 1] == gs[k]);
                assert(later[k - 1] == textures[k]);
            }
        }
    }
}

/// The pixels that a command carries to the display.
pub open spec fn pixels_of(command: CommandView) -> Seq<u8> {
    match command {
        CommandView::InitTexture(_, graphic) => graphic.pixels,
        CommandView::BlitGraphic(data) => data.pixels,
        _ => Seq::empty(),
    }
}

/// The pixels that the commands carry to the display, one buffer after the
/// other.
pub open spec fn payload(commands: Seq<CommandView>) -> Seq<u8>
    decreases commands.len(),
{
    if commands.len() == 0 {
        Seq::empty()
    } else {
        payload(commands.drop_last()) + pixels_of(commands.last())
    }
}

/// One command carries its pixels.
pub proof fn lemma_payload_one(command: CommandView)
    ensures
        payload(seq![command]) == pixels_of(command),
{
    reveal_with_fuel(payload, 2);
    let one = seq![command];
    assert(one.drop_last() =~= Seq::<CommandView>::empty());
    assert(payload(one) =~= pixels_of(command));
}

/// The pixels of commands that follow others follow the pixels of those.
pub proof fn lemma_payload_concat(a: Seq<CommandView>, b: Seq<CommandView>)
    ensures
        payload(a + b) == payload(a) + payload(b),
    decreases b.len(),
{
    if b.len() == 0 {
        assert(a + b =~= a);
        assert(payload(a) + payload(b) =~= payload(a));
    } else {
        lemma_payload_concat(a, b.drop_last());
        assert((a + b).drop_last() =~= a + b.drop_last());
        assert((a + b).last() == b.last());
        assert(payload(a + b) =~= payload(a) + payload(b));
    }
}

/// The commands that copy a piece of a graphic carry the pixels of the piece.
proof fn lemma_payload_copy(
    a: Attachment,
    size: SizeInfo,
    g: GraphicDataView,
    texture: u32,
    piece: GraphicDataView,
)
    ensures
        payload(copy_commands(a, size, g, texture, piece)) == piece.pixels,
{
    reveal_with_fuel(payload, 2);
    let commands = copy_commands(a, size, g, texture, piece);
    let first = commands.drop_last();
    assert(pixels_of(commands.last()) == piece.pixels);
    if need_resize(a.item, size, g) {
        assert(first =~= seq![CommandView::ResizeTexture(crate::attach::resize_of(a, size, g, texture))]);
        lemma_payload_one(first[0]);
    } else {
        assert(first =~= Seq::<CommandView>::empty());
    }
    assert(payload(commands) =~= piece.pixels);
}

/// A graphic without pixels has no bytes.
proof fn lemma_no_pixels(g: GraphicDataView)
    requires
        g.wf(),
        g.width == 0 || g.height == 0,
    ensures
        g.pixels == Seq::<u8>::empty(),
{
    assert(g.pixels.len() == 0) by {
        if g.height > 0 {
            assert(g.stride() == 0) by (nonlinear_arith)
                requires
                    g.width == 0,
                    g.stride() == g.width * g.color_type.spec_bytes_per_pixel(),
            ;
            assert(g.height * g.stride() == 0) by (nonlinear_arith)
                requires
                    g.stride() == 0,
            ;
        } else {
            assert(g.height * g.stride() == 0) by (nonlinear_arith)
                requires
                    g.height == 0,
            ;
        }
    }
    assert(g.pixels =~= Seq::<u8>::empty());
}

/// On its way down to `bottom`, a graphic gives commands that carry its
/// pixels, in their order.
proof fn lemma_rows_pixels(
    s: Seq<Attachment>,
    size: SizeInfo,
    g: GraphicDataView,
    bottom: int,
    textures: Seq<u32>,
)
    requires
        can_go(s, size, g, bottom),
    ensures
        payload(attach_rows(s, size, g, bottom, textures).commands) == g.pixels,
    decreases bottom - g.line,
{
    let i = reach(s, g.line as int);
    lemma_reach(s, g.line as int);
    if g.height == 0 {
        lemma_no_pixels(g);
    } else if i < s.len() && s[i].line <= bottom {
        let a = s[i];
        if g.line < a.line {
            lemma_go_above(s, size, g, bottom, textures[0]);
            let height = (a.line - g.line) * size.cell_height;
            let upper = g.head(height);
            let lower = g.tail(height, a.line as int);
            let entries = s.insert(
                i,
                Attachment { line: g.line, item: upper.item_to(a.line - 1, size, textures[0]) },
            );
            let first = seq![CommandView::InitTexture(textures[0], upper)];
            lemma_rows_pixels(entries, size, lower, bottom, textures.skip(1));
            lemma_payload_concat(
                first,
                attach_rows(entries, size, lower, bottom, textures.skip(1)).commands,
            );
            lemma_cut(g, height, a.line as int);
            lemma_payload_one(first[0]);
        } else {
            let fits = space(a, size, g);
            lemma_go_into(s, size, g, bottom);
            lemma_target(a, size, g, textures[0]);
            if fits >= g.height {
                lemma_payload_copy(a, size, g, textures[0], g);
            } else {
                lemma_go_across(s, size, g, bottom, textures[0]);
                let lower = g.tail(fits, a.item.bottom + 1);
                let entries = s.update(
                    i,
                    Attachment { line: a.line, item: target(a, size, g, textures[0]) },
                );
                let copied = copy_commands(a, size, g, textures[0], g.head(fits));
                let rest = textures.skip(taken(a, size, g) as int);
                lemma_rows_pixels(entries, size, lower, bottom, rest);
                lemma_payload_copy(a, size, g, textures[0], g.head(fits));
                lemma_payload_concat(
                    copied,
                    attach_rows(entries, size, lower, bottom, rest).commands,
                );
                lemma_cut(g, fits, a.item.bottom + 1);
            }
        }
    } else {
        let first = seq![CommandView::InitTexture(textures[0], g)];
        lemma_payload_one(first[0]);
        assert(first =~= seq![first[0]]);
    }
}

/// The commands that attaching a graphic gives carry every pixel of the
/// graphic to the display once, in the order of the graphic: the pixels of an
/// `InitTexture` or a `BlitGraphic` are rows of pixels of the graphic, the
/// rows of one command follow those of the command before, and no row is left.
/// This holds whatever the height of the cells that the textures of the grid
/// were made with.
pub proof fn lemma_attach_pixels(
    s: Seq<Attachment>,
    size: SizeInfo,
    g: GraphicDataView,
    textures: Seq<u32>,
)
    requires
        can_attach(s, size, g),
    ensures
        payload(attach(s, size, g, textures).commands) == g.pixels,
{
    if g.width == 0 || g.height == 0 {
        lemma_no_pixels(g);
    } else {
        lemma_rows_pixels(s, size, g, g.bottom(size), textures);
    }
}

/// A graphic of `s` covers `line`.
pub open spec fn covered(s: Seq<Attachment>, line: int) -> bool {
    exists|k: int| 0 <= k < s.len() && (#[trigger] s[k]).covers(line)
}

/// Once a graphic has been attached, every row that it reaches into is
/// covered by a graphic of the grid, and so is every row that was covered
/// before.
///
/// This is stated for a grid whose cells have kept their height. A texture
/// that was made for taller cells may take the rows of pixels of a graphic
/// that ends below the graphic of that texture.
pub proof fn lemma_attach_covers(
    s: Seq<Attachment>,
    size: SizeInfo,
    g: GraphicDataView,
    textures: Seq<u32>,
    line: int,
)
    requires
        can_attach_aligned(s, size, g),
        covered(s, line) || (g.width > 0 && g.height > 0 && g.line <= line <= g.bottom(size)),
    ensures
        covered(attach(s, size, g, textures).entries, line),
    decreases g.height,
{
    let out = attach(s, size, g, textures);
    if g.width == 0 || g.height == 0 {
    } else {
        let i = reach(s, g.line as int);
        lemma_reach(s, g.line as int);
        lemma_rows_positive(g, size);
        if i < s.len() && s[i].line <= g.bottom(size) {
            let a = s[i];
            assert(a.meets(g.line as int, g.bottom(size)));
            if g.line < a.line {
                lemma_attach_above(s, size, g, textures);
                lemma_upper_step(s, size, g, textures[0]);
                let height = (a.line - g.line) * size.cell_height;
                let upper = g.head(height);
                let lower = g.tail(height, a.line as int);
                let e = Attachment { line: g.line, item: upper.item(size, textures[0]) };
                let entries = s.insert(i, e);
                if covered(s, line) {
                    let k = choose|k: int| 0 <= k < s.len() && (#[trigger] s[k]).covers(line);
                    let x = if k < i { k } else { k + 1 };
                    assert(entries[x] == s[k]);
                } else if line < a.line {
                    assert(entries[i] == e);
                    assert(e.covers(line));
                }
                lemma_attach_covers(entries, size, lower, textures.skip(1), line);
            } else {
                lemma_surface(a, size, g, textures[0]);
                let e = Attachment { line: a.line, item: target(a, size, g, textures[0]) };
                let entries = s.update(i, e);
                if covered(s, line) {
                    let k = choose|k: int| 0 <= k < s.len() && (#[trigger] s[k]).covers(line);
                    if k == i {
                        assert(entries[i].covers(line));
                    } else {
                        assert(entries[k] == s[k]);
                    }
                } else if line <= a.item.bottom {
                    assert(entries[i].covers(line));
                }
                if a.item.bottom >= g.bottom(size) {
                    lemma_attach_inside(s, size, g, textures);
                } else {
                    lemma_attach_across(s, size, g, textures);
                    lemma_lower_step(s, size, g, textures[0]);
                    lemma_surface(a, size, g, 0);
                    lemma_attach_covers(
                        entries,
                        size,
                        g.tail(space(a, size, g), a.item.bottom + 1),
                        textures.skip(taken(a, size, g) as int),
                        line,
                    );
                }
            }
        } else {
            lemma_reach_vacant(s, g.line as int, g.bottom(size));
            lemma_attach_free(s, size, g, textures);
            let e = Attachment { line: g.line, item: g.item(size, textures[0]) };
            let entries = s.insert(i, e);
            if covered(s, line) {
                let k = choose|k: int| 0 <= k < s.len() && (#[trigger] s[k]).covers(line);
                let x = if k < i { k } else { k + 1 };
                assert(entries[x] == s[k]);
            } else {
                assert(entries[i] == e);
                assert(e.covers(line));
            }
        }
    }
}
/// On its way down to `bottom`, a graphic leaves as it was each graphic of the
/// grid that it does not meet.
proof fn lemma_rows_keep_others(
    s: Seq<Attachment>,
    size: SizeInfo,
    g: GraphicDataView,
    bottom: int,
    textures: Seq<u32>,
    k: int,
)
    requires
        can_go(s, size, g, bottom),
        0 <= k < s.len(),
        g.height == 0 || !s[k].meets(g.line as int, bottom),
    ensures
        attach_rows(s, size, g, bottom, textures).entries.contains(s[k]),
    decreases bottom - g.line,
{
    let out = attach_rows(s, size, g, bottom, textures);
    let i = reach(s, g.line as int);
    lemma_reach(s, g.line as int);
    if g.height == 0 {
        assert(out.entries[k] == s[k]);
    } else if i < s.len() && s[i].line <= bottom {
        let a = s[i];
        assert(a.meets(g.line as int, bottom));
        if g.line < a.line {
            lemma_go_above(s, size, g, bottom, textures[0]);
            let height = (a.line - g.line) * size.cell_height;
            let entries = s.insert(
                i,
                Attachment {
                    line: g.line,
                    item: g.head(height).item_to(a.line - 1, size, textures[0]),
                },
            );
            let x = if k < i { k } else { k + 1 };
            assert(entries[x] == s[k]);
            lemma_rows_keep_others(
                entries,
                size,
                g.tail(height, a.line as int),
                bottom,
                textures.skip(1),
                x,
            );
        } else {
            let entries = s.update(
                i,
                Attachment { line: a.line, item: target(a, size, g, textures[0]) },
            );
            assert(entries[k] == s[k]);
            if space(a, size, g) < g.height {
                lemma_go_across(s, size, g, bottom, textures[0]);
                lemma_rows_keep_others(
                    entries,
                    size,
                    g.tail(space(a, size, g), a.item.bottom + 1),
                    bottom,
                    textures.skip(taken(a, size, g) as int),
                    k,
                );
            }
        }
    } else {
        let x = if k < i { k } else { k + 1 };
        assert(out.entries[x] == s[k]);
    }
}

/// A graphic of the grid that has no row in common with the graphic that is
/// attached stays as it was: its rows, its columns and its texture. This holds
/// whatever the height of the cells that the textures of the grid were made
/// with.
pub proof fn lemma_attach_keeps_others(
    s: Seq<Attachment>,
    size: SizeInfo,
    g: GraphicDataView,
    textures: Seq<u32>,
    k: int,
)
    requires
        can_attach(s, size, g),
        0 <= k < s.len(),
        g.width == 0 || g.height == 0 || !s[k].meets(g.line as int, g.bottom(size)),
    ensures
        attach(s, size, g, textures).entries.contains(s[k]),
{
    if g.width == 0 || g.height == 0 {
        assert(attach(s, size, g, textures).entries[k] == s[k]);
    } else {
        lemma_rows_keep_others(s, size, g, g.bottom(size), textures, k);
    }
}

/// No graphic of `s` ends above the row `limit`.
pub open spec fn ends_below(s: Seq<Attachment>, limit: int) -> bool {
    forall|k: int| 0 <= k < s.len() ==> (#[trigger] s[k]).item.bottom >= limit
}

/// On its way down to `bottom`, a graphic leaves no graphic of the grid that
/// ends above `limit`, where there was none and it starts at `limit` or
/// below.
proof fn lemma_rows_end_below(
    s: Seq<Attachment>,
    size: SizeInfo,
    g: GraphicDataView,
    bottom: int,
    textures: Seq<u32>,
    limit: int,
)
    requires
        can_go(s, size, g, bottom),
        limit <= g.line,
        ends_below(s, limit),
    ensures
        ends_below(attach_rows(s, size, g, bottom, textures).entries, limit),
    decreases bottom - g.line,
{
    let out = attach_rows(s, size, g, bottom, textures);
    let i = reach(s, g.line as int);
    lemma_reach(s, g.line as int);
    if g.height == 0 {
    } else if i < s.len() && s[i].line <= bottom {
        let a = s[i];
        if g.line < a.line {
            lemma_go_above(s, size, g, bottom, textures[0]);
            let height = (a.line - g.line) * size.cell_height;
            let entries = s.insert(
                i,
                Attachment {
                    line: g.line,
                    item: g.head(height).item_to(a.line - 1, size, textures[0]),
                },
            );
            assert forall|k: int| 0 <= k < entries.len() implies (
            #[trigger] entries[k]).item.bottom >= limit by {
                if k < i {
                    assert(entries[k] == s[k]);
                } else if k > i {
                    assert(entries[k] == s[k - 1]);
                }
            }
            lemma_rows_end_below(
                entries,
                size,
                g.tail(height, a.line as int),
                bottom,
                textures.skip(1),
                limit,
            );
        } else {
            let entries = s.update(
                i,
                Attachment { line: a.line, item: target(a, size, g, textures[0]) },
            );
            lemma_go_into(s, size, g, bottom);
            lemma_target(a, size, g, textures[0]);
            assert forall|k: int| 0 <= k < entries.len() implies (
            #[trigger] entries[k]).item.bottom >= limit by {
                if k != i {
                    assert(entries[k] == s[k]);
                }
            }
            if space(a, size, g) < g.height {
                lemma_go_across(s, size, g, bottom, textures[0]);
                lemma_rows_end_below(
                    entries,
                    size,
                    g.tail(space(a, size, g), a.item.bottom + 1),
                    bottom,
                    textures.skip(taken(a, size, g) as int),
                    limit,
                );
            }
        }
    } else {
        lemma_go_free(s, size, g, bottom);
        assert forall|k: int| 0 <= k < out.entries.len() implies (
        #[trigger] out.entries[k]).item.bottom >= limit by {
            if k < i {
                assert(out.entries[k] == s[k]);
            } else if k > i {
                assert(out.entries[k] == s[k - 1]);
            }
        }
    }
}

/// Where no graphic of the grid ends above the row `limit`, and a graphic
/// that starts at `limit` or below is attached, no graphic of the grid ends
/// above `limit` afterwards. With the first row that the history keeps as
/// `limit`: attaching brings back no graphic that has left the history. This
/// holds whatever the height of the cells that the textures of the grid were
/// made with.
pub proof fn lemma_attach_ends_below(
    s: Seq<Attachment>,
    size: SizeInfo,
    g: GraphicDataView,
    textures: Seq<u32>,
    limit: int,
)
    requires
        can_attach(s, size, g),
        limit <= g.line,
        ends_below(s, limit),
    ensures
        ends_below(attach(s, size, g, textures).entries, limit),
{
    if g.width > 0 && g.height > 0 {
        lemma_rows_end_below(s, size, g, g.bottom(size), textures, limit);
    }
}
/// The texture of `a` is as high as the rows of `a`, unless it has yet to be
/// replaced because its height is no whole number of cells.
pub open spec fn aligned(a: Attachment, size: SizeInfo) -> bool {
    a.item.height % size.cell_height == 0 ==> a.item.height == a.rows() * size.cell_height
}

/// Every texture of the graphics of `s` is as high as the rows of its graphic,
/// unless it has yet to be replaced: as on a grid whose cells have kept their
/// height.
pub open spec fn all_aligned(s: Seq<Attachment>, size: SizeInfo) -> bool {
    forall|k: int| 0 <= k < s.len() ==> aligned(#[trigger] s[k], size)
}

/// On a grid whose cells have kept their height, a graphic that can be
/// attached can be attached with every texture that it meets as high as
/// its rows.
pub proof fn lemma_aligned_can_attach(s: Seq<Attachment>, size: SizeInfo, g: GraphicDataView)
    requires
        can_attach(s, size, g),
        all_aligned(s, size),
    ensures
        can_attach_aligned(s, size, g),
{
    if g.width > 0 && g.height > 0 {
        assert forall|i: int|
            0 <= i < s.len() && (#[trigger] s[i]).meets(
                g.line as int,
                g.bottom(size),
            ) implies surface_fits(s[i], size) by {
            assert(aligned(s[i], size));
        }
    }
}

/// On a grid whose cells have kept their height, every texture is as high as
/// the rows of its graphic once a graphic has been attached.
pub proof fn lemma_attach_keeps_aligned(
    s: Seq<Attachment>,
    size: SizeInfo,
    g: GraphicDataView,
    textures: Seq<u32>,
)
    requires
        can_attach_aligned(s, size, g),
        all_aligned(s, size),
    ensures
        all_aligned(attach(s, size, g, textures).entries, size),
    decreases g.height,
{
    let out = attach(s, size, g, textures);
    let c = size.cell_height as int;
    if g.width == 0 || g.height == 0 {
    } else {
        let i = reach(s, g.line as int);
        lemma_reach(s, g.line as int);
        lemma_rows_positive(g, size);
        lemma_rows_bounds(g.height as int, c);
        if i < s.len() && s[i].line <= g.bottom(size) {
            let a = s[i];
            assert(a.meets(g.line as int, g.bottom(size)));
            if g.line < a.line {
                lemma_attach_above(s, size, g, textures);
                lemma_upper_step(s, size, g, textures[0]);
                let rows = a.line - g.line;
                let height = rows * c;
                let upper = g.head(height);
                let lower = g.tail(height, a.line as int);
                let e = Attachment { line: g.line, item: upper.item(size, textures[0]) };
                let entries = s.insert(i, e);
                assert(aligned(e, size));
                assert forall|k: int| 0 <= k < entries.len() implies aligned(
                    #[trigger] entries[k],
                    size,
                ) by {
                    if k < i {
                        assert(entries[k] == s[k]);
                    } else if k > i {
                        assert(entries[k] == s[k - 1]);
                    }
                }
                lemma_attach_keeps_aligned(entries, size, lower, textures.skip(1));
            } else {
                lemma_surface(a, size, g, textures[0]);
                let e = Attachment { line: a.line, item: target(a, size, g, textures[0]) };
                let entries = s.update(i, e);
                assert forall|k: int| 0 <= k < entries.len() implies aligned(
                    #[trigger] entries[k],
                    size,
                ) by {
                    if k != i {
                        assert(entries[k] == s[k]);
                    }
                }
                if a.item.bottom >= g.bottom(size) {
                    lemma_attach_inside(s, size, g, textures);
                } else {
                    lemma_attach_across(s, size, g, textures);
                    lemma_lower_step(s, size, g, textures[0]);
                    lemma_surface(a, size, g, 0);
                    let lower = g.tail(space(a, size, g), a.item.bottom + 1);
                    lemma_attach_keeps_aligned(
                        entries,
                        size,
                        lower,
                        textures.skip(taken(a, size, g) as int),
                    );
                }
            }
        } else {
            lemma_reach_vacant(s, g.line as int, g.bottom(size));
            lemma_attach_free(s, size, g, textures);
            let e = Attachment { line: g.line, item: g.item(size, textures[0]) };
            let entries = s.insert(i, e);
            assert(e.rows() == g.rows(size));
            if g.height as int % c == 0 {
                let q = g.height as int / c;
                vstd::arithmetic::div_mod::lemma_fundamental_div_mod(g.height as int, c);
                vstd::arithmetic::mul::lemma_mul_is_commutative(c, q);
                assert((q - 1) * c == q * c - c) by (nonlinear_arith);
                lemma_rows_unique(g.height as int, c, q);
            }
            assert(aligned(e, size));
            assert forall|k: int| 0 <= k < entries.len() implies aligned(
                #[trigger] entries[k],
                size,
            ) by {
                if k < i {
                    assert(entries[k] == s[k]);
                } else if k > i {
                    assert(entries[k] == s[k - 1]);
                }
            }
        }
    }
}

/// The vertex `v` is a corner of a graphic of `s` that is drawn: one that
/// does not end above the viewport, and starts among the rows where the
/// graphics that can show are looked for.
pub open spec fn corner_of_shown(
    v: Vertex,
    s: Seq<Attachment>,
    base: int,
    offset: int,
    lines: int,
) -> bool {
    exists|i: int|
        0 <= i < s.len() && shows(#[trigger] s[i], base, offset, lines) && v == corner(
            s[i],
            v.sides,
        )
}

/// Every vertex of graphics is a corner of one of them.
proof fn lemma_vertices_corners(shown: Seq<Attachment>, k: int)
    requires
        0 <= k < vertices_of(shown).len(),
    ensures
        exists|j: int|
            0 <= j < shown.len() && vertices_of(shown)[k] == corner(
                #[trigger] shown[j],
                vertices_of(shown)[k].sides,
            ),
    decreases shown.len(),
{
    if shown.len() > 0 {
        let before = shown.drop_last();
        let v = vertices_of(shown)[k];
        if k < vertices_of(before).len() {
            lemma_vertices_corners(before, k);
            let j = choose|j: int|
                0 <= j < before.len() && vertices_of(before)[k] == corner(
                    #[trigger] before[j],
                    vertices_of(before)[k].sides,
                );
            assert(before[j] == shown[j]);
            assert(v == corner(shown[j], v.sides));
        } else {
            let j = shown.len() - 1;
            assert(v == quad(shown.last())[k - vertices_of(before).len()]);
            assert(v == corner(shown[j], v.sides));
        }
    }
}

/// What is drawn, whatever the grid holds: at most one `Render` command,
/// which places the graphics by the row of the grid that is the first of the
/// viewport, and of which every vertex is a corner of a graphic of the grid
/// that does not end above the viewport. A graphic that has left the viewport
/// by its top is not drawn.
pub proof fn lemma_rendered_shown(s: Seq<Attachment>, base: int, size: SizeInfo, offset: int)
    ensures
        rendered(s, base, size, offset).len() <= 1,
        rendered(s, base, size, offset).len() == 1 ==> match rendered(s, base, size, offset)[0] {
            CommandView::Render(view) => {
                &&& view.graphics_line_offset == (base - offset) as i64
                &&& view.vertices.len() > 0
                &&& forall|k: int|
                    0 <= k < view.vertices.len() ==> corner_of_shown(
                        #[trigger] view.vertices[k],
                        s,
                        base,
                        offset,
                        size.screen_lines as int,
                    )
            },
            _ => false,
        },
{
    let lines = size.screen_lines as int;
    let shown = visible(s, base, offset, lines);
    if shown.len() > 0 {
        let vertices = vertices_of(shown);
        assert(vertices.len() > 0) by {
            assert(vertices == vertices_of(shown.drop_last()) + quad(shown.last()));
        }
        assert forall|k: int| 0 <= k < vertices.len() implies corner_of_shown(
            #[trigger] vertices[k],
            s,
            base,
            offset,
            lines,
        ) by {
            lemma_vertices_corners(shown, k);
            let j = choose|j: int|
                0 <= j < shown.len() && vertices[k] == corner(
                    #[trigger] shown[j],
                    vertices[k].sides,
                );
            s.lemma_filter_pred(showing(base, offset, lines), j);
            assert(shown.contains(shown[j]));
            s.lemma_filter_contains_rev(showing(base, offset, lines), shown[j]);
            let i = choose|i: int| 0 <= i < s.len() && s[i] == shown[j];
            assert(shows(s[i], base, offset, lines));
        }
    }
}

} // verus!
