//! The commands of the *prepare* phase, executed.
//!
//! The display that holds one texture for each graphic of the grid, and no
//! other, can execute every command that attaching a graphic gives, and holds
//! one texture for each graphic of the grid afterwards, and no other.

use vstd::prelude::*;
use crate::attach::{
    attach, can_attach, can_attach_aligned, copy_commands, lemma_attach_above, lemma_attach_across,
    lemma_attach_free, lemma_attach_inside, lemma_cut, lemma_lower_step, lemma_rows_positive,
    lemma_surface, lemma_upper_step, need_resize, resize_of, space, surface_right, taken,
    target, Attached,
};
use crate::attachments::{
    lemma_reach, lemma_reach_vacant, reach, Attachment, GraphicItem,
};
use crate::command::{CommandView, Vertex};
use crate::geometry::{lemma_rows_bounds, SizeInfo};
use crate::graphics::GraphicDataView;
use crate::laws::{all_aligned, lemma_aligned_can_attach, lemma_attach_keeps_aligned};
use crate::prepare::{
    attach_all, attach_pending, deleted, prepared, quad, rendered, textures_of, vertices_of,
    visible,
};
use crate::renderer::{
    blitted, executed, executed_all, executed_first, first_unknown, initialized, released,
    resized, sized, Textures,
};
use crate::resize::resized_view;
use crate::store::{views, Graphics};

verus! {

/// The display holds one texture for each graphic of `s`, with the sizes of
/// that graphic, and no other texture.
pub open spec fn backed(textures: Textures, s: Seq<Attachment>) -> bool {
    &&& forall|i: int|
        0 <= i < s.len() ==> textures.contains_key((#[trigger] s[i]).item.texture.0)
            && textures[s[i].item.texture.0] == sized(
            s[i].item.texture.0,
            s[i].item.width,
            s[i].item.height,
        )
    &&& forall|i: int, j: int|
        0 <= i < j < s.len() ==> (#[trigger] s[i]).item.texture != (#[trigger] s[j]).item.texture
    &&& forall|name: u32| #[trigger]
        textures.contains_key(name) ==> exists|i: int|
            0 <= i < s.len() && (#[trigger] s[i]).item.texture.0 == name
}

/// No texture of a graphic of `s` is higher than the rows of that graphic.
pub open spec fn tidy(s: Seq<Attachment>, size: SizeInfo) -> bool {
    forall|i: int| 0 <= i < s.len() ==> (#[trigger] s[i]).item.height <= s[i].rows()
        * size.cell_height
}

/// The names are new to the display, and no two of them are the same.
pub open spec fn fresh(textures: Textures, names: Seq<u32>) -> bool {
    &&& forall|k: int| 0 <= k < names.len() ==> !textures.contains_key(#[trigger] names[k])
    &&& forall|j: int, k: int| 0 <= j < k < names.len() ==> #[trigger] names[j] != #[trigger] names[k]
}

/// Commands are executed one after the other.
pub proof fn lemma_executed_concat(textures: Textures, a: Seq<CommandView>, b: Seq<CommandView>)
    ensures
        executed_all(textures, a + b) == match executed_all(textures, a) {
            Some(between) => executed_all(between, b),
            None => None,
        },
    decreases b.len(),
{
    lemma_executed_prefix(textures, a + b, a, a.len() as int);
    if b.len() == 0 {
        assert(a + b =~= a);
    } else {
        let shorter = b.drop_last();
        lemma_executed_concat(textures, a, shorter);
        assert((a + b).len() == a.len() + b.len());
        lemma_executed_prefix(textures, a + b, a + shorter, (a + shorter).len() as int);
        assert((a + b)[(a + b).len() - 1] == b.last());
        match executed_all(textures, a) {
            Some(between) => {
                assert(executed_first(between, b, b.len() - 1) == executed_first(
                    between,
                    shorter,
                    shorter.len() as int,
                )) by {
                    lemma_executed_prefix(between, b, shorter, shorter.len() as int);
                }
            },
            None => {},
        }
    }
}

/// What the first commands of a batch do does not depend on those that
/// follow.
pub proof fn lemma_executed_prefix(
    textures: Textures,
    longer: Seq<CommandView>,
    shorter: Seq<CommandView>,
    count: int,
)
    requires
        0 <= count <= shorter.len() <= longer.len(),
        forall|k: int| 0 <= k < shorter.len() ==> shorter[k] == longer[k],
    ensures
        executed_first(textures, longer, count) == executed_first(textures, shorter, count),
    decreases count,
{
    if count > 0 {
        lemma_executed_prefix(textures, longer, shorter, count - 1);
    }
}

/// One command is executed as it says.
pub proof fn lemma_executed_one(textures: Textures, command: CommandView)
    ensures
        executed_all(textures, seq![command]) == match executed(textures, command) {
            Ok(after) => Some(after),
            Err(_) => None::<Textures>,
        },
{
    let one = seq![command];
    assert(executed_first(textures, one, 0) == Some(textures));
    assert(one[0] == command);
}

/// A graphic with a texture of its own, new to the display, can be added.
proof fn lemma_backed_insert(textures: Textures, s: Seq<Attachment>, i: int, a: Attachment)
    requires
        backed(textures, s),
        0 <= i <= s.len(),
        !textures.contains_key(a.item.texture.0),
    ensures
        backed(
            textures.insert(
                a.item.texture.0,
                sized(a.item.texture.0, a.item.width, a.item.height),
            ),
            s.insert(i, a),
        ),
{
    let name = a.item.texture.0;
    let after = textures.insert(name, sized(name, a.item.width, a.item.height));
    let t = s.insert(i, a);
    assert forall|x: int| 0 <= x < t.len() implies after.contains_key(
        (#[trigger] t[x]).item.texture.0,
    ) && after[t[x].item.texture.0] == sized(
        t[x].item.texture.0,
        t[x].item.width,
        t[x].item.height,
    ) by {
        if x != i {
            let sx = if x < i { x } else { x - 1 };
            assert(t[x] == s[sx]);
        }
    }
    assert forall|x: int, y: int| 0 <= x < y < t.len() implies (#[trigger] t[x]).item.texture != (
    #[trigger] t[y]).item.texture by {
        let sx = if x < i { x } else { x - 1 };
        let sy = if y < i { y } else { y - 1 };
        if x == i {
            assert(t[y] == s[sy]);
        } else if y == i {
            assert(t[x] == s[sx]);
        } else {
            assert(t[x] == s[sx] && t[y] == s[sy]);
        }
    }
    assert forall|n: u32| #[trigger] after.contains_key(n) implies exists|x: int|
        0 <= x < t.len() && (#[trigger] t[x]).item.texture.0 == n by {
        if n == name {
            assert(t[i].item.texture.0 == n);
        } else {
            assert(textures.contains_key(n));
            let sx = choose|x: int| 0 <= x < s.len() && (#[trigger] s[x]).item.texture.0 == n;
            let x = if sx < i { sx } else { sx + 1 };
            assert(t[x] == s[sx]);
        }
    }
}

/// A graphic can take a texture that is new to the display in the place of
/// its own, which is released.
proof fn lemma_backed_replace(textures: Textures, s: Seq<Attachment>, i: int, a: Attachment)
    requires
        backed(textures, s),
        0 <= i < s.len(),
        !textures.contains_key(a.item.texture.0),
    ensures
        backed(
            textures.remove(s[i].item.texture.0).insert(
                a.item.texture.0,
                sized(a.item.texture.0, a.item.width, a.item.height),
            ),
            s.update(i, a),
        ),
{
    let name = a.item.texture.0;
    let gone = s[i].item.texture.0;
    let after = textures.remove(gone).insert(name, sized(name, a.item.width, a.item.height));
    let t = s.update(i, a);
    assert forall|x: int| 0 <= x < t.len() implies after.contains_key(
        (#[trigger] t[x]).item.texture.0,
    ) && after[t[x].item.texture.0] == sized(
        t[x].item.texture.0,
        t[x].item.width,
        t[x].item.height,
    ) by {
        if x != i {
            assert(t[x] == s[x]);
            if x < i {
                assert(s[x].item.texture != s[i].item.texture);
            } else {
                assert(s[i].item.texture != s[x].item.texture);
            }
        }
    }
    assert forall|x: int, y: int| 0 <= x < y < t.len() implies (#[trigger] t[x]).item.texture != (
    #[trigger] t[y]).item.texture by {
        if x == i {
            assert(t[y] == s[y]);
        } else if y == i {
            assert(t[x] == s[x]);
        } else {
            assert(t[x] == s[x] && t[y] == s[y]);
        }
    }
    assert forall|n: u32| #[trigger] after.contains_key(n) implies exists|x: int|
        0 <= x < t.len() && (#[trigger] t[x]).item.texture.0 == n by {
        if n == name {
            assert(t[i].item.texture.0 == n);
        } else {
            assert(textures.contains_key(n));
            let x = choose|x: int| 0 <= x < s.len() && (#[trigger] s[x]).item.texture.0 == n;
            assert(t[x] == s[x]);
        }
    }
}

/// The display can copy `piece`, the first rows of pixels of `g`, into the
/// texture of the graphic that covers the top of `g`, once it has replaced
/// that texture if `g` does not fit within it.
proof fn lemma_copy_executes(
    textures: Textures,
    s: Seq<Attachment>,
    size: SizeInfo,
    g: GraphicDataView,
    names: Seq<u32>,
    piece: GraphicDataView,
)
    requires
        can_attach_aligned(s, size, g),
        g.width > 0,
        g.height > 0,
        backed(textures, s),
        tidy(s, size),
        reach(s, g.line as int) < s.len(),
        s[reach(s, g.line as int)].line <= g.line,
        fresh(textures, names),
        taken(s[reach(s, g.line as int)], size, g) <= names.len(),
        piece.wf(),
        piece.width == g.width,
        piece.color_type == g.color_type,
        piece.height <= space(s[reach(s, g.line as int)], size, g),
    ensures
        ({
            let i = reach(s, g.line as int);
            let a = s[i];
            executes(
                textures,
                size,
                names,
                Attached {
                    entries: s.update(
                        i,
                        Attachment { line: a.line, item: target(a, size, g, names[0]) },
                    ),
                    commands: copy_commands(a, size, g, names[0], piece),
                    textures: taken(a, size, g),
                },
            )
        }),
{
    let i = reach(s, g.line as int);
    let a = s[i];
    let c = size.cell_height as int;
    let cw = size.cell_width as int;
    let name = names[0];
    lemma_reach(s, g.line as int);
    lemma_rows_positive(g, size);
    assert(a.meets(g.line as int, g.bottom(size)));
    lemma_surface(a, size, g, name);
    lemma_surface(a, size, g, 0);
    let item = target(a, size, g, name);
    let entries = s.update(i, Attachment { line: a.line, item });
    let x = (g.column - item.column) * cw;
    let y = (g.line - a.line) * c;
    let blit = CommandView::BlitGraphic(piece.blit(item.texture.0, x, y));
    assert(x + g.width <= item.width) by {
        assert(surface_right(item, size) >= g.right(size));
    }
    assert(y + piece.height <= item.height);
    assert(piece.pixels.len() == piece.height * (piece.width
        * piece.color_type.spec_bytes_per_pixel()));
    assert forall|k: int| 0 <= k < entries.len() implies (#[trigger] entries[k]).item.height
        <= entries[k].rows() * c by {
        if k != i {
            assert(entries[k] == s[k]);
        }
    }
    if need_resize(a.item, size, g) {
        let resize = CommandView::ResizeTexture(resize_of(a, size, g, name));
        let between = textures.remove(a.item.texture.0).insert(
            name,
            sized(name, item.width, item.height),
        );
        assert(a.item.height <= a.rows() * c);
        assert(resized(textures, resize_of(a, size, g, name)) == Ok::<
            Textures,
            crate::renderer::UpdateError,
        >(between));
        lemma_backed_replace(textures, s, i, Attachment { line: a.line, item });
        assert(blitted(between, piece.blit(item.texture.0, x, y)) == Ok::<
            Textures,
            crate::renderer::UpdateError,
        >(between));
        lemma_executed_one(textures, resize);
        lemma_executed_one(between, blit);
        lemma_executed_concat(textures, seq![resize], seq![blit]);
        assert(copy_commands(a, size, g, name, piece) =~= seq![resize] + seq![blit]);
        assert forall|n: u32| #[trigger] between.contains_key(n) implies textures.contains_key(n)
            || exists|k: int| 0 <= k < 1 && names[k] == n by {
            if !textures.contains_key(n) {
                assert(0 <= 0 < 1 && names[0] == n);
            }
        }
    } else {
        assert(s.update(i, a) =~= s);
        assert(blitted(textures, piece.blit(item.texture.0, x, y)) == Ok::<
            Textures,
            crate::renderer::UpdateError,
        >(textures));
        lemma_executed_one(textures, blit);
        assert(copy_commands(a, size, g, name, piece) =~= seq![blit]);
    }
}

/// Every texture of `after` is one of `textures`, or has one of the first
/// `count` of `names`.
pub open spec fn grown(textures: Textures, after: Textures, names: Seq<u32>, count: int) -> bool {
    forall|n: u32| #[trigger]
        after.contains_key(n) ==> textures.contains_key(n) || exists|k: int|
            0 <= k < count && names[k] == n
}

/// What holds of the display once it has executed the commands of a graphic:
/// it could execute them, holds one texture for each graphic of the grid and
/// no other, and made no texture but with the names that the commands took.
pub open spec fn executes(
    textures: Textures,
    size: SizeInfo,
    names: Seq<u32>,
    outcome: Attached,
) -> bool {
    let after = executed_all(textures, outcome.commands);
    &&& after.is_some()
    &&& backed(after.unwrap(), outcome.entries)
    &&& tidy(outcome.entries, size)
    &&& grown(textures, after.unwrap(), names, outcome.textures as int)
}

/// Graphics put among graphics whose textures are not too high leave them so.
proof fn lemma_tidy_insert(s: Seq<Attachment>, size: SizeInfo, i: int, a: Attachment)
    requires
        tidy(s, size),
        0 <= i <= s.len(),
        a.item.height <= a.rows() * size.cell_height,
    ensures
        tidy(s.insert(i, a), size),
{
    let entries = s.insert(i, a);
    assert forall|k: int| 0 <= k < entries.len() implies (#[trigger] entries[k]).item.height
        <= entries[k].rows() * size.cell_height by {
        if k < i {
            assert(entries[k] == s[k]);
        } else if k > i {
            assert(entries[k] == s[k - 1]);
        }
    }
}

/// The display can make the texture for the rows of `g` above the first
/// graphic that it meets.
proof fn lemma_above_first(
    textures: Textures,
    s: Seq<Attachment>,
    size: SizeInfo,
    g: GraphicDataView,
    names: Seq<u32>,
)
    requires
        can_attach_aligned(s, size, g),
        g.width > 0,
        g.height > 0,
        backed(textures, s),
        tidy(s, size),
        fresh(textures, names),
        names.len() >= 1,
        reach(s, g.line as int) < s.len(),
        g.line < s[reach(s, g.line as int)].line <= g.bottom(size),
    ensures
        ({
            let i = reach(s, g.line as int);
            let height = (s[i].line - g.line) * size.cell_height;
            let upper = g.head(height);
            let entries = s.insert(
                i,
                Attachment { line: g.line, item: upper.item(size, names[0]) },
            );
            let between = textures.insert(names[0], sized(names[0], upper.width, upper.height));
            &&& executed_all(textures, seq![CommandView::InitTexture(names[0], upper)]) == Some(
                between,
            )
            &&& backed(between, entries)
            &&& tidy(entries, size)
            &&& fresh(between, names.skip(1))
            &&& can_attach_aligned(entries, size, g.tail(height, s[i].line as int))
            &&& g.tail(height, s[i].line as int).height < g.height
        }),
{
    let i = reach(s, g.line as int);
    let a = s[i];
    let c = size.cell_height as int;
    lemma_reach(s, g.line as int);
    lemma_upper_step(s, size, g, names[0]);
    let height = (a.line - g.line) * c;
    let upper = g.head(height);
    let e = Attachment { line: g.line, item: upper.item(size, names[0]) };
    let between = textures.insert(names[0], sized(names[0], upper.width, upper.height));
    lemma_cut(g, height, a.line as int);
    assert(initialized(textures, names[0], upper) == Ok::<Textures, crate::renderer::UpdateError>(
        between,
    ));
    lemma_executed_one(textures, CommandView::InitTexture(names[0], upper));
    lemma_backed_insert(textures, s, i, e);
    lemma_tidy_insert(s, size, i, e);
    assert forall|n: u32| #[trigger] between.contains_key(n) implies textures.contains_key(n)
        || exists|k: int| 0 <= k < 1 && names[k] == n by {
        if !textures.contains_key(n) {
            assert(0 <= 0 < 1 && names[0] == n);
        }
    }
    lemma_fresh_skip(textures, between, names, 1);
}

/// What the display made for the first commands of a graphic and for those
/// that follow is what it made for all of them.
proof fn lemma_grown_after(
    textures: Textures,
    between: Textures,
    after: Textures,
    names: Seq<u32>,
    first: int,
    then: int,
)
    requires
        0 <= first,
        0 <= then,
        first + then <= names.len(),
        grown(textures, between, names, first),
        grown(between, after, names.skip(first), then),
    ensures
        grown(textures, after, names, first + then),
{
    assert forall|n: u32| #[trigger] after.contains_key(n) implies textures.contains_key(n)
        || exists|k: int| 0 <= k < first + then && names[k] == n by {
        if between.contains_key(n) {
            if !textures.contains_key(n) {
                let k = choose|k: int| 0 <= k < first && names[k] == n;
                assert(0 <= k < first + then && names[k] == n);
            }
        } else {
            let k = choose|k: int| 0 <= k < then && names.skip(first)[k] == n;
            assert(names[k + first] == n);
        }
    }
}

/// The display that holds one texture for each graphic of the grid, and no
/// other, can execute the commands that attaching a graphic gives, with names
/// for the new textures that are new to it. It holds one texture for each
/// graphic of the grid afterwards, and no other.
pub proof fn lemma_attach_executes(
    textures: Textures,
    s: Seq<Attachment>,
    size: SizeInfo,
    g: GraphicDataView,
    names: Seq<u32>,
)
    requires
        can_attach_aligned(s, size, g),
        backed(textures, s),
        tidy(s, size),
        fresh(textures, names),
        attach(s, size, g, names).textures <= names.len(),
    ensures
        executes(textures, size, names, attach(s, size, g, names)),
    decreases g.height,
{
    let out = attach(s, size, g, names);
    let c = size.cell_height as int;
    if g.width == 0 || g.height == 0 {
        assert(executed_first(textures, out.commands, 0) == Some(textures));
    } else {
        let i = reach(s, g.line as int);
        lemma_reach(s, g.line as int);
        lemma_rows_positive(g, size);
        if i < s.len() && s[i].line <= g.bottom(size) {
            let a = s[i];
            assert(a.meets(g.line as int, g.bottom(size)));
            if g.line < a.line {
                lemma_attach_above(s, size, g, names);
                lemma_above_first(textures, s, size, g, names);
                let height = (a.line - g.line) * c;
                let upper = g.head(height);
                let lower = g.tail(height, a.line as int);
                let entries = s.insert(
                    i,
                    Attachment { line: g.line, item: upper.item(size, names[0]) },
                );
                let first = seq![CommandView::InitTexture(names[0], upper)];
                let between = executed_all(textures, first).unwrap();
                let inner = attach(entries, size, lower, names.skip(1));
                lemma_attach_executes(between, entries, size, lower, names.skip(1));
                lemma_executed_concat(textures, first, inner.commands);
                assert(grown(textures, between, names, 1)) by {
                    assert forall|n: u32| #[trigger] between.contains_key(n) implies textures.contains_key(
                        n,
                    ) || exists|k: int| 0 <= k < 1 && names[k] == n by {
                        if !textures.contains_key(n) {
                            assert(0 <= 0 < 1 && names[0] == n);
                        }
                    }
                }
                lemma_grown_after(
                    textures,
                    between,
                    executed_all(between, inner.commands).unwrap(),
                    names,
                    1,
                    inner.textures as int,
                );
            } else if a.item.bottom >= g.bottom(size) {
                lemma_attach_inside(s, size, g, names);
                lemma_surface(a, size, g, names[0]);
                lemma_copy_executes(textures, s, size, g, names, g);
            } else {
                lemma_attach_across(s, size, g, names);
                lemma_lower_step(s, size, g, names[0]);
                lemma_surface(a, size, g, names[0]);
                lemma_surface(a, size, g, 0);
                let fits = space(a, size, g);
                let used = taken(a, size, g);
                let piece = g.head(fits);
                let lower = g.tail(fits, a.item.bottom + 1);
                let entries = s.update(
                    i,
                    Attachment { line: a.line, item: target(a, size, g, names[0]) },
                );
                let copied = copy_commands(a, size, g, names[0], piece);
                let inner = attach(entries, size, lower, names.skip(used as int));
                lemma_cut(g, fits, a.item.bottom + 1);
                lemma_copy_executes(textures, s, size, g, names, piece);
                let between = executed_all(textures, copied).unwrap();
                lemma_fresh_skip(textures, between, names, used as int);
                lemma_attach_executes(between, entries, size, lower, names.skip(used as int));
                lemma_executed_concat(textures, copied, inner.commands);
                lemma_grown_after(
                    textures,
                    between,
                    executed_all(between, inner.commands).unwrap(),
                    names,
                    used as int,
                    inner.textures as int,
                );
            }
        } else {
            lemma_reach_vacant(s, g.line as int, g.bottom(size));
            lemma_attach_free(s, size, g, names);
            lemma_free_executes(textures, s, size, g, names);
        }
    }
}

/// The display can make the texture for a graphic that meets no other.
proof fn lemma_free_executes(
    textures: Textures,
    s: Seq<Attachment>,
    size: SizeInfo,
    g: GraphicDataView,
    names: Seq<u32>,
)
    requires
        can_attach_aligned(s, size, g),
        g.width > 0,
        g.height > 0,
        backed(textures, s),
        tidy(s, size),
        fresh(textures, names),
        names.len() >= 1,
    ensures
        executes(
            textures,
            size,
            names,
            Attached {
                entries: s.insert(
                    reach(s, g.line as int),
                    Attachment { line: g.line, item: g.item(size, names[0]) },
                ),
                commands: seq![CommandView::InitTexture(names[0], g)],
                textures: 1,
            },
        ),
{
    let i = reach(s, g.line as int);
    let c = size.cell_height as int;
    lemma_reach(s, g.line as int);
    lemma_rows_positive(g, size);
    lemma_rows_bounds(g.height as int, c);
    let e = Attachment { line: g.line, item: g.item(size, names[0]) };
    let first = CommandView::InitTexture(names[0], g);
    let after = textures.insert(names[0], sized(names[0], g.width, g.height));
    assert(initialized(textures, names[0], g) == Ok::<Textures, crate::renderer::UpdateError>(
        after,
    ));
    lemma_backed_insert(textures, s, i, e);
    lemma_executed_one(textures, first);
    lemma_tidy_insert(s, size, i, e);
    assert forall|n: u32| #[trigger] after.contains_key(n) implies textures.contains_key(n)
        || exists|k: int| 0 <= k < 1 && names[k] == n by {
        if !textures.contains_key(n) {
            assert(0 <= 0 < 1 && names[0] == n);
        }
    }
}

/// The display holds one texture for each graphic of `s` and for each graphic
/// of `removed`, with the sizes of the graphics of `s`, and no other texture.
pub open spec fn backed_with(textures: Textures, s: Seq<Attachment>, removed: Seq<GraphicItem>)
    -> bool {
    &&& forall|i: int|
        0 <= i < s.len() ==> textures.contains_key((#[trigger] s[i]).item.texture.0)
            && textures[s[i].item.texture.0] == sized(
            s[i].item.texture.0,
            s[i].item.width,
            s[i].item.height,
        )
    &&& forall|i: int, j: int|
        0 <= i < j < s.len() ==> (#[trigger] s[i]).item.texture != (#[trigger] s[j]).item.texture
    &&& forall|i: int, j: int|
        0 <= i < s.len() && 0 <= j < removed.len() ==> (#[trigger] s[i]).item.texture != (
        #[trigger] removed[j]).texture
    &&& forall|name: u32| #[trigger]
        textures.contains_key(name) ==> (exists|i: int|
            0 <= i < s.len() && (#[trigger] s[i]).item.texture.0 == name) || (exists|j: int|
            0 <= j < removed.len() && (#[trigger] removed[j]).texture.0 == name)
}

/// `name` is one of `names`.
pub open spec fn named(names: Seq<u32>, name: u32) -> bool {
    exists|k: int| 0 <= k < names.len() && #[trigger] names[k] == name
}

/// The textures that are left once some are released are those that are not
/// named, as they were.
proof fn lemma_released(textures: Textures, names: Seq<u32>)
    ensures
        forall|n: u32| #[trigger]
            released(textures, names).contains_key(n) <==> textures.contains_key(n) && !named(
                names,
                n,
            ),
        forall|n: u32| #[trigger]
            released(textures, names).contains_key(n) ==> released(textures, names)[n]
                == textures[n],
    decreases names.len(),
{
    if names.len() > 0 {
        let shorter = names.drop_last();
        let last = names.last();
        lemma_released(textures, shorter);
        assert forall|n: u32| named(names, n) <==> named(shorter, n) || n == last by {
            if named(names, n) {
                let k = choose|k: int| 0 <= k < names.len() && #[trigger] names[k] == n;
                if k < shorter.len() {
                    assert(shorter[k] == n);
                }
            }
            if named(shorter, n) {
                let k = choose|k: int| 0 <= k < shorter.len() && #[trigger] shorter[k] == n;
                assert(names[k] == n);
            }
            if n == last {
                assert(names[names.len() - 1] == n);
            }
        }
        assert forall|n: u32| #[trigger]
            released(textures, names).contains_key(n) <==> textures.contains_key(n) && !named(
                names,
                n,
            ) by {
            assert(released(textures, names).contains_key(n) <==> released(
                textures,
                shorter,
            ).contains_key(n) && n != last);
            assert(named(names, n) <==> named(shorter, n) || n == last);
        }
        assert forall|n: u32| #[trigger]
            released(textures, names).contains_key(n) implies released(textures, names)[n]
            == textures[n] by {
            assert(released(textures, shorter).contains_key(n));
        }
    }
}

/// Once the textures of the graphics that left the grid are released, the
/// display holds one texture for each graphic of the grid, and no other.
pub proof fn lemma_delete_executes(textures: Textures, s: Seq<Attachment>, removed: Seq<GraphicItem>)
    requires
        backed_with(textures, s, removed),
    ensures
        executed_all(textures, deleted(removed)).is_some(),
        backed(executed_all(textures, deleted(removed)).unwrap(), s),
        forall|n: u32| #[trigger]
            executed_all(textures, deleted(removed)).unwrap().contains_key(n)
                ==> textures.contains_key(n),
{
    if removed.len() == 0 {
        assert(executed_first(textures, deleted(removed), 0) == Some(textures));
        assert forall|name: u32| #[trigger] textures.contains_key(name) implies exists|i: int|
            0 <= i < s.len() && (#[trigger] s[i]).item.texture.0 == name by {}
    } else {
        let names = textures_of(removed);
        let after = released(textures, names);
        lemma_released(textures, names);
        lemma_executed_one(textures, CommandView::DeleteTextures(names));
        assert forall|i: int| 0 <= i < s.len() implies after.contains_key(
            (#[trigger] s[i]).item.texture.0,
        ) && after[s[i].item.texture.0] == sized(
            s[i].item.texture.0,
            s[i].item.width,
            s[i].item.height,
        ) by {
            let n = s[i].item.texture.0;
            if named(names, n) {
                let k = choose|k: int| 0 <= k < names.len() && #[trigger] names[k] == n;
                assert(s[i].item.texture != removed[k].texture);
            }
        }
        assert forall|name: u32| #[trigger] after.contains_key(name) implies exists|i: int|
            0 <= i < s.len() && (#[trigger] s[i]).item.texture.0 == name by {
            assert(textures.contains_key(name));
            if exists|j: int| 0 <= j < removed.len() && (#[trigger] removed[j]).texture.0 == name {
                let j = choose|j: int|
                    0 <= j < removed.len() && (#[trigger] removed[j]).texture.0 == name;
                assert(names[j] == name);
                assert(named(names, name));
            }
        }
    }
}

/// The display that holds a texture for each graphic of the grid can draw
/// them.
pub proof fn lemma_render_executes(
    textures: Textures,
    s: Seq<Attachment>,
    base: int,
    size: SizeInfo,
    offset: int,
)
    requires
        backed(textures, s),
    ensures
        executed_all(textures, rendered(s, base, size, offset)) == Some(textures),
{
    let shown = visible(s, base, offset, size.screen_lines as int);
    let commands = rendered(s, base, size, offset);
    if shown.len() == 0 {
        assert(executed_first(textures, commands, 0) == Some(textures));
    } else {
        assert forall|k: int| 0 <= k < shown.len() implies textures.contains_key(
            (#[trigger] shown[k]).item.texture.0,
        ) by {
            s.lemma_filter_contains_rev(
                crate::prepare::showing(base, offset, size.screen_lines as int),
                shown[k],
            );
            let i = choose|i: int| 0 <= i < s.len() && s[i] == shown[k];
            assert(textures.contains_key(s[i].item.texture.0));
        }
        lemma_vertices_known(textures, shown);
        lemma_executed_one(textures, commands[0]);
        assert(commands =~= seq![commands[0]]);
    }
}

/// Every vertex of graphics that have their textures has its texture.
proof fn lemma_vertices_known(textures: Textures, shown: Seq<Attachment>)
    requires
        forall|k: int|
            0 <= k < shown.len() ==> textures.contains_key((#[trigger] shown[k]).item.texture.0),
    ensures
        first_unknown(textures, vertices_of(shown)).is_none(),
    decreases shown.len(),
{
    if shown.len() > 0 {
        let before = shown.drop_last();
        assert forall|k: int| 0 <= k < before.len() implies textures.contains_key(
            (#[trigger] before[k]).item.texture.0,
        ) by {
            assert(before[k] == shown[k]);
        }
        lemma_vertices_known(textures, before);
        assert(textures.contains_key(shown.last().item.texture.0));
        lemma_vertices_added(textures, vertices_of(before), quad(shown.last()), 6);
    }
}

/// Vertices that have their textures can follow others that do.
proof fn lemma_vertices_added(textures: Textures, first: Seq<Vertex>, next: Seq<Vertex>, count: int)
    requires
        first_unknown(textures, first).is_none(),
        0 <= count <= next.len(),
        forall|k: int| 0 <= k < next.len() ==> textures.contains_key((#[trigger] next[k]).texture_id),
    ensures
        first_unknown(textures, first + next.subrange(0, count)).is_none(),
        count == next.len() ==> first_unknown(textures, first + next).is_none(),
    decreases count,
{
    if count == 0 {
        assert(first + next.subrange(0, 0) =~= first);
    } else {
        lemma_vertices_added(textures, first, next, count - 1);
        let all = first + next.subrange(0, count);
        assert(all.drop_last() =~= first + next.subrange(0, count - 1));
        assert(all.last() == next[count - 1]);
    }
    if count == next.len() {
        assert(next.subrange(0, count) =~= next);
    }
}

/// The names that follow the first `count` of names that are new to the
/// display are new to it once textures are made with some of those first
/// names.
proof fn lemma_fresh_skip(textures: Textures, after: Textures, names: Seq<u32>, count: int)
    requires
        fresh(textures, names),
        0 <= count <= names.len(),
        forall|n: u32| #[trigger]
            after.contains_key(n) ==> textures.contains_key(n) || exists|k: int|
                0 <= k < count && names[k] == n,
    ensures
        fresh(after, names.skip(count)),
{
    let rest = names.skip(count);
    assert forall|k: int| 0 <= k < rest.len() implies !after.contains_key(#[trigger] rest[k]) by {
        let n = rest[k];
        assert(n == names[k + count]);
        if after.contains_key(n) {
            let j = choose|j: int| 0 <= j < count && names[j] == n;
            assert(names[j] != names[k + count]);
        }
    }
    assert forall|j: int, k: int| 0 <= j < k < rest.len() implies #[trigger] rest[j]
        != #[trigger] rest[k] by {
        assert(rest[j] == names[j + count] && rest[k] == names[k + count]);
    }
}

/// The display that holds one texture for each graphic of the grid, and no
/// other, can execute the commands that the pending graphics give, with names
/// for the new textures that are new to it. It holds one texture for each
/// graphic of the grid afterwards, and no other.
///
/// This is stated for a grid whose cells have kept their height since its
/// textures were made.
pub proof fn lemma_attach_all_executes(
    textures: Textures,
    s: Seq<Attachment>,
    size: SizeInfo,
    pending: Seq<GraphicDataView>,
    names: Seq<u32>,
)
    requires
        backed(textures, s),
        tidy(s, size),
        all_aligned(s, size),
        fresh(textures, names),
        attach_all(s, size, pending, names).textures <= names.len(),
    ensures
        executed_all(textures, attach_all(s, size, pending, names).commands).is_some(),
        backed(
            executed_all(textures, attach_all(s, size, pending, names).commands).unwrap(),
            attach_all(s, size, pending, names).entries,
        ),
        tidy(attach_all(s, size, pending, names).entries, size),
        all_aligned(attach_all(s, size, pending, names).entries, size),
    decreases pending.len(),
{
    let out = attach_all(s, size, pending, names);
    if pending.len() == 0 {
        assert(executed_first(textures, out.commands, 0) == Some(textures));
    } else {
        let first = attach_pending(s, size, pending[0], names);
        let rest = names.skip(first.textures as int);
        let inner = attach_all(first.entries, size, pending.skip(1), rest);
        let sized = resized_view(
            pending[0],
            size.cell_width as int,
            size.cell_height as int,
            size.width as int,
            size.height as int,
        );
        if sized.is_some() && can_attach(s, size, sized.unwrap()) {
            lemma_aligned_can_attach(s, size, sized.unwrap());
            lemma_attach_executes(textures, s, size, sized.unwrap(), names);
            lemma_attach_keeps_aligned(s, size, sized.unwrap(), names);
        } else {
            assert(executed_first(textures, first.commands, 0) == Some(textures));
        }
        let between = executed_all(textures, first.commands).unwrap();
        lemma_fresh_skip(textures, between, names, first.textures as int);
        lemma_attach_all_executes(between, first.entries, size, pending.skip(1), rest);
        lemma_executed_concat(textures, first.commands, inner.commands);
    }
}

/// The display that holds one texture for each graphic of the grid and for
/// each graphic that left it, and no other, can execute the commands of a
/// *prepare* phase, with names for the new textures that are new to it. It
/// holds one texture for each graphic of the grid afterwards, and no other:
/// no texture is lost, and none is left behind.
///
/// This is stated for a grid whose cells have kept their height since its
/// textures were made: no texture is higher than the rows of its graphic, and
/// one whose height is a whole number of cells is as high as those rows.
pub proof fn lemma_prepared_executes(
    textures: Textures,
    graphics: Graphics,
    size: SizeInfo,
    display_offset: int,
    names: Seq<u32>,
)
    requires
        backed_with(textures, graphics.attachments@, graphics.removed@),
        tidy(graphics.attachments@, size),
        all_aligned(graphics.attachments@, size),
        fresh(textures, names),
        prepared(graphics, size, display_offset, names).textures <= names.len(),
    ensures
        executed_all(textures, prepared(graphics, size, display_offset, names).commands).is_some(),
        backed(
            executed_all(
                textures,
                prepared(graphics, size, display_offset, names).commands,
            ).unwrap(),
            prepared(graphics, size, display_offset, names).entries,
        ),
        tidy(prepared(graphics, size, display_offset, names).entries, size),
        all_aligned(prepared(graphics, size, display_offset, names).entries, size),
{
    let s = graphics.attachments@;
    let first = deleted(graphics.removed@);
    let all = attach_all(s, size, views(graphics.pending@), names);
    let last = rendered(all.entries, graphics.base_position as int, size, display_offset);
    lemma_delete_executes(textures, s, graphics.removed@);
    let cleaned = executed_all(textures, first).unwrap();
    assert(fresh(cleaned, names));
    lemma_attach_all_executes(cleaned, s, size, views(graphics.pending@), names);
    let attached = executed_all(cleaned, all.commands).unwrap();
    lemma_render_executes(attached, all.entries, graphics.base_position as int, size, display_offset);
    lemma_executed_concat(textures, first, all.commands);
    lemma_executed_concat(textures, first + all.commands, last);
}

} // verus!
