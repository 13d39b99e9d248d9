//! The graphics attached to the grid, ordered by the rows they cover.
//!
//! Every row of the grid is covered by at most one graphic. The index keeps
//! its entries sorted by their top row, so that two neighbours never share a
//! row and a band of rows is found by bisection.

use vstd::prelude::*;

verus! {

/// Type for texture names generated in the GPU.
#[derive(Clone, Copy, Debug, PartialEq, Eq, Structural)]
pub struct TextureName(pub u32);

/// A graphic attached to the grid.
///
/// It holds what is needed to draw the graphic in the viewport. The row of its
/// top side is the key under which it is attached.
#[derive(Clone, Copy, Debug, PartialEq, Eq, Structural)]
pub struct GraphicItem {
    /// Texture in the GPU where the graphic pixels are stored.
    pub texture: TextureName,
    /// Column of the grid where the left side of the texture is.
    pub column: usize,
    /// Last row of the grid that the graphic covers.
    pub bottom: i64,
    /// Cell height at the moment the graphic was created.
    pub cell_height: usize,
    /// Width in pixels of the graphic.
    pub width: usize,
    /// Height in pixels of the graphic.
    pub height: usize,
}

/// A graphic together with the row of its top side.
#[derive(Clone, Copy, Debug, PartialEq, Eq, Structural)]
pub struct Attachment {
    /// First row of the grid that the graphic covers.
    pub line: i64,
    pub item: GraphicItem,
}

impl Attachment {
    /// The graphic covers `line`.
    pub open spec fn covers(self, line: int) -> bool {
        self.line <= line <= self.item.bottom
    }

    /// The graphic covers a row between `top` and `bottom`, for a `top` that
    /// is not below `bottom`.
    pub open spec fn meets(self, top: int, bottom: int) -> bool {
        self.line <= bottom && top <= self.item.bottom
    }

    /// The graphic covers a row of the band from `top` to `bottom`, which is
    /// empty if `top` is below `bottom`.
    pub open spec fn shares(self, top: int, bottom: int) -> bool {
        top <= bottom && self.meets(top, bottom)
    }

    /// Number of rows that the graphic covers.
    pub open spec fn rows(self) -> int {
        self.item.bottom - self.line + 1
    }
}

/// Every entry covers at least one row, and an entry ends above the row where
/// the next one starts.
pub open spec fn ordered(s: Seq<Attachment>) -> bool {
    &&& forall|i: int| 0 <= i < s.len() ==> (#[trigger] s[i]).line <= s[i].item.bottom
    &&& forall|i: int, j: int|
        0 <= i < j < s.len() ==> (#[trigger] s[i]).item.bottom < (#[trigger] s[j]).line
}

/// No entry of `s` covers a row between `top` and `bottom`.
pub open spec fn vacant(s: Seq<Attachment>, top: int, bottom: int) -> bool {
    forall|i: int| 0 <= i < s.len() ==> !(#[trigger] s[i]).meets(top, bottom)
}

/// Index of the first entry from `from` on that reaches down to `line`.
pub open spec fn reach_from(s: Seq<Attachment>, line: int, from: int) -> int
    decreases s.len() - from,
{
    if 0 <= from < s.len() && s[from].item.bottom < line {
        reach_from(s, line, from + 1)
    } else {
        from
    }
}

/// Number of entries that end above `line`. In an ordered sequence it is the
/// index of the first entry that reaches down to `line`.
pub open spec fn reach(s: Seq<Attachment>, line: int) -> int {
    reach_from(s, line, 0)
}

/// The graphic whose top side is at `line`.
pub open spec fn lookup(s: Seq<Attachment>, line: int) -> Option<GraphicItem> {
    let i = reach(s, line);
    if i < s.len() && s[i].line == line {
        Some(s[i].item)
    } else {
        None
    }
}

/// The entries that end at `limit` or below it, in their order.
pub open spec fn kept_from(s: Seq<Attachment>, limit: int) -> Seq<Attachment> {
    s.subrange(reach(s, limit), s.len() as int)
}

/// The entries that cover a row of the band from `top` to `bottom`, in their
/// order.
pub open spec fn within(s: Seq<Attachment>, top: int, bottom: int) -> Seq<Attachment> {
    s.filter(|a: Attachment| a.shares(top, bottom))
}

/// The entries that cover no row of the band from `top` to `bottom`, in their
/// order.
pub open spec fn without(s: Seq<Attachment>, top: int, bottom: int) -> Seq<Attachment> {
    s.filter(|a: Attachment| !a.shares(top, bottom))
}

/// The graphics of `s`, in their order.
pub open spec fn items_of(s: Seq<Attachment>) -> Seq<GraphicItem> {
    s.map_values(|a: Attachment| a.item)
}

pub proof fn lemma_reach_from(s: Seq<Attachment>, line: int, from: int, i: int)
    requires
        0 <= from <= i <= s.len(),
        forall|j: int| from <= j < i ==> (#[trigger] s[j]).item.bottom < line,
        i < s.len() ==> s[i].item.bottom >= line,
    ensures
        reach_from(s, line, from) == i,
    decreases i - from,
{
    if from < i {
        lemma_reach_from(s, line, from + 1, i);
    }
}

/// The index that `reach` gives is the one index with the entries that end
/// above `line` before it, and an entry that reaches `line` at it.
pub proof fn lemma_reach_is(s: Seq<Attachment>, line: int, i: int)
    requires
        0 <= i <= s.len(),
        forall|j: int| 0 <= j < i ==> (#[trigger] s[j]).item.bottom < line,
        i < s.len() ==> s[i].item.bottom >= line,
    ensures
        reach(s, line) == i,
{
    lemma_reach_from(s, line, 0, i);
}

proof fn lemma_reach_from_bounds(s: Seq<Attachment>, line: int, from: int)
    requires
        0 <= from <= s.len(),
    ensures
        from <= reach_from(s, line, from) <= s.len(),
        forall|j: int| from <= j < reach_from(s, line, from) ==> (#[trigger] s[j]).item.bottom < line,
        reach_from(s, line, from) < s.len() ==> s[reach_from(s, line, from)].item.bottom >= line,
    decreases s.len() - from,
{
    if from < s.len() && s[from].item.bottom < line {
        lemma_reach_from_bounds(s, line, from + 1);
    }
}

/// What `reach` finds: the entries before it end above `line`, and in an
/// ordered sequence the entries from it on reach down to `line`.
pub proof fn lemma_reach(s: Seq<Attachment>, line: int)
    ensures
        0 <= reach(s, line) <= s.len(),
        forall|j: int| 0 <= j < reach(s, line) ==> (#[trigger] s[j]).item.bottom < line,
        reach(s, line) < s.len() ==> s[reach(s, line)].item.bottom >= line,
        ordered(s) ==> forall|j: int|
            reach(s, line) <= j < s.len() ==> (#[trigger] s[j]).item.bottom >= line,
{
    lemma_reach_from_bounds(s, line, 0);
    if ordered(s) {
        let r = reach(s, line);
        assert forall|j: int| r <= j < s.len() implies (#[trigger] s[j]).item.bottom >= line by {
            if r < j {
                assert(s[r].item.bottom < s[j].line);
            }
        }
    }
}

/// No graphic covers a row of a band that ends above the first graphic that
/// reaches down to its top.
pub proof fn lemma_reach_vacant(s: Seq<Attachment>, top: int, bottom: int)
    requires
        ordered(s),
        reach(s, top) < s.len() ==> s[reach(s, top)].line > bottom,
    ensures
        vacant(s, top, bottom),
{
    let i = reach(s, top);
    lemma_reach(s, top);
    assert forall|j: int| 0 <= j < s.len() implies !(#[trigger] s[j]).meets(top, bottom) by {
        if j > i {
            assert(s[i].item.bottom < s[j].line);
            assert(s[i].line <= s[i].item.bottom);
        }
    }
}

/// The graphics attached to a grid, keyed by the row of their top side.
#[derive(Clone, Debug, PartialEq, Eq)]
pub struct Attachments {
    entries: Vec<Attachment>,
}

impl View for Attachments {
    type V = Seq<Attachment>;

    closed spec fn view(&self) -> Seq<Attachment> {
        self.entries@
    }
}

impl Attachments {
    /// No two graphics share a row.
    pub open spec fn wf(&self) -> bool {
        ordered(self@)
    }

    /// An index without graphics.
    pub fn new() -> (index: Attachments)
        ensures
            index@ == Seq::<Attachment>::empty(),
            index.wf(),
    {
        Attachments { entries: Vec::new() }
    }

    /// Number of graphics attached.
    pub fn len(&self) -> (n: usize)
        ensures
            n == self@.len(),
    {
        self.entries.len()
    }

    pub fn is_empty(&self) -> (empty: bool)
        ensures
            empty == (self@.len() == 0),
    {
        self.entries.len() == 0
    }

    /// Whether no two graphics share a row. It is so for an index that was
    /// filled through the functions of this crate within their contracts.
    pub fn is_ordered(&self) -> (yes: bool)
        ensures
            yes == self.wf(),
    {
        let ghost s = self.entries@;
        let mut i: usize = 0;
        while i < self.entries.len()
            invariant
                s == self.entries@,
                i <= s.len(),
                ordered(s.subrange(0, i as int)),
            decreases s.len() - i,
        {
            let next: Attachment = self.entries[i];
            if next.line > next.item.bottom {
                return false;
            }
            if i > 0 && self.entries[i - 1].item.bottom >= next.line {
                return false;
            }
            proof {
                let before = s.subrange(0, i as int);
                let upto = s.subrange(0, i + 1);
                assert forall|x: int, y: int| 0 <= x < y < upto.len() implies (
                #[trigger] upto[x]).item.bottom < (#[trigger] upto[y]).line by {
                    if y < i {
                        assert(before[x].item.bottom < before[y].line);
                    } else if x < i - 1 {
                        assert(before[x].item.bottom < before[i - 1].line);
                        assert(before[i - 1].line <= before[i - 1].item.bottom);
                    }
                }
                assert forall|x: int| 0 <= x < upto.len() implies (#[trigger] upto[x]).line
                    <= upto[x].item.bottom by {
                    if x < i {
                        assert(before[x].line <= before[x].item.bottom);
                    }
                }
            }
            i = i + 1;
        }
        proof {
            assert(s.subrange(0, s.len() as int) =~= s);
        }
        true
    }

    /// The entry at position `i`, counted from the top of the grid.
    pub fn entry(&self, i: usize) -> (attachment: Attachment)
        requires
            i < self@.len(),
        ensures
            attachment == self@[i as int],
    {
        self.entries[i]
    }

    /// Position of the first graphic that reaches down to `line`.
    pub fn first_reaching(&self, line: i64) -> (i: usize)
        requires
            self.wf(),
        ensures
            i == reach(self@, line as int),
            i <= self@.len(),
    {
        let mut low: usize = 0;
        let mut high: usize = self.entries.len();
        while low < high
            invariant
                low <= high <= self.entries@.len(),
                ordered(self.entries@),
                forall|j: int| 0 <= j < low ==> (#[trigger] self.entries@[j]).item.bottom < line,
                forall|j: int|
                    high <= j < self.entries@.len() ==> (#[trigger] self.entries@[j]).item.bottom
                        >= line,
            decreases high - low,
        {
            let middle: usize = low + (high - low) / 2;
            if self.entries[middle].item.bottom < line {
                proof {
                    let s = self.entries@;
                    assert forall|j: int| 0 <= j < middle + 1 implies (#[trigger] s[j]).item.bottom
                        < line by {
                        if j < middle {
                            assert(s[j].item.bottom < s[middle as int].line);
                        }
                    }
                }
                low = middle + 1;
            } else {
                proof {
                    let s = self.entries@;
                    assert forall|j: int| middle <= j < s.len() implies (#[trigger] s[j]).item.bottom
                        >= line by {
                        if middle < j {
                            assert(s[middle as int].item.bottom < s[j].line);
                        }
                    }
                }
                high = middle;
            }
        }
        proof {
            lemma_reach_is(self.entries@, line as int, low as int);
        }
        low
    }

    /// The graphic whose top side is at `line`.
    pub fn get(&self, line: i64) -> (item: Option<GraphicItem>)
        requires
            self.wf(),
        ensures
            item == lookup(self@, line as int),
    {
        let i: usize = self.first_reaching(line);
        if i < self.entries.len() && self.entries[i].line == line {
            Some(self.entries[i].item)
        } else {
            None
        }
    }

    /// Attaches `item` with its top side at `line`. The rows that it covers
    /// must be free.
    pub fn insert(&mut self, line: i64, item: GraphicItem)
        requires
            old(self).wf(),
            line <= item.bottom,
            vacant(old(self)@, line as int, item.bottom as int),
        ensures
            final(self).wf(),
            final(self)@ == old(self)@.insert(
                reach(old(self)@, line as int),
                Attachment { line, item },
            ),
    {
        let i: usize = self.first_reaching(line);
        proof {
            lemma_reach(self@, line as int);
            lemma_insert_ordered(self@, i as int, Attachment { line, item });
        }
        self.entries.insert(i, Attachment { line, item });
    }

    /// Puts `item` in the place of the graphic at position `i`, which covers
    /// the same rows.
    pub fn replace(&mut self, i: usize, item: GraphicItem)
        requires
            old(self).wf(),
            i < old(self)@.len(),
            item.bottom == old(self)@[i as int].item.bottom,
        ensures
            final(self).wf(),
            final(self)@ == old(self)@.update(
                i as int,
                Attachment { line: old(self)@[i as int].line, item },
            ),
    {
        let line: i64 = self.entries[i].line;
        proof {
            let s = self.entries@;
            let t = s.update(i as int, Attachment { line, item });
            assert forall|a: int, b: int| 0 <= a < b < t.len() implies (#[trigger] t[a]).item.bottom
                < (#[trigger] t[b]).line by {
                assert(s[a].item.bottom < s[b].line);
            }
            assert forall|a: int| 0 <= a < t.len() implies (#[trigger] t[a]).line
                <= t[a].item.bottom by {
                assert(s[a].line <= s[a].item.bottom);
            }
        }
        self.entries.set(i, Attachment { line, item });
    }

    /// Detaches the graphic whose top side is at `line`.
    pub fn remove(&mut self, line: i64) -> (item: Option<GraphicItem>)
        requires
            old(self).wf(),
        ensures
            final(self).wf(),
            item == lookup(old(self)@, line as int),
            item.is_none() ==> final(self)@ == old(self)@,
            item.is_some() ==> final(self)@ == old(self)@.remove(reach(old(self)@, line as int)),
    {
        let i: usize = self.first_reaching(line);
        if i < self.entries.len() && self.entries[i].line == line {
            proof {
                lemma_subrange_ordered(self@, 0, self@.len() as int);
                lemma_remove_ordered(self@, i as int);
            }
            let attachment: Attachment = self.entries.remove(i);
            Some(attachment.item)
        } else {
            None
        }
    }

    /// Detaches every graphic that covers a row of the band from `top` to
    /// `bottom`, and returns them in their order.
    pub fn remove_range(&mut self, top: i64, bottom: i64) -> (removed: Vec<GraphicItem>)
        requires
            old(self).wf(),
        ensures
            final(self).wf(),
            final(self)@ == without(old(self)@, top as int, bottom as int),
            removed@ == items_of(within(old(self)@, top as int, bottom as int)),
    {
        let ghost before = self.entries@;
        let mut removed: Vec<GraphicItem> = Vec::new();
        if top > bottom {
            proof {
                lemma_filter_none(before, |a: Attachment| a.shares(top as int, bottom as int));
                lemma_filter_all(before, |a: Attachment| !a.shares(top as int, bottom as int));
                assert(items_of(Seq::<Attachment>::empty()) =~= Seq::<GraphicItem>::empty());
            }
            return removed;
        }
        let first: usize = self.first_reaching(top);
        proof {
            lemma_reach(before, top as int);
        }
        while first < self.entries.len() && self.entries[first].line <= bottom
            invariant
                first <= self.entries@.len(),
                first == reach(before, top as int),
                ordered(before),
                ordered(self.entries@),
                before.len() == self.entries@.len() + removed@.len(),
                self.entries@ == before.subrange(0, first as int) + before.subrange(
                    first + removed@.len(),
                    before.len() as int,
                ),
                removed@ == items_of(before.subrange(first as int, first + removed@.len())),
                forall|j: int|
                    first <= j < first + removed@.len() ==> (#[trigger] before[j]).meets(
                        top as int,
                        bottom as int,
                    ),
                forall|j: int| 0 <= j < first ==> (#[trigger] before[j]).item.bottom < top,
                forall|j: int| first <= j < before.len() ==> (#[trigger] before[j]).item.bottom >= top,
            decreases self.entries@.len() - first,
        {
            let ghost now = self.entries@;
            let ghost k = removed@.len() as int;
            proof {
                assert(now[first as int] == before[first + k]);
                lemma_remove_ordered(now, first as int);
            }
            let attachment: Attachment = self.entries.remove(first);
            removed.push(attachment.item);
            proof {
                assert(self.entries@ =~= before.subrange(0, first as int) + before.subrange(
                    first + k + 1,
                    before.len() as int,
                ));
                assert(removed@ =~= items_of(before.subrange(first as int, first + k + 1)));
            }
        }
        proof {
            let k = removed@.len() as int;
            lemma_filter_band(before, top as int, bottom as int, first as int, k);
        }
        removed
    }

    /// Detaches every graphic that ends above `limit`, and returns them in
    /// their order.
    pub fn remove_above(&mut self, limit: i64) -> (removed: Vec<GraphicItem>)
        requires
            old(self).wf(),
        ensures
            final(self).wf(),
            final(self)@ == kept_from(old(self)@, limit as int),
            removed@ == items_of(old(self)@.subrange(0, reach(old(self)@, limit as int))),
    {
        let count: usize = self.first_reaching(limit);
        let ghost before = self.entries@;
        proof {
            lemma_subrange_ordered(before, count as int, before.len() as int);
        }
        let rest: Vec<Attachment> = self.entries.split_off(count);
        let mut removed: Vec<GraphicItem> = Vec::new();
        let mut i: usize = 0;
        while i < count
            invariant
                i <= count == self.entries@.len(),
                count <= before.len(),
                self.entries@ == before.subrange(0, count as int),
                removed@ == items_of(before.subrange(0, i as int)),
            decreases count - i,
        {
            removed.push(self.entries[i].item);
            proof {
                assert(removed@ =~= items_of(before.subrange(0, i + 1)));
            }
            i = i + 1;
        }
        self.entries = rest;
        removed
    }

    /// Detaches every graphic, and returns them in their order.
    pub fn take_all(&mut self) -> (removed: Vec<GraphicItem>)
        ensures
            final(self)@ == Seq::<Attachment>::empty(),
            final(self).wf(),
            removed@ == items_of(old(self)@),
    {
        let mut removed: Vec<GraphicItem> = Vec::new();
        let mut i: usize = 0;
        while i < self.entries.len()
            invariant
                i <= self.entries@.len(),
                removed@ == items_of(self.entries@.subrange(0, i as int)),
            decreases self.entries@.len() - i,
        {
            removed.push(self.entries[i].item);
            proof {
                assert(removed@ =~= items_of(self.entries@.subrange(0, i + 1)));
            }
            i = i + 1;
        }
        proof {
            assert(self.entries@.subrange(0, self.entries@.len() as int) =~= self.entries@);
        }
        self.entries = Vec::new();
        removed
    }
}

/// An entry can go where `reach` puts it if it covers rows that are free.
pub proof fn lemma_insert_ordered(s: Seq<Attachment>, i: int, a: Attachment)
    requires
        ordered(s),
        a.line <= a.item.bottom,
        vacant(s, a.line as int, a.item.bottom as int),
        i == reach(s, a.line as int),
    ensures
        ordered(s.insert(i, a)),
{
    lemma_reach(s, a.line as int);
    let t = s.insert(i, a);
    assert forall|x: int, y: int| 0 <= x < y < t.len() implies (#[trigger] t[x]).item.bottom < (
    #[trigger] t[y]).line by {
        if y == i {
            assert(t[x] == s[x]);
        } else if x == i {
            assert(t[y] == s[y - 1]);
            assert(!s[y - 1].meets(a.line as int, a.item.bottom as int));
            assert(s[y - 1].item.bottom >= a.line);
        } else {
            let sx = if x < i { x } else { x - 1 };
            let sy = if y < i { y } else { y - 1 };
            assert(t[x] == s[sx] && t[y] == s[sy]);
            assert(s[sx].item.bottom < s[sy].line);
        }
    }
    assert forall|x: int| 0 <= x < t.len() implies (#[trigger] t[x]).line <= t[x].item.bottom by {
        if x != i {
            let sx = if x < i { x } else { x - 1 };
            assert(t[x] == s[sx]);
        }
    }
}

pub proof fn lemma_remove_ordered(s: Seq<Attachment>, i: int)
    requires
        ordered(s),
        0 <= i < s.len(),
    ensures
        ordered(s.remove(i)),
{
    let t = s.remove(i);
    assert forall|x: int, y: int| 0 <= x < y < t.len() implies (#[trigger] t[x]).item.bottom < (
    #[trigger] t[y]).line by {
        let sx = if x < i { x } else { x + 1 };
        let sy = if y < i { y } else { y + 1 };
        assert(t[x] == s[sx] && t[y] == s[sy]);
        assert(s[sx].item.bottom < s[sy].line);
    }
    assert forall|x: int| 0 <= x < t.len() implies (#[trigger] t[x]).line <= t[x].item.bottom by {
        let sx = if x < i { x } else { x + 1 };
        assert(t[x] == s[sx]);
    }
}

pub proof fn lemma_subrange_ordered(s: Seq<Attachment>, from: int, to: int)
    requires
        ordered(s),
        0 <= from <= to <= s.len(),
    ensures
        ordered(s.subrange(from, to)),
{
    let t = s.subrange(from, to);
    assert forall|x: int, y: int| 0 <= x < y < t.len() implies (#[trigger] t[x]).item.bottom < (
    #[trigger] t[y]).line by {
        assert(s[from + x].item.bottom < s[from + y].line);
    }
    assert forall|x: int| 0 <= x < t.len() implies (#[trigger] t[x]).line <= t[x].item.bottom by {
        assert(t[x] == s[from + x]);
    }
}

/// In an ordered sequence the entries that cover a row between `top` and
/// `bottom` stand side by side, from where `reach` points.
proof fn lemma_filter_band(s: Seq<Attachment>, top: int, bottom: int, first: int, k: int)
    requires
        ordered(s),
        0 <= first,
        0 <= k,
        first + k <= s.len(),
        top <= bottom,
        forall|j: int| 0 <= j < first ==> (#[trigger] s[j]).item.bottom < top,
        forall|j: int| first <= j < first + k ==> (#[trigger] s[j]).meets(top, bottom),
        first + k < s.len() ==> s[first + k].line > bottom,
    ensures
        within(s, top, bottom) == s.subrange(first, first + k),
        without(s, top, bottom) == s.subrange(0, first) + s.subrange(first + k, s.len() as int),
{
    let inside = |a: Attachment| a.shares(top, bottom);
    let outside = |a: Attachment| !a.shares(top, bottom);
    assert forall|j: int| first + k <= j < s.len() implies (#[trigger] s[j]).line > bottom by {
        if first + k < j {
            assert(s[first + k].item.bottom < s[j].line);
            assert(s[first + k].line <= s[first + k].item.bottom);
        }
    }
    lemma_filter_none(s.subrange(0, first), inside);
    lemma_filter_all(s.subrange(first, first + k), inside);
    lemma_filter_none(s.subrange(first + k, s.len() as int), inside);
    lemma_filter_all(s.subrange(0, first), outside);
    lemma_filter_none(s.subrange(first, first + k), outside);
    lemma_filter_all(s.subrange(first + k, s.len() as int), outside);
    let a = s.subrange(0, first);
    let b = s.subrange(first, first + k);
    let c = s.subrange(first + k, s.len() as int);
    assert(s =~= a + b + c);
    Seq::filter_distributes_over_add(a + b, c, inside);
    Seq::filter_distributes_over_add(a, b, inside);
    Seq::filter_distributes_over_add(a + b, c, outside);
    Seq::filter_distributes_over_add(a, b, outside);
    assert(Seq::<Attachment>::empty() + b + Seq::<Attachment>::empty() =~= b);
    assert(a + Seq::<Attachment>::empty() + c =~= a + c);
}

proof fn lemma_filter_none(s: Seq<Attachment>, pred: spec_fn(Attachment) -> bool)
    requires
        forall|j: int| 0 <= j < s.len() ==> !pred(#[trigger] s[j]),
    ensures
        s.filter(pred) == Seq::<Attachment>::empty(),
    decreases s.len(),
{
    reveal(Seq::filter);
    if s.len() > 0 {
        lemma_filter_none(s.drop_last(), pred);
    }
}

proof fn lemma_filter_all(s: Seq<Attachment>, pred: spec_fn(Attachment) -> bool)
    requires
        forall|j: int| 0 <= j < s.len() ==> pred(#[trigger] s[j]),
    ensures
        s.filter(pred) == s,
    decreases s.len(),
{
    reveal(Seq::filter);
    if s.len() > 0 {
        lemma_filter_all(s.drop_last(), pred);
        assert(s.drop_last().push(s.last()) =~= s);
    }
}

} // verus!
