//! Storage for the graphics of one grid: those waiting to be attached, those
//! attached, and those whose textures wait to be released.

use vstd::prelude::*;
use crate::attachments::{
    items_of, kept_from, lemma_reach, reach, within, without, Attachment, Attachments,
    GraphicItem,
};
use crate::geometry::SizeInfo;
use crate::graphics::{GraphicData, GraphicDataView, GraphicId, Rgb};

verus! {

/// Most rows that a graphic is expected to cover: one for each row of pixels
/// of the tallest graphic accepted.
pub const ROWS_PER_GRAPHIC: usize = 4096;

/// A band of rows of the grid, both ends included. It is empty when `start`
/// is below `end`.
#[derive(Clone, Copy, Debug, PartialEq, Eq, Structural)]
pub struct LineRange {
    pub start: i64,
    pub end: i64,
}

impl LineRange {
    pub open spec fn spec_contains(&self, line: i64) -> bool {
        self.start <= line <= self.end
    }

    #[verifier::when_used_as_spec(spec_contains)]
    pub fn contains(&self, line: i64) -> (inside: bool)
        ensures
            inside == self.spec_contains(line),
    {
        self.start <= line && line <= self.end
    }
}

/// The pixels and places of a sequence of graphics.
pub open spec fn views(s: Seq<GraphicData>) -> Seq<GraphicDataView> {
    s.map_values(|g: GraphicData| g@)
}

/// Storage for graphics attached to a grid.
///
/// Graphics read from the PTY are added to the `pending` queue. The display
/// collects them, moves their pixels to the GPU and attaches them to the rows
/// that they cover. Graphics that leave the grid go to the `removed` queue, so
/// that the display releases their textures.
///
/// `base_position` is the row of the grid's first line. It moves when the grid
/// is scrolled up or resized, which keeps the rows of the attached graphics
/// unchanged.
#[derive(Clone, Debug, PartialEq, Eq)]
pub struct Graphics {
    /// Last generated identifier.
    pub last_id: u64,
    /// Row of the first line of the grid.
    pub base_position: i64,
    /// Graphics read from the PTY, and ready to be attached to the display.
    pub pending: Vec<GraphicData>,
    /// Graphics attached to the grid.
    pub attachments: Attachments,
    /// Graphics removed from the grid. The display is responsible to release
    /// the resources used by them.
    pub removed: Vec<GraphicItem>,
    /// Shared palette for Sixel graphics.
    pub sixel_shared_palette: Option<Vec<Rgb>>,
}

/// The row above which the graphics leave the grid, when its first line is at
/// `base_position` and it keeps `history` rows above it.
pub open spec fn history_limit(base_position: int, history: int) -> int {
    base_position - history
}

/// First of the rows where a graphic that shows in the viewport can start.
pub open spec fn visible_start(base_position: int, display_offset: int) -> int {
    base_position - display_offset - ROWS_PER_GRAPHIC
}

/// Last row that the viewport shows.
pub open spec fn visible_end(base_position: int, display_offset: int, screen_lines: int) -> int {
    base_position - display_offset + screen_lines - 1
}

impl Graphics {
    /// No two attached graphics share a row.
    pub open spec fn wf(&self) -> bool {
        self.attachments.wf()
    }

    /// Whether no two attached graphics share a row.
    pub fn is_ordered(&self) -> (yes: bool)
        ensures
            yes == self.wf(),
    {
        self.attachments.is_ordered()
    }

    /// A storage without graphics.
    pub fn new() -> (graphics: Graphics)
        ensures
            graphics.wf(),
            graphics.last_id == 0,
            graphics.base_position == 0,
            graphics.pending@.len() == 0,
            graphics.attachments@.len() == 0,
            graphics.removed@.len() == 0,
            graphics.sixel_shared_palette.is_none(),
    {
        Graphics {
            last_id: 0,
            base_position: 0,
            pending: Vec::new(),
            attachments: Attachments::new(),
            removed: Vec::new(),
            sixel_shared_palette: None,
        }
    }

    /// Generate a new graphics identifier.
    pub fn next_id(&mut self) -> (id: GraphicId)
        requires
            old(self).last_id < u64::MAX,
        ensures
            id.0 == old(self).last_id + 1,
            *final(self) == (Graphics { last_id: id.0, ..*old(self) }),
    {
        self.last_id += 1;
        GraphicId(self.last_id)
    }

    /// Nothing is attached, nothing waits to be attached or released.
    pub fn is_empty(&self) -> (empty: bool)
        ensures
            empty == (self.pending@.len() == 0 && self.attachments@.len() == 0
                && self.removed@.len() == 0),
    {
        self.pending.len() == 0 && self.attachments.is_empty() && self.removed.len() == 0
    }

    /// Adds a graphic to the queue of those that wait to be attached.
    pub fn enqueue(&mut self, graphic: GraphicData)
        ensures
            final(self).pending@ == old(self).pending@.push(graphic),
            final(self).last_id == old(self).last_id,
            final(self).base_position == old(self).base_position,
            final(self).attachments == old(self).attachments,
            final(self).removed == old(self).removed,
            final(self).sixel_shared_palette == old(self).sixel_shared_palette,
    {
        self.pending.push(graphic);
    }

    /// Attaches a graphic with its top side at `line`, on rows that are free.
    pub fn attach(&mut self, line: i64, item: GraphicItem)
        requires
            old(self).wf(),
            line <= item.bottom,
            crate::attachments::vacant(old(self).attachments@, line as int, item.bottom as int),
        ensures
            final(self).wf(),
            final(self).attachments@ == old(self).attachments@.insert(
                reach(old(self).attachments@, line as int),
                Attachment { line, item },
            ),
            final(self).last_id == old(self).last_id,
            final(self).base_position == old(self).base_position,
            final(self).pending == old(self).pending,
            final(self).removed == old(self).removed,
            final(self).sixel_shared_palette == old(self).sixel_shared_palette,
    {
        self.attachments.insert(line, item);
    }

    /// Takes every graphic off the grid. Those attached go to the `removed`
    /// queue, those pending are dropped, and so is the shared palette.
    pub fn clear(&mut self)
        requires
            old(self).wf(),
        ensures
            final(self).wf(),
            final(self).attachments@.len() == 0,
            final(self).pending@.len() == 0,
            final(self).removed@ == old(self).removed@ + items_of(old(self).attachments@),
            final(self).sixel_shared_palette.is_none(),
            final(self).base_position == 0,
            final(self).last_id == old(self).last_id,
    {
        let mut detached: Vec<GraphicItem> = self.attachments.take_all();
        self.removed.append(&mut detached);
        self.pending.clear();
        self.sixel_shared_palette = None;
        self.base_position = 0;
    }

    /// Takes off the grid the graphics that cover a row of `range`.
    pub fn clear_range(&mut self, range: LineRange)
        requires
            old(self).wf(),
        ensures
            final(self).wf(),
            final(self).attachments@ == without(
                old(self).attachments@,
                range.start as int,
                range.end as int,
            ),
            final(self).removed@ == old(self).removed@ + items_of(
                within(old(self).attachments@, range.start as int, range.end as int),
            ),
            final(self).last_id == old(self).last_id,
            final(self).base_position == old(self).base_position,
            final(self).pending == old(self).pending,
            final(self).sixel_shared_palette == old(self).sixel_shared_palette,
    {
        let mut detached: Vec<GraphicItem> = self.attachments.remove_range(range.start, range.end);
        self.removed.append(&mut detached);
    }

    /// Moves the first line of the grid by `delta` rows. The graphics that end
    /// more than `history` rows above it leave the grid.
    pub fn move_base_position(&mut self, delta: i64, history: usize)
        requires
            old(self).wf(),
            i64::MIN <= old(self).base_position + delta <= i64::MAX,
        ensures
            final(self).wf(),
            final(self).base_position == old(self).base_position + delta,
            final(self).attachments@ == kept_from(
                old(self).attachments@,
                history_limit(final(self).base_position as int, history as int),
            ),
            final(self).removed@ == old(self).removed@ + items_of(
                old(self).attachments@.subrange(
                    0,
                    reach(
                        old(self).attachments@,
                        history_limit(final(self).base_position as int, history as int),
                    ),
                ),
            ),
            forall|i: int|
                0 <= i < final(self).attachments@.len() ==> (
                #[trigger] final(self).attachments@[i]).item.bottom >= history_limit(
                    final(self).base_position as int,
                    history as int,
                ),
            final(self).last_id == old(self).last_id,
            final(self).pending == old(self).pending,
            final(self).sixel_shared_palette == old(self).sixel_shared_palette,
    {
        self.base_position = self.base_position + delta;
        let limit: i128 = self.base_position as i128 - history as i128;
        let ghost before = self.attachments@;
        if limit > i64::MIN as i128 {
            proof {
                lemma_reach(before, limit as int);
            }
            let mut detached: Vec<GraphicItem> = self.attachments.remove_above(limit as i64);
            self.removed.append(&mut detached);
        } else {
            proof {
                crate::attachments::lemma_reach_is(before, limit as int, 0);
                assert(before.subrange(0, before.len() as int) =~= before);
                assert(items_of(before.subrange(0, 0)) =~= Seq::<GraphicItem>::empty());
                assert(self.removed@ + Seq::<GraphicItem>::empty() =~= self.removed@);
            }
        }
    }

    /// The row that the first line of the viewport shows when it is scrolled
    /// `display_offset` rows up, or `None` if there is no such row.
    pub fn display_top(&self, display_offset: usize) -> (top: Option<i64>)
        ensures
            top.is_some() == (self.base_position - display_offset >= i64::MIN),
            top.is_some() ==> top.unwrap() == self.base_position - display_offset,
    {
        let top: i128 = self.base_position as i128 - display_offset as i128;
        if top < i64::MIN as i128 {
            None
        } else {
            Some(top as i64)
        }
    }

    /// The rows where a graphic that shows in the viewport can start, when the
    /// viewport is scrolled `display_offset` rows up into the history.
    ///
    /// The band starts `ROWS_PER_GRAPHIC` rows above the viewport, so that a
    /// graphic that starts above it and reaches into it is found.
    pub fn visible_range(&self, size_info: &SizeInfo, display_offset: usize) -> (range: LineRange)
        ensures
            forall|line: i64|
                range.spec_contains(line) <==> visible_start(
                    self.base_position as int,
                    display_offset as int,
                ) <= line <= visible_end(
                    self.base_position as int,
                    display_offset as int,
                    size_info.screen_lines as int,
                ),
    {
        let top: i128 = self.base_position as i128 - display_offset as i128;
        let start: i128 = top - ROWS_PER_GRAPHIC as i128;
        let end: i128 = top + size_info.screen_lines as i128 - 1;
        if end < i64::MIN as i128 || start > i64::MAX as i128 {
            LineRange { start: 0, end: -1 }
        } else {
            let first: i64 = if start < i64::MIN as i128 {
                i64::MIN
            } else {
                start as i64
            };
            let last: i64 = if end > i64::MAX as i128 {
                i64::MAX
            } else {
                end as i64
            };
            LineRange { start: first, end: last }
        }
    }
}

impl Default for Graphics {
    fn default() -> (graphics: Graphics)
        ensures
            graphics.wf(),
            graphics.last_id == 0,
            graphics.base_position == 0,
            graphics.pending@.len() == 0,
            graphics.attachments@.len() == 0,
            graphics.removed@.len() == 0,
            graphics.sixel_shared_palette.is_none(),
    {
        Graphics::new()
    }
}

} // verus!
