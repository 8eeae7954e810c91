//! The history on the screen: which rows are shown, and how it is scrolled.

use super::visual_rows::block::TurnInput;
use super::visual_rows::document;
use super::visual_rows::document::HistoryDocument;
use super::visual_rows::rows;
use super::visual_rows::rows::VisualRow;
use super::visual_rows::turn_cache;
use super::visual_rows::turn_cache::TurnRenderCache;
use crate::app::AppState;
use crate::model;
use vstd::prelude::*;

verus! {

/// A stretch of one row of the screen that carries a link.
#[derive(Clone, Copy, Debug, PartialEq, Eq, Structural)]
pub struct HyperlinkArea {
    pub x: u16,
    pub y: u16,
    pub width: u16,
}

/// The laid out history and the place it is read at.
pub struct HistoryRenderCache {
    pub generation: u64,
    pub cached_generation: Option<u64>,
    pub width: Option<u16>,
    pub document: HistoryDocument,
    pub turns: TurnRenderCache,
    pub scroll: usize,
    pub maximum: usize,
    pub viewport_height: Option<usize>,
    pub viewport_initialized: bool,
    pub terminal_hyperlinks: Vec<HyperlinkArea>,
    pub rebuilds: u64,
}

impl Default for HistoryRenderCache {
    fn default() -> (r: Self)
        ensures
            r.wf(),
            r.generation == 0,
            r.cached_generation is None,
            r.width is None,
            r.document@ == document::empty_document(),
            r.turns@ == (turn_cache::CacheView { width: None, entries: Map::empty(), rendered: 0 }),
            r.scroll == 0,
            r.maximum == 0,
            r.viewport_height is None,
            !r.viewport_initialized,
            r.terminal_hyperlinks@ == Seq::<HyperlinkArea>::empty(),
            r.rebuilds == 0,
    {
        HistoryRenderCache {
            generation: 0,
            cached_generation: None,
            width: None,
            document: HistoryDocument::default(),
            turns: TurnRenderCache::default(),
            scroll: 0,
            maximum: 0,
            viewport_height: None,
            viewport_initialized: false,
            terminal_hyperlinks: Vec::new(),
            rebuilds: 0,
        }
    }
}

/// Whether two histories hold the same rows, laid out for the same content.
pub open spec fn same_layout(a: HistoryRenderCache, b: HistoryRenderCache) -> bool {
    &&& a.cached_generation == b.cached_generation
    &&& a.width == b.width
    &&& a.document == b.document
    &&& a.turns == b.turns
    &&& a.terminal_hyperlinks == b.terminal_hyperlinks
    &&& a.rebuilds == b.rebuilds
}

/// Whether two histories are read at the same place.
pub open spec fn same_place(a: HistoryRenderCache, b: HistoryRenderCache) -> bool {
    &&& a.scroll == b.scroll
    &&& a.maximum == b.maximum
    &&& a.viewport_height == b.viewport_height
    &&& a.viewport_initialized == b.viewport_initialized
}

/// How far the history can be scrolled on a screen of some rows.
pub open spec fn highest_offset(rows: nat, height: nat) -> nat {
    (rows - document::smaller(height as int, rows as int)) as nat
}

/// Where the history is read after it was laid out again, or shown on a screen
/// of another height. Whoever reads the latest keeps reading the latest;
/// whoever reads further up keeps the row at the top, as long as it is there.
pub open spec fn moved_offset(scroll: nat, maximum: nat, new_maximum: nat) -> nat {
    let top = maximum - scroll;
    if scroll == 0 {
        0
    } else {
        (new_maximum - document::smaller(top, new_maximum as int)) as nat
    }
}

impl HistoryRenderCache {
    /// The place is never beyond the oldest row, and what is held fits together.
    pub open spec fn wf(&self) -> bool {
        &&& self.scroll <= self.maximum
        &&& self.turns.wf()
        &&& document::sections_fit(self.document@)
    }

    /// Whether the rows at hand are not those of the content at this width.
    pub open spec fn stale(&self, width: u16) -> bool {
        self.cached_generation != Some(self.generation) || self.width != Some(width)
    }

    /// The document that is shown next.
    pub open spec fn next_document(
        &self,
        turns: Seq<model::TurnView>,
        inputs: Seq<super::visual_rows::block::InputView>,
        width: u16,
    ) -> document::DocumentView {
        if self.stale(width) {
            turn_cache::rebuild(self.turns@, turns, inputs, width).document
        } else {
            self.document@
        }
    }

    /// Where the history is read next.
    pub open spec fn next_offset(
        &self,
        requested: nat,
        width: u16,
        height: usize,
        new_maximum: nat,
    ) -> nat {
        if !self.viewport_initialized {
            document::smaller(requested as int, new_maximum as int) as nat
        } else if self.stale(width) || self.viewport_height != Some(height) {
            moved_offset(self.scroll as nat, self.maximum as nat, new_maximum)
        } else {
            document::smaller(self.scroll as int, new_maximum as int) as nat
        }
    }

    /// Marks what is laid out as outdated.
    pub fn invalidate(&mut self)
        requires
            old(self).wf(),
        ensures
            final(self).wf(),
            same_layout(*final(self), *old(self)),
            same_place(*final(self), *old(self)),
            final(self).generation == (old(self).generation + 1) % 0x1_0000_0000_0000_0000,
            old(self).cached_generation == Some(old(self).generation) ==> forall|width: u16|
                #[trigger] final(self).stale(width),
    {
        self.generation = self.generation.wrapping_add(1);
    }

    /// Whether the rows at hand are not those of the content at this width.
    fn is_stale(&self, width: u16) -> (r: bool)
        ensures
            r == self.stale(width),
    {
        let laid_out: bool = match self.cached_generation {
            Some(generation) => generation == self.generation,
            None => false,
        };
        let fits: bool = match self.width {
            Some(known) => known == width,
            None => false,
        };
        !laid_out || !fits
    }

    /// Lays the history out where that is needed.
    pub fn document_for(&mut self, app: &AppState, width: u16, inputs: &Vec<TurnInput>)
        requires
            old(self).wf(),
            inputs@.len() == app.turns@.len(),
        ensures
            final(self).wf(),
            same_place(*final(self), *old(self)),
            final(self).generation == old(self).generation,
            final(self).terminal_hyperlinks == old(self).terminal_hyperlinks,
            !final(self).stale(width),
            final(self).document@ == old(self).next_document(
                model::turn_views(app.turns@),
                document::input_views(inputs@),
                width,
            ),
            !old(self).stale(width) ==> same_layout(*final(self), *old(self)),
            old(self).stale(width) ==> {
                &&& final(self).turns@ == turn_cache::rebuilt(
                    old(self).turns@,
                    model::turn_views(app.turns@),
                    document::input_views(inputs@),
                    width,
                )
                &&& final(self).rebuilds == turn_cache::counted(old(self).rebuilds as nat, 1)
            },
    {
        if self.is_stale(width) {
            self.document = HistoryDocument::from_app_cached(app, width, &mut self.turns, inputs);
            self.cached_generation = Some(self.generation);
            self.width = Some(width);
            if self.rebuilds < u64::MAX {
                self.rebuilds = self.rebuilds + 1;
            }
        }
    }

    /// The rows on the screen.
    pub fn viewport_rows(
        &mut self,
        app: &AppState,
        width: u16,
        height: usize,
        inputs: &Vec<TurnInput>,
    ) -> (r: Vec<VisualRow>)
        requires
            old(self).wf(),
            inputs@.len() == app.turns@.len(),
        ensures
            final(self).wf(),
            final(self).generation == old(self).generation,
            final(self).terminal_hyperlinks == old(self).terminal_hyperlinks,
            !final(self).stale(width),
            final(self).viewport_height == Some(height),
            final(self).viewport_initialized,
            final(self).document@ == old(self).next_document(
                model::turn_views(app.turns@),
                document::input_views(inputs@),
                width,
            ),
            final(self).maximum == highest_offset(final(self).document@.rows.len(), height as nat),
            final(self).scroll == old(self).next_offset(
                app.scroll_from_bottom as nat,
                width,
                height,
                final(self).maximum as nat,
            ),
            rows::row_views(r@) == document::view(
                final(self).document@,
                height as nat,
                final(self).scroll as nat,
            ),
            r@.len() == document::smaller(height as int, final(self).document@.rows.len() as int),
    {
        let rebuild: bool = self.is_stale(width);
        let layout_changed: bool = match self.viewport_height {
            Some(known) => known != height,
            None => true,
        };
        let old_top: usize = self.maximum - self.scroll;
        let old_scroll: usize = self.scroll;
        self.document_for(app, width, inputs);
        let total: usize = self.document.rows.len();
        assert(self.document@.rows.len() == total);
        let visible: usize = if height < total {
            height
        } else {
            total
        };
        let new_maximum: usize = total - visible;
        if !self.viewport_initialized {
            self.scroll = if app.scroll_from_bottom < new_maximum {
                app.scroll_from_bottom
            } else {
                new_maximum
            };
            self.viewport_initialized = true;
        } else if rebuild || layout_changed {
            self.scroll = if old_scroll == 0 {
                0
            } else if old_top < new_maximum {
                new_maximum - old_top
            } else {
                0
            };
        } else if self.scroll > new_maximum {
            self.scroll = new_maximum;
        }
        self.maximum = new_maximum;
        self.viewport_height = Some(height);
        self.document.viewport(height, self.scroll)
    }

    /// Moves towards older rows.
    pub fn scroll_up(&mut self, count: usize)
        requires
            old(self).wf(),
        ensures
            final(self).wf(),
            same_layout(*final(self), *old(self)),
            final(self).generation == old(self).generation,
            final(self).maximum == old(self).maximum,
            final(self).viewport_height == old(self).viewport_height,
            final(self).viewport_initialized == old(self).viewport_initialized,
            final(self).scroll == document::smaller(
                old(self).scroll + count,
                old(self).maximum as int,
            ),
    {
        let left: usize = self.maximum - self.scroll;
        self.scroll = if count < left {
            self.scroll + count
        } else {
            self.maximum
        };
    }

    /// Moves towards newer rows.
    pub fn scroll_down(&mut self, count: usize)
        requires
            old(self).wf(),
        ensures
            final(self).wf(),
            same_layout(*final(self), *old(self)),
            final(self).generation == old(self).generation,
            final(self).maximum == old(self).maximum,
            final(self).viewport_height == old(self).viewport_height,
            final(self).viewport_initialized == old(self).viewport_initialized,
            final(self).scroll == old(self).scroll - document::smaller(
                count as int,
                old(self).scroll as int,
            ),
    {
        self.scroll = if count < self.scroll {
            self.scroll - count
        } else {
            0
        };
    }

    /// How far above the latest row the history is read.
    pub fn scroll_from_bottom(&self) -> (r: usize)
        ensures
            r == self.scroll,
    {
        self.scroll
    }

    /// How far the history can be scrolled.
    pub fn maximum_offset(&self) -> (r: usize)
        ensures
            r == self.maximum,
    {
        self.maximum
    }

    pub open spec fn page(&self) -> int {
        match self.viewport_height {
            Some(height) => if height > 3 {
                height - 2
            } else {
                1
            },
            None => 1,
        }
    }

    /// A page keeps two rows of the previous view, so the eye has something to
    /// land on instead of starting again in unfamiliar text.
    pub fn page_rows(&self) -> (r: usize)
        ensures
            r == self.page(),
    {
        match self.viewport_height {
            Some(height) => {
                if height > 3 {
                    height - 2
                } else {
                    1
                }
            },
            None => 1,
        }
    }

    pub fn scroll_to_oldest(&mut self)
        requires
            old(self).wf(),
        ensures
            final(self).wf(),
            same_layout(*final(self), *old(self)),
            final(self).generation == old(self).generation,
            final(self).maximum == old(self).maximum,
            final(self).viewport_height == old(self).viewport_height,
            final(self).viewport_initialized == old(self).viewport_initialized,
            final(self).scroll == old(self).maximum,
    {
        self.scroll = self.maximum;
    }

    pub fn scroll_to_latest(&mut self)
        requires
            old(self).wf(),
        ensures
            final(self).wf(),
            same_layout(*final(self), *old(self)),
            final(self).generation == old(self).generation,
            final(self).maximum == old(self).maximum,
            final(self).viewport_height == old(self).viewport_height,
            final(self).viewport_initialized == old(self).viewport_initialized,
            final(self).scroll == 0,
    {
        self.scroll = 0;
    }

    /// How often the history was laid out.
    pub fn rebuild_count(&self) -> (r: u64)
        ensures
            r == self.rebuilds,
    {
        self.rebuilds
    }
}

/// Rows that are added below leave the row at the top of the view where it is,
/// for whoever does not read the latest.
pub proof fn lemma_growing_history_keeps_the_top(
    scroll: nat,
    maximum: nat,
    rows: nat,
    added: nat,
    height: nat,
)
    requires
        maximum == highest_offset(rows, height),
        0 < scroll <= maximum,
    ensures
        ({
            let grown = highest_offset(rows + added, height);
            document::view_top(rows + added, height, moved_offset(scroll, maximum, grown))
                == document::view_top(rows, height, scroll)
        }),
{
}

/// Whoever reads the latest goes on reading the latest, whatever is added.
pub proof fn lemma_latest_stays_latest(maximum: nat, new_maximum: nat)
    ensures
        moved_offset(0, maximum, new_maximum) == 0,
{
}

/// Whoever reads further up keeps the row at the top of the view, whatever happens to the
/// history and to the screen, as long as the history reaches that far down; where it does
/// not, its last row comes into view. The place is always inside the history.
pub proof fn lemma_place_is_kept(scroll: nat, maximum: nat, rows: nat, height: nat)
    requires
        0 < scroll <= maximum,
    ensures
        ({
            let highest = highest_offset(rows, height);
            let moved = moved_offset(scroll, maximum, highest);
            let old_top = maximum - scroll;
            let top = document::view_top(rows, height, moved);
            &&& moved <= highest
            &&& rows <= height ==> highest == 0
            &&& rows > height ==> highest + height == rows
            &&& old_top <= highest ==> top == old_top
            &&& old_top > highest ==> top == highest
        }),
{
}

/// One row further up shows one row above the view, until there is none.
pub proof fn lemma_scrolling_moves_row_by_row(rows: nat, height: nat, scroll: nat)
    ensures
        ({
            let highest = highest_offset(rows, height);
            let top = document::view_top(rows, height, scroll);
            &&& scroll < highest ==> document::view_top(rows, height, scroll + 1) == top - 1
            &&& scroll >= highest ==> top == 0
            &&& document::view_top(rows, height, 0) == highest
        }),
{
}

impl HistoryRenderCache {
    /// A page up and back down leaves two rows of the view before it in view, or one row
    /// further where the view is that small; and it always moves.
    pub proof fn lemma_page_keeps_two_rows(self)
        ensures
            self.page() >= 1,
            self.viewport_height matches Some(height) ==> (height >= 4 ==> self.page() + 2 == height)
                && (height < 4 ==> self.page() == 1),
            self.viewport_height is None ==> self.page() == 1,
    {
    }

    /// A history that is shown for the first time is shown where it was asked for, and
    /// one that did not change stays where it is; neither goes beyond the oldest row.
    pub proof fn lemma_unchanged_history_stays(
        self,
        requested: nat,
        width: u16,
        height: usize,
        new_maximum: nat,
    )
        requires
            self.scroll <= self.maximum,
        ensures
            ({
                let next = self.next_offset(requested, width, height, new_maximum);
                &&& next <= new_maximum
                &&& !self.viewport_initialized && requested <= new_maximum ==> next == requested
                &&& self.viewport_initialized && self.cached_generation == Some(self.generation)
                    && self.width == Some(width) && self.viewport_height == Some(height)
                    && self.scroll <= new_maximum ==> next == self.scroll
                &&& self.viewport_initialized && self.scroll == 0 ==> next == 0
                &&& self.viewport_initialized && (self.cached_generation != Some(self.generation)
                    || self.width != Some(width) || self.viewport_height != Some(height)) && 0
                    < self.scroll <= self.maximum && self.maximum - self.scroll <= new_maximum
                    ==> new_maximum - next == self.maximum - self.scroll
            }),
    {
    }
}

impl HistoryRenderCache {
    /// Rows that were laid out for other content or another width are laid out again, and
    /// others are kept.
    pub proof fn lemma_outdated_rows_are_laid_out_again(
        self,
        turns: Seq<model::TurnView>,
        inputs: Seq<super::visual_rows::block::InputView>,
        width: u16,
    )
        ensures
            self.cached_generation == Some(self.generation) && self.width == Some(width)
                ==> self.next_document(turns, inputs, width) == self.document@,
            self.cached_generation != Some(self.generation) || self.width != Some(width)
                ==> self.next_document(turns, inputs, width) == turn_cache::rebuild(
                self.turns@,
                turns,
                inputs,
                width,
            ).document,
    {
    }
}

}
