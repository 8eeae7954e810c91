//! The whole conversation as rows, and the part of it on the screen.

use super::block;
use super::block::{turn_block, TurnInput};
use super::rows;
use super::rows::VisualRow;
use super::wrap;
use crate::app::AppState;
use crate::model;
use crate::model::Turn;
use vstd::prelude::*;

verus! {

// ---------------------------------------------------------------------------
// The document
// ---------------------------------------------------------------------------

/// Where a turn stands in the document.
#[derive(Clone, Copy, Debug, PartialEq, Eq, Structural)]
pub struct PromptSection {
    pub start_row: usize,
    pub content_start_row: usize,
    pub prompt_rows: usize,
    pub end_row: usize,
}

#[derive(Clone, Debug, PartialEq, Eq)]
pub struct HistoryDocument {
    pub rows: Vec<VisualRow>,
    pub prompts: Vec<PromptSection>,
}

pub ghost struct DocumentView {
    pub rows: Seq<rows::RowView>,
    pub prompts: Seq<PromptSection>,
}

impl View for HistoryDocument {
    type V = DocumentView;

    open spec fn view(&self) -> DocumentView {
        DocumentView { rows: rows::row_views(self.rows@), prompts: self.prompts@ }
    }
}

pub open spec fn empty_document() -> DocumentView {
    DocumentView { rows: Seq::empty(), prompts: Seq::empty() }
}

impl Default for HistoryDocument {
    fn default() -> (r: Self)
        ensures
            r@ == empty_document(),
    {
        let r = HistoryDocument { rows: Vec::new(), prompts: Vec::new() };
        assert(rows::row_views(r.rows@) =~= Seq::<rows::RowView>::empty());
        r
    }
}

/// What a list of inputs says.
pub open spec fn input_views(v: Seq<TurnInput>) -> Seq<block::InputView> {
    Seq::new(v.len(), |i: int| v[i]@)
}

/// A document with one more turn at its end.
pub open spec fn with_block(document: DocumentView, added: block::BlockView) -> DocumentView {
    let start = document.rows.len();
    DocumentView {
        rows: document.rows + added.rows,
        prompts: document.prompts.push(
            PromptSection {
                start_row: start as usize,
                content_start_row: (start + 1) as usize,
                prompt_rows: added.prompt_rows as usize,
                end_row: (start + added.rows.len()) as usize,
            },
        ),
    }
}

/// The document of the first `n` turns.
pub open spec fn document_upto(
    turns: Seq<model::TurnView>,
    inputs: Seq<block::InputView>,
    width: nat,
    n: int,
) -> DocumentView
    decreases n,
{
    if n <= 0 {
        empty_document()
    } else {
        with_block(
            document_upto(turns, inputs, width, n - 1),
            block::block(turns[n - 1], inputs[n - 1], width),
        )
    }
}

/// The document of a conversation.
pub open spec fn document(
    turns: Seq<model::TurnView>,
    inputs: Seq<block::InputView>,
    width: u16,
) -> DocumentView {
    document_upto(turns, inputs, wrap::at_least_one(width as nat), turns.len() as int)
}

/// Whether a section lies in a document of some rows.
pub open spec fn section_fits(section: PromptSection, rows: nat) -> bool {
    &&& section.content_start_row == section.start_row + 1
    &&& section.content_start_row + section.prompt_rows < section.end_row
    &&& section.end_row <= rows
}

/// Whether the sections tile the document: the first one starts on its first
/// row, each of the others where the one before it ends, and the last one ends
/// with it.
pub open spec fn sections_tile(document: DocumentView) -> bool {
    let sections = document.prompts;
    &&& sections.len() == 0 ==> document.rows.len() == 0
    &&& sections.len() > 0 ==> sections[0].start_row == 0 && sections.last().end_row
        == document.rows.len()
    &&& forall|i: int, j: int|
        0 <= i && j == i + 1 && j < sections.len() ==> (#[trigger] sections[i]).end_row == (
        #[trigger] sections[j]).start_row
}

/// Whether the sections lie in the document, one behind the other.
pub open spec fn sections_ordered(document: DocumentView) -> bool {
    &&& forall|i: int|
        0 <= i < document.prompts.len() ==> section_fits(
            #[trigger] document.prompts[i],
            document.rows.len(),
        )
    &&& forall|i: int, j: int|
        0 <= i < j < document.prompts.len() ==> (#[trigger] document.prompts[i]).end_row <= (
        #[trigger] document.prompts[j]).start_row
}

/// Whether the sections lie in the document, one behind the other, and leave no
/// row out.
pub open spec fn sections_fit(document: DocumentView) -> bool {
    sections_ordered(document) && sections_tile(document)
}

/// Whether a block holds its prompt between two rows of its own.
pub open spec fn block_fits(added: block::BlockView) -> bool {
    added.prompt_rows + 3 <= added.rows.len()
}

proof fn lemma_with_block_tiles(document: DocumentView, added: block::BlockView)
    requires
        sections_tile(document),
        document.rows.len() + added.rows.len() <= usize::MAX,
    ensures
        sections_tile(with_block(document, added)),
{
    let before = document.prompts;
    let after = with_block(document, added).prompts;
    let n = before.len();
    assert forall|i: int, j: int| 0 <= i && j == i + 1 && j < after.len() implies (
    #[trigger] after[i]).end_row == (#[trigger] after[j]).start_row by {
        assert(after[i] == before[i]);
        if j < n {
            assert(after[j] == before[j]);
        }
    }
    if n > 0 {
        assert(after[0] == before[0]);
    }
}

proof fn lemma_document_upto_tiles(
    turns: Seq<model::TurnView>,
    inputs: Seq<block::InputView>,
    width: nat,
    n: int,
)
    requires
        document_upto(turns, inputs, width, n).rows.len() <= usize::MAX,
    ensures
        sections_tile(document_upto(turns, inputs, width, n)),
    decreases n,
{
    if n > 0 {
        lemma_document_upto_tiles(turns, inputs, width, n - 1);
        lemma_with_block_tiles(
            document_upto(turns, inputs, width, n - 1),
            block::block(turns[n - 1], inputs[n - 1], width),
        );
    }
}

/// The sections of a document tile it: every row belongs to one turn, and the
/// turns follow each other without a gap. This holds of every document whose
/// rows can be counted.
pub proof fn lemma_sections_tile_the_document(
    turns: Seq<model::TurnView>,
    inputs: Seq<block::InputView>,
    width: u16,
)
    requires
        document(turns, inputs, width).rows.len() <= usize::MAX,
    ensures
        sections_tile(document(turns, inputs, width)),
        document(turns, inputs, width).prompts.len() == turns.len(),
{
    let cells = wrap::at_least_one(width as nat);
    lemma_document_upto_tiles(turns, inputs, cells, turns.len() as int);
    lemma_one_section_for_each_turn(turns, inputs, cells, turns.len() as int);
}

proof fn lemma_one_section_for_each_turn(
    turns: Seq<model::TurnView>,
    inputs: Seq<block::InputView>,
    width: nat,
    n: int,
)
    requires
        n >= 0,
    ensures
        document_upto(turns, inputs, width, n).prompts.len() == n,
    decreases n,
{
    if n > 0 {
        lemma_one_section_for_each_turn(turns, inputs, width, n - 1);
    }
}

/// Whether the rows of each section are those of a turn: its prompt on the band
/// between two rows of its own, the rest without one, and the last row empty.
pub open spec fn sections_shaped(document: DocumentView) -> bool {
    forall|i: int|
        0 <= i < document.prompts.len() ==> section_shaped(#[trigger] document.prompts[i], document)
}

/// Whether the rows of a section are those of a turn.
pub open spec fn section_shaped(section: PromptSection, document: DocumentView) -> bool {
    let below = section.start_row + section.prompt_rows + 2;
    &&& section.content_start_row == section.start_row + 1
    &&& 1 <= section.prompt_rows
    &&& below < section.end_row <= document.rows.len()
    &&& forall|k: int|
        section.start_row <= k < below ==> (#[trigger] document.rows[k]).fill == Some(
            block::prompt_band(),
        )
    &&& forall|k: int|
        below <= k < section.end_row ==> (#[trigger] document.rows[k]).fill is None
    &&& document.rows[below - 1] == rows::bare_row(Some(block::prompt_band()))
    &&& document.rows[section.end_row - 1] == rows::bare_row(None)
}

proof fn lemma_document_upto_is_shaped(
    turns: Seq<model::TurnView>,
    inputs: Seq<block::InputView>,
    width: nat,
    n: int,
)
    requires
        document_upto(turns, inputs, width, n).rows.len() <= usize::MAX,
    ensures
        sections_shaped(document_upto(turns, inputs, width, n)),
    decreases n,
{
    if n > 0 {
        lemma_document_upto_is_shaped(turns, inputs, width, n - 1);
        let before = document_upto(turns, inputs, width, n - 1);
        let here = document_upto(turns, inputs, width, n);
        let added = block::block(turns[n - 1], inputs[n - 1], width);
        block::lemma_rows_of_a_turn(turns[n - 1], inputs[n - 1], width);
        assert forall|i: int| 0 <= i < here.prompts.len() implies section_shaped(
            #[trigger] here.prompts[i],
            here,
        ) by {
            let section = here.prompts[i];
            let start = section.start_row as int;
            if i < before.prompts.len() {
                assert(section == before.prompts[i]);
                assert(section_shaped(before.prompts[i], before));
                assert forall|k: int| start <= k < section.end_row implies here.rows[k]
                    == #[trigger] before.rows[k] by {}
            } else {
                let below = start + section.prompt_rows + 2;
                assert forall|k: int| start <= k < below implies (
                #[trigger] here.rows[k]).fill == Some(block::prompt_band()) by {
                    assert(here.rows[k] == added.rows[k - start]);
                }
                assert forall|k: int| below <= k < section.end_row implies (
                #[trigger] here.rows[k]).fill is None by {
                    assert(here.rows[k] == added.rows[k - start]);
                }
                assert(here.rows[below - 1] == added.rows[below - 1 - start]);
                assert(here.rows[section.end_row - 1] == added.rows.last());
            }
        }
    }
}

/// In every document, the rows of a turn are its prompt on the band, with the row
/// of the time stamp above and an empty one below, then the answer without a
/// band, then an empty row.
pub proof fn lemma_sections_are_turns(
    turns: Seq<model::TurnView>,
    inputs: Seq<block::InputView>,
    width: u16,
)
    requires
        document(turns, inputs, width).rows.len() <= usize::MAX,
    ensures
        sections_shaped(document(turns, inputs, width)),
{
    let cells = wrap::at_least_one(width as nat);
    lemma_document_upto_is_shaped(turns, inputs, cells, turns.len() as int);
}

proof fn lemma_with_block_fits(document: DocumentView, added: block::BlockView)
    requires
        sections_fit(document),
        block_fits(added),
        document.rows.len() + added.rows.len() <= usize::MAX,
    ensures
        sections_fit(with_block(document, added)),
{
    let after = with_block(document, added);
    let n = document.prompts.len();
    lemma_with_block_tiles(document, added);
    assert forall|i: int| 0 <= i < after.prompts.len() implies section_fits(
        #[trigger] after.prompts[i],
        after.rows.len(),
    ) by {
        if i < n {
            assert(after.prompts[i] == document.prompts[i]);
        }
    }
    assert forall|i: int, j: int| 0 <= i < j < after.prompts.len() implies (
    #[trigger] after.prompts[i]).end_row <= (#[trigger] after.prompts[j]).start_row by {
        assert(after.prompts[i] == document.prompts[i]);
        if j < n {
            assert(after.prompts[j] == document.prompts[j]);
        }
    }
}

impl HistoryDocument {
    /// Appends the rows of one turn.
    pub(super) fn push_block(&mut self, added: &Vec<VisualRow>, prompt_rows: usize, Ghost(view): Ghost<
        block::BlockView,
    >)
        requires
            rows::row_views(added@) == view.rows,
            prompt_rows == view.prompt_rows,
            sections_fit(old(self)@),
            block_fits(view),
        ensures
            final(self)@ == with_block(old(self)@, view),
            sections_fit(final(self)@),
    {
        let ghost before = self@;
        let start_row: usize = self.rows.len();
        let count: usize = added.len();
        assert(view.rows.len() == added@.len());
        rows::append_copies(&mut self.rows, added, 0, count);
        let end_row: usize = self.rows.len();
        assert(view.rows.subrange(0, count as int) =~= view.rows);
        assert(rows::row_views(self.rows@).len() == self.rows@.len());
        self.prompts.push(
            PromptSection {
                start_row,
                content_start_row: start_row + 1,
                prompt_rows,
                end_row,
            },
        );
        proof {
            lemma_with_block_fits(before, view);
        }
    }

    /// Lays out a conversation.
    pub fn from_app(app: &AppState, width: u16, inputs: &Vec<TurnInput>) -> (r: Self)
        requires
            inputs@.len() == app.turns@.len(),
        ensures
            r@ == document(model::turn_views(app.turns@), input_views(inputs@), width),
            r@.prompts.len() == app.turns@.len(),
            sections_fit(r@),
            sections_shaped(r@),
    {
        let cells: usize = if width == 0 {
            1
        } else {
            width as usize
        };
        let ghost turns = model::turn_views(app.turns@);
        let ghost views = input_views(inputs@);
        let mut r: HistoryDocument = HistoryDocument::default();
        let mut i: usize = 0;
        while i < app.turns.len()
            invariant
                inputs@.len() == app.turns@.len(),
                turns == model::turn_views(app.turns@),
                views == input_views(inputs@),
                i <= app.turns@.len(),
                r@ == document_upto(turns, views, cells as nat, i as int),
                sections_fit(r@),
            decreases app.turns@.len() - i,
        {
            let (added, prompt_rows) = turn_block(&app.turns[i], &inputs[i], cells);
            let ghost view = block::block(turns[i as int], views[i as int], cells as nat);
            assert(turns[i as int] == app.turns@[i as int]@);
            assert(views[i as int] == inputs@[i as int]@);
            r.push_block(&added, prompt_rows, Ghost(view));
            i = i + 1;
        }
        proof {
            lemma_sections_tile_the_document(turns, views, width);
            lemma_sections_are_turns(turns, views, width);
        }
        r
    }

    /// Lays out a conversation whose moments are shown at an offset.
    pub fn from_app_at_offset(
        app: &AppState,
        width: u16,
        offset_seconds: i32,
        markdown: &Vec<crate::markdown::MarkdownProjection>,
    ) -> (r: Self)
        requires
            markdown@.len() == app.turns@.len(),
        ensures
            r@ == document(
                model::turn_views(app.turns@),
                inputs_at_offset(
                    model::turn_views(app.turns@),
                    projection_views(markdown@),
                    offset_seconds,
                ),
                width,
            ),
            r@.prompts.len() == app.turns@.len(),
            sections_fit(r@),
            sections_shaped(r@),
    {
        let inputs: Vec<TurnInput> = turn_inputs_at_offset(app, offset_seconds, markdown);
        HistoryDocument::from_app(app, width, &inputs)
    }
}

/// What a list of projections says.
pub open spec fn projection_views(v: Seq<crate::markdown::MarkdownProjection>) -> Seq<
    crate::markdown::ProjectionView,
> {
    Seq::new(v.len(), |i: int| v[i]@)
}

/// The moment of an optional message.
pub open spec fn answer_moment(turn: model::TurnView) -> Option<u64> {
    match turn.final_answer {
        Some(answer) => answer.timestamp_ms,
        None => None,
    }
}

/// What drawing the turns takes where moments are shown at an offset.
pub open spec fn inputs_at_offset(
    turns: Seq<model::TurnView>,
    projections: Seq<crate::markdown::ProjectionView>,
    offset_seconds: i32,
) -> Seq<block::InputView> {
    Seq::new(
        turns.len(),
        |i: int|
            block::InputView {
                prompt_time: crate::local_time::shown_time(
                    turns[i].prompt.timestamp_ms,
                    offset_seconds,
                ),
                answer_time: crate::local_time::shown_time(answer_moment(turns[i]), offset_seconds),
                answer_markdown: projections[i],
            },
    )
}

/// Collects what drawing the turns takes, with moments shown at an offset.
pub fn turn_inputs_at_offset(
    app: &AppState,
    offset_seconds: i32,
    markdown: &Vec<crate::markdown::MarkdownProjection>,
) -> (r: Vec<TurnInput>)
    requires
        markdown@.len() == app.turns@.len(),
    ensures
        input_views(r@) == inputs_at_offset(
            model::turn_views(app.turns@),
            projection_views(markdown@),
            offset_seconds,
        ),
        r@.len() == app.turns@.len(),
{
    let ghost turns = model::turn_views(app.turns@);
    let ghost want = inputs_at_offset(turns, projection_views(markdown@), offset_seconds);
    let mut r: Vec<TurnInput> = Vec::new();
    let mut i: usize = 0;
    while i < app.turns.len()
        invariant
            markdown@.len() == app.turns@.len(),
            turns == model::turn_views(app.turns@),
            want == inputs_at_offset(turns, projection_views(markdown@), offset_seconds),
            i <= app.turns@.len(),
            r@.len() == i,
            forall|k: int| 0 <= k < i ==> (#[trigger] r@[k])@ == want[k],
        decreases app.turns@.len() - i,
    {
        let turn: &Turn = &app.turns[i];
        assert(turns[i as int] == app.turns@[i as int]@);
        let answered: Option<u64> = match &turn.final_answer {
            Some(answer) => answer.timestamp_ms,
            None => None,
        };
        let input = TurnInput {
            prompt_time: crate::local_time::format_timestamp_at_offset(
                turn.prompt.timestamp_ms,
                offset_seconds,
            ),
            answer_time: crate::local_time::format_timestamp_at_offset(answered, offset_seconds),
            answer_markdown: markdown[i].copied(),
        };
        assert(input@ == want[i as int]);
        r.push(input);
        i = i + 1;
    }
    assert(input_views(r@) =~= want);
    r
}

// ---------------------------------------------------------------------------
// The view
// ---------------------------------------------------------------------------

/// Rows of a prompt that stay at the top while its turn is read.
#[derive(Clone, Copy, Debug, PartialEq, Eq, Structural)]
pub struct StickyRows {
    pub source_start: usize,
    pub screen_start: usize,
    pub count: usize,
}

/// The last of the first `n` sections whose prompt is above the view while its
/// turn reaches into it.
pub open spec fn passed_section(sections: Seq<PromptSection>, top: int, n: int) -> Option<int>
    decreases n,
{
    if n <= 0 {
        None
    } else if sections[n - 1].content_start_row < top && top < sections[n - 1].end_row {
        Some(n - 1)
    } else {
        passed_section(sections, top, n - 1)
    }
}

pub open spec fn smaller(a: int, b: int) -> int {
    if a < b {
        a
    } else {
        b
    }
}

/// The rows that stay at the top of a view: up to two rows of the prompt that
/// was scrolled past, with the row above them where there is room. The prompt
/// that comes next pushes them out.
pub open spec fn sticky(sections: Seq<PromptSection>, top: int, height: int) -> Option<StickyRows> {
    match passed_section(sections, top, sections.len() as int) {
        None => None,
        Some(k) => {
            let section = sections[k];
            let room = if height < 1 { 0 } else { height - 1 };
            let content = smaller(smaller(2, section.prompt_rows as int), room);
            let padded = height >= content + 2;
            let desired = if padded { content + 1 } else { content };
            let base = if padded { section.start_row } else { section.content_start_row };
            let count = if k + 1 < sections.len() {
                let left = sections[k + 1].start_row - top;
                smaller(desired, if left < 0 { 0 } else { left })
            } else {
                desired
            };
            if content == 0 || count <= 0 {
                None
            } else {
                Some(
                    StickyRows {
                        source_start: (base + (desired - count)) as usize,
                        screen_start: 0,
                        count: count as usize,
                    },
                )
            }
        },
    }
}

/// Whether the rows of a section can be counted on this machine.
pub open spec fn section_countable(section: PromptSection) -> bool {
    section.start_row + section.prompt_rows <= usize::MAX && section.content_start_row
        + section.prompt_rows <= usize::MAX
}

pub fn sticky_overlay(sections: &[PromptSection], top: usize, height: usize) -> (r: Option<
    StickyRows,
>)
    requires
        forall|i: int| 0 <= i < sections@.len() ==> section_countable(#[trigger] sections@[i]),
    ensures
        r == sticky(sections@, top as int, height as int),
{
    let mut n: usize = sections.len();
    while n > 0 && !(sections[n - 1].content_start_row < top && top < sections[n - 1].end_row)
        invariant
            n <= sections@.len(),
            passed_section(sections@, top as int, n as int) == passed_section(
                sections@,
                top as int,
                sections@.len() as int,
            ),
        decreases n,
    {
        n = n - 1;
    }
    if n == 0 {
        return None;
    }
    let section: PromptSection = sections[n - 1];
    assert(section_countable(sections@[n - 1]));
    let room: usize = if height < 1 {
        0
    } else {
        height - 1
    };
    let mut content: usize = 2;
    if section.prompt_rows < content {
        content = section.prompt_rows;
    }
    if room < content {
        content = room;
    }
    if content == 0 {
        return None;
    }
    let padded: bool = height >= content + 2;
    let desired: usize = if padded {
        content + 1
    } else {
        content
    };
    let base: usize = if padded {
        section.start_row
    } else {
        section.content_start_row
    };
    let mut count: usize = desired;
    if n < sections.len() {
        let next: usize = sections[n].start_row;
        let left: usize = if next < top {
            0
        } else {
            next - top
        };
        if left < count {
            count = left;
        }
    }
    if count == 0 {
        None
    } else {
        Some(StickyRows { source_start: base + (desired - count), screen_start: 0, count })
    }
}

/// The first row of the view, counted from the top of the document.
pub open spec fn view_top(rows: nat, height: nat, scroll: nat) -> int {
    let visible = smaller(height as int, rows as int);
    let highest = rows - visible;
    highest - smaller(scroll as int, highest)
}

/// The rows on the screen: the part of the document that ends `scroll` rows
/// above its end, with the rows that stay at the top in front.
pub open spec fn view(document: DocumentView, height: nat, scroll: nat) -> Seq<rows::RowView> {
    let visible = smaller(height as int, document.rows.len() as int);
    let top = view_top(document.rows.len(), height, scroll);
    match sticky(document.prompts, top, visible) {
        Some(kept) => document.rows.subrange(
            kept.source_start as int,
            kept.source_start + kept.count,
        ) + document.rows.subrange(top + kept.count, top + visible),
        None => document.rows.subrange(top, top + visible),
    }
}

proof fn lemma_passed_section(sections: Seq<PromptSection>, top: int, n: int)
    requires
        n <= sections.len(),
    ensures
        passed_section(sections, top, n) matches Some(k) ==> 0 <= k < n
            && sections[k].content_start_row < top < sections[k].end_row,
    decreases n,
{
    if n > 0 {
        lemma_passed_section(sections, top, n - 1);
    }
}

/// The rows that stay at the top are rows of the document, fewer than the view
/// holds, and all of them stand above it.
pub proof fn lemma_sticky_rows_fit(document: DocumentView, top: int, height: int)
    requires
        sections_ordered(document),
        document.rows.len() <= usize::MAX,
    ensures
        sticky(document.prompts, top, height) matches Some(kept) ==> {
            &&& 0 < kept.count < height
            &&& kept.source_start + kept.count <= document.rows.len()
            &&& kept.source_start < top
        },
{
    lemma_passed_section(document.prompts, top, document.prompts.len() as int);
    if let Some(k) = passed_section(document.prompts, top, document.prompts.len() as int) {
        assert(section_fits(document.prompts[k], document.rows.len()));
    }
}

impl HistoryDocument {
    /// The rows on the screen.
    pub fn viewport(&self, height: usize, scroll_from_bottom: usize) -> (r: Vec<VisualRow>)
        requires
            sections_ordered(self@),
        ensures
            rows::row_views(r@) == view(self@, height as nat, scroll_from_bottom as nat),
            r@.len() == smaller(height as int, self@.rows.len() as int),
    {
        let total: usize = self.rows.len();
        assert(self@.rows.len() == total);
        let visible: usize = if height < total {
            height
        } else {
            total
        };
        let mut r: Vec<VisualRow> = Vec::new();
        assert(rows::row_views(r@) =~= Seq::<rows::RowView>::empty());
        let highest: usize = total - visible;
        let offset: usize = if scroll_from_bottom < highest {
            scroll_from_bottom
        } else {
            highest
        };
        let top: usize = highest - offset;
        proof {
            lemma_sticky_rows_fit(self@, top as int, visible as int);
            assert forall|i: int| 0 <= i < self.prompts@.len() implies section_countable(
                #[trigger] self.prompts@[i],
            ) by {
                assert(section_fits(self@.prompts[i], self@.rows.len()));
            }
        }
        match sticky_overlay(self.prompts.as_slice(), top, visible) {
            Some(kept) => {
                rows::append_copies(
                    &mut r,
                    &self.rows,
                    kept.source_start,
                    kept.source_start + kept.count,
                );
                rows::append_copies(&mut r, &self.rows, top + kept.count, top + visible);
            },
            None => {
                rows::append_copies(&mut r, &self.rows, top, top + visible);
            },
        }
        assert(rows::row_views(r@) =~= view(self@, height as nat, scroll_from_bottom as nat));
        assert(rows::row_views(r@).len() == r@.len());
        r
    }
}

// ---------------------------------------------------------------------------
// What holds of every document and every view
// ---------------------------------------------------------------------------

proof fn lemma_document_grows_at_its_end(
    turns: Seq<model::TurnView>,
    inputs: Seq<block::InputView>,
    width: nat,
    k: int,
    n: int,
)
    requires
        0 <= k < n,
        document_upto(turns, inputs, width, n).rows.len() <= usize::MAX,
    ensures
        ({
            let all = document_upto(turns, inputs, width, n);
            let part = block::block(turns[k], inputs[k], width);
            let section = all.prompts[k];
            &&& all.prompts.len() == n
            &&& section.start_row <= section.end_row <= all.rows.len()
            &&& all.rows.subrange(section.start_row as int, section.end_row as int) == part.rows
            &&& section.prompt_rows == part.prompt_rows
        }),
    decreases n,
{
    let before = document_upto(turns, inputs, width, n - 1);
    let all = document_upto(turns, inputs, width, n);
    let added = block::block(turns[n - 1], inputs[n - 1], width);
    lemma_one_section_for_each_turn(turns, inputs, width, n - 1);
    if k < n - 1 {
        lemma_document_grows_at_its_end(turns, inputs, width, k, n - 1);
        let section = before.prompts[k];
        assert(all.prompts[k] == section);
        assert(all.rows.subrange(section.start_row as int, section.end_row as int)
            =~= before.rows.subrange(section.start_row as int, section.end_row as int));
    } else {
        let section = all.prompts[k];
        block::lemma_rows_of_a_turn(turns[k], inputs[k], width);
        assert(section.start_row == before.rows.len());
        assert(section.end_row == all.rows.len());
        assert(all.rows.subrange(section.start_row as int, section.end_row as int)
            =~= added.rows);
    }
}

/// The turns stand in a document in their order, the first one on top, each with the
/// rows that it takes by itself and nothing between them.
pub proof fn lemma_turns_stand_in_their_order(
    turns: Seq<model::TurnView>,
    inputs: Seq<block::InputView>,
    width: u16,
    k: int,
)
    requires
        document(turns, inputs, width).rows.len() <= usize::MAX,
        0 <= k < turns.len(),
    ensures
        ({
            let all = document(turns, inputs, width);
            let cells: nat = if width == 0 {
                1
            } else {
                width as nat
            };
            let part = block::block(turns[k], inputs[k], cells);
            let section = all.prompts[k];
            &&& all.prompts.len() == turns.len()
            &&& section.start_row == (if k == 0 {
                0
            } else {
                all.prompts[k - 1].end_row as int
            })
            &&& section.start_row <= section.end_row <= all.rows.len()
            &&& all.rows.subrange(section.start_row as int, section.end_row as int) == part.rows
            &&& section.content_start_row == section.start_row + 1
            &&& section.prompt_rows == part.prompt_rows
        }),
{
    let cells = wrap::at_least_one(width as nat);
    lemma_sections_tile_the_document(turns, inputs, width);
    lemma_sections_are_turns(turns, inputs, width);
    lemma_document_grows_at_its_end(turns, inputs, cells, k, turns.len() as int);
    let all = document(turns, inputs, width);
    assert(section_shaped(all.prompts[k], all));
    if k > 0 {
        assert(all.prompts[k - 1].end_row == all.prompts[k].start_row);
    }
}

/// Whether a view of some rows of a document starts `top` rows below its first one,
/// and whoever looks at it is `scroll` rows above its end.
pub open spec fn starts_at(rows: int, height: int, scroll: int, top: int) -> bool {
    if rows <= height {
        top == 0
    } else if scroll >= rows - height {
        top == 0
    } else {
        top + height + scroll == rows
    }
}

/// Whether some rows of a prompt can stay at the top of a view: rows of the turn that
/// the view starts in, next to each other, which were scrolled past; a row of the prompt
/// among them at least and two at most; so few that they leave a row of the view free
/// and cover nothing of the turn that comes next.
pub open spec fn can_stay(
    sections: Seq<PromptSection>,
    k: int,
    top: int,
    height: int,
    from: int,
    count: int,
) -> bool {
    let section = sections[k];
    &&& 0 <= k < sections.len()
    &&& section.content_start_row < top < section.end_row
    &&& section.start_row <= from
    &&& 0 < count < height
    &&& from + count <= section.content_start_row + smaller(2, section.prompt_rows as int)
    &&& k + 1 < sections.len() ==> top + count <= sections[k + 1].start_row
}

/// A view shows the document row by row from its top on, down to its last row, except
/// that the rows which stay at its top take the place of as many others.
pub proof fn lemma_view_shows_the_document(document: DocumentView, height: nat, scroll: nat)
    requires
        sections_fit(document),
        document.rows.len() <= usize::MAX,
    ensures
        ({
            let rows = document.rows.len() as int;
            let shown = view(document, height, scroll);
            let top = view_top(document.rows.len(), height, scroll);
            let kept = sticky(document.prompts, top, shown.len() as int);
            let count: int = match kept {
                Some(held) => held.count as int,
                None => 0,
            };
            &&& starts_at(rows, height as int, scroll as int, top)
            &&& shown.len() == (if rows < height {
                rows
            } else {
                height as int
            })
            &&& forall|i: int|
                count <= i < shown.len() ==> #[trigger] shown[i] == document.rows[top + i]
            &&& kept matches Some(held) ==> forall|i: int|
                0 <= i < count ==> #[trigger] shown[i] == document.rows[held.source_start + i]
        }),
{
    let visible = smaller(height as int, document.rows.len() as int);
    let top = view_top(document.rows.len(), height, scroll);
    lemma_sticky_rows_fit(document, top, visible);
}

/// Rows stay at the top of a view exactly where the view starts below the first row of a
/// prompt and inside its turn. They are the beginning of that prompt, with the row above
/// it where the view has room for one more; and where the next turn comes up, it pushes
/// the first of them out.
pub proof fn lemma_what_stays_at_the_top(document: DocumentView, top: int, height: int, k: int)
    requires
        sections_fit(document),
        document.rows.len() <= usize::MAX,
        0 <= k < document.prompts.len(),
        document.prompts[k].content_start_row < top < document.prompts[k].end_row,
        document.prompts[k].prompt_rows >= 1,
    ensures
        ({
            let section = document.prompts[k];
            let kept = sticky(document.prompts, top, height);
            let last = section.content_start_row + (if section.prompt_rows >= 2 && height >= 3 {
                2int
            } else {
                1
            });
            &&& kept is Some <==> height >= 2
            &&& kept matches Some(held) ==> {
                &&& held.screen_start == 0
                &&& can_stay(
                    document.prompts,
                    k,
                    top,
                    height,
                    held.source_start as int,
                    held.count as int,
                )
                &&& held.source_start + held.count == last
                &&& held.source_start == section.start_row || !can_stay(
                    document.prompts,
                    k,
                    top,
                    height,
                    held.source_start - 1,
                    held.count + 1,
                )
            }
        }),
{
    let sections = document.prompts;
    let n = sections.len() as int;
    lemma_passed_section_is_the_one(document, top, k, n);
    assert(section_fits(sections[k], document.rows.len()));
    if k + 1 < n {
        assert(sections[k].end_row == sections[k + 1].start_row);
    }
}

proof fn lemma_passed_section_is_the_one(document: DocumentView, top: int, k: int, n: int)
    requires
        sections_fit(document),
        0 <= k < n <= document.prompts.len(),
        document.prompts[k].content_start_row < top < document.prompts[k].end_row,
    ensures
        passed_section(document.prompts, top, n) == Some(k),
    decreases n,
{
    if k < n - 1 {
        assert(document.prompts[k].end_row <= document.prompts[n - 1].start_row);
        assert(section_fits(document.prompts[n - 1], document.rows.len()));
        lemma_passed_section_is_the_one(document, top, k, n - 1);
    }
}

/// Where no prompt was scrolled past inside its turn, nothing stays at the top.
pub proof fn lemma_nothing_stays_above_a_prompt(document: DocumentView, top: int, height: int)
    requires
        forall|k: int|
            0 <= k < document.prompts.len() ==> !((
            #[trigger] document.prompts[k]).content_start_row < top
                < document.prompts[k].end_row),
    ensures
        sticky(document.prompts, top, height) is None,
{
    lemma_passed_section(document.prompts, top, document.prompts.len() as int);
}

/// Each turn is drawn with the moments of its own messages and with its own Markdown.
pub proof fn lemma_moments_are_those_of_the_turn(
    turns: Seq<model::TurnView>,
    projections: Seq<crate::markdown::ProjectionView>,
    offset_seconds: i32,
    i: int,
)
    requires
        0 <= i < turns.len(),
    ensures
        ({
            let inputs = inputs_at_offset(turns, projections, offset_seconds);
            &&& inputs.len() == turns.len()
            &&& inputs[i].prompt_time == crate::local_time::shown_time(
                turns[i].prompt.timestamp_ms,
                offset_seconds,
            )
            &&& turns[i].final_answer matches Some(answer) ==> inputs[i].answer_time
                == crate::local_time::shown_time(answer.timestamp_ms, offset_seconds)
            &&& turns[i].final_answer is None ==> inputs[i].answer_time is None
            &&& inputs[i].answer_markdown == projections[i]
        }),
{
}

}
