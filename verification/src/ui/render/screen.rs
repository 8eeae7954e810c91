//! The whole screen, ready to be painted.

use super::parts;
use super::parts::{Area, EdgeFill, HyperlinkPatch, ScrollCell};
use crate::agent::AgentStatus;
use crate::app::{AppState, BlockedSurface};
use crate::style;
use crate::style::{AnsiColor, StyleModifiers};
use crate::text;
use crate::ui::draft::DraftView;
use crate::ui::history::HistoryRenderCache;
use crate::ui::visual_rows::block::TurnInput;
use crate::ui::visual_rows::document;
use crate::ui::visual_rows::rows;
use crate::ui::visual_rows::rows::{wrap_styled, CellStyle, VisualRow, VisualSpan};
use crate::ui::visual_rows::wrap;
use crate::ui::visual_rows::wrap::{wrap_plain, WrappedText};
use ratatui::layout::{Constraint, Direction, Layout, Rect};
use vstd::prelude::*;

verus! {

// ---------------------------------------------------------------------------
// Splitting the screen
// ---------------------------------------------------------------------------

/// How many rows a part of the screen wants.
#[derive(Clone, Copy, Debug, PartialEq, Eq, Structural)]
pub enum RowsWanted {
    AtLeast(u16),
    Exactly(u16),
}

/// The rows that the first `n` parts want exactly.
pub open spec fn exact_rows(wanted: Seq<RowsWanted>, n: int) -> int
    decreases n,
{
    if n <= 0 {
        0
    } else {
        exact_rows(wanted, n - 1) + match wanted[n - 1] {
            RowsWanted::Exactly(rows) => rows as int,
            RowsWanted::AtLeast(_) => 0,
        }
    }
}

/// Whether just the part at `k` takes what the others leave, and that is enough
/// for it.
pub open spec fn only_flexible(area: Area, wanted: Seq<RowsWanted>, k: int) -> bool {
    &&& 0 <= k < wanted.len()
    &&& wanted[k] matches RowsWanted::AtLeast(rows) && rows + exact_rows(
        wanted,
        wanted.len() as int,
    ) <= area.height
    &&& forall|i: int| 0 <= i < wanted.len() && i != k ==> (#[trigger] wanted[i]) is Exactly
}

/// The rows of a part, where one takes what the others leave.
pub open spec fn rows_given(area: Area, wanted: Seq<RowsWanted>, i: int) -> int {
    match wanted[i] {
        RowsWanted::Exactly(rows) => rows as int,
        RowsWanted::AtLeast(_) => area.height - exact_rows(wanted, wanted.len() as int),
    }
}

/// The rows of the first `n` parts together.
pub open spec fn rows_above(area: Area, wanted: Seq<RowsWanted>, n: int) -> int
    decreases n,
{
    if n <= 0 {
        0
    } else {
        rows_above(area, wanted, n - 1) + rows_given(area, wanted, n - 1)
    }
}

/// The parts of an area one below the other, where they fit.
pub open spec fn stacked(area: Area, wanted: Seq<RowsWanted>) -> Seq<Area> {
    Seq::new(
        wanted.len(),
        |i: int|
            Area {
                x: area.x,
                y: (area.y + rows_above(area, wanted, i)) as u16,
                width: area.width,
                height: rows_given(area, wanted, i) as u16,
            },
    )
}

/// Whether areas are a split of another into parts: all as wide as it is, and
/// one below the other as they want where they fit.
pub open spec fn split_of(areas: Seq<Area>, area: Area, wanted: Seq<RowsWanted>) -> bool {
    &&& areas.len() == wanted.len()
    &&& forall|i: int|
        0 <= i < areas.len() ==> (#[trigger] areas[i]).x == area.x && areas[i].width == area.width
    &&& area.y + area.height <= u16::MAX && (exists|k: int| only_flexible(area, wanted, k))
        ==> areas == stacked(area, wanted)
}

/// `Layout::split` in the vertical direction gives one rectangle for each
/// constraint, as wide as the area and at its left edge. Where all constraints
/// can be met and one of them is a minimum, it meets them, one rectangle below
/// the other, and the minimum takes the rows that are left. How it settles an
/// area that is too small is left unsaid.
#[verifier::external_body]
fn split_rows(area: Area, wanted: &Vec<RowsWanted>) -> (r: Vec<Area>)
    ensures
        split_of(r@, area, wanted@),
{
    let constraints = wanted.iter().map(|rows| match rows {
        RowsWanted::AtLeast(n) => Constraint::Min(*n),
        RowsWanted::Exactly(n) => Constraint::Length(*n),
    });
    let area = Rect { x: area.x, y: area.y, width: area.width, height: area.height };
    let layout = Layout::default().direction(Direction::Vertical).constraints(constraints);
    let rects = layout.split(area);
    rects.iter().map(|r| Area { x: r.x, y: r.y, width: r.width, height: r.height }).collect()
}

// ---------------------------------------------------------------------------
// The lines of the composer
// ---------------------------------------------------------------------------

/// The columns of the content.
pub open spec fn content_cells(frame: Area) -> nat {
    wrap::at_least_one(parts::content_area(frame).width as nat)
}

/// The rows of the images that are still being verified. A guarded composer
/// shows none.
pub open spec fn verifying_rows(app: AppState, frame: Area) -> int {
    if parts::guard_text(app) is Some {
        0
    } else {
        parts::pending_height(app, content_cells(frame), app.pending_attachments@.len() as int)
    }
}

/// What the composer holds: the warning, or else the draft.
pub open spec fn composer_text(app: AppState, draft: DraftView) -> Seq<char> {
    match parts::guard_text(app) {
        Some(warning) => warning,
        None => draft.display_text@,
    }
}

/// The rows that the composer wants.
pub open spec fn composer_rows_wanted(app: AppState, draft: DraftView, frame: Area) -> int {
    let text_rows = parts::rows_taken(composer_text(app, draft), content_cells(frame));
    parts::composer_box(
        parts::saturated(verifying_rows(app, frame) + parts::saturated(text_rows as int)),
        parts::content_area(frame).height as int,
    )
}

/// The rows that each part of the screen wants: the history, an error, a note,
/// the composer and the footer.
pub open spec fn rows_wanted(
    app: AppState,
    draft: DraftView,
    error: Option<Seq<char>>,
    now_ms: u64,
    frame: Area,
) -> Seq<RowsWanted> {
    seq![
        RowsWanted::AtLeast(1),
        RowsWanted::Exactly(if error is Some { 1 } else { 0 }),
        RowsWanted::Exactly(if parts::note_text(app, now_ms) is Some { 1 } else { 0 }),
        RowsWanted::Exactly(composer_rows_wanted(app, draft, frame) as u16),
        RowsWanted::Exactly(1),
    ]
}

/// The lines of the images that are still being verified.
pub open spec fn verifying_lines(app: AppState, n: int) -> Seq<rows::RowView> {
    Seq::new(
        n as nat,
        |i: int|
            parts::one_span(
                parts::pending_line(
                    app.draft_attachments@.len() as int,
                    i,
                    app.pending_attachments@[i].display@,
                ),
                parts::colored(AnsiColor::Yellow),
            ),
    )
}

/// The rows of a text in one color.
pub open spec fn colored_rows(texts: Seq<Seq<char>>, color: AnsiColor) -> Seq<rows::RowView> {
    Seq::new(texts.len(), |i: int| parts::one_span(texts[i], parts::colored(color)))
}

/// The rows of the draft.
pub open spec fn draft_rows(draft: DraftView, width: nat) -> Seq<rows::RowView> {
    let s = draft.display_text@;
    let texts = wrap::wrapped_rows(s, width);
    let starts = wrap::bytes_at(s, wrap::wrapped_starts(s, width));
    Seq::new(
        texts.len(),
        |i: int|
            parts::highlighted_row(texts[i], wrap::start_of(starts, i), draft.highlight),
    )
}

/// The lines below those of the images: why nothing can be typed, what to type,
/// or the draft.
pub open spec fn text_lines(app: AppState, draft: DraftView, frame: Area) -> Seq<rows::RowView> {
    if !app.input_enabled {
        seq![
            parts::one_span(
                "Input disabled · reopen Simple Prompts"@,
                parts::colored(AnsiColor::Red),
            ),
        ]
    } else {
        match parts::guard_text(app) {
            Some(warning) => colored_rows(
                wrap::wrapped_rows(warning, content_cells(frame)),
                AnsiColor::Yellow,
            ),
            None => if draft.display_text@.len() == 0 {
                seq![parts::one_span("Write a prompt"@, parts::colored(AnsiColor::BrightBlack))]
            } else {
                draft_rows(draft, content_cells(frame))
            },
        }
    }
}

/// The lines of the composer.
pub open spec fn composer_lines(app: AppState, draft: DraftView, frame: Area) -> Seq<rows::RowView> {
    if parts::guard_text(app) is Some {
        text_lines(app, draft, frame)
    } else {
        verifying_lines(app, app.pending_attachments@.len() as int) + text_lines(app, draft, frame)
    }
}

/// Appends rows in one color.
fn push_colored(out: &mut Vec<VisualRow>, texts: &Vec<String>, color: AnsiColor)
    ensures
        rows::row_views(final(out)@) == rows::row_views(old(out)@) + colored_rows(
            text::texts(texts@),
            color,
        ),
{
    let ghost before = rows::row_views(out@);
    let ghost all = colored_rows(text::texts(texts@), color);
    let mut i: usize = 0;
    assert(before + all.take(0) =~= before);
    while i < texts.len()
        invariant
            all == colored_rows(text::texts(texts@), color),
            i <= texts@.len(),
            rows::row_views(out@) == before + all.take(i as int),
        decreases texts@.len() - i,
    {
        let ghost so_far = rows::row_views(out@);
        let row: VisualRow = parts::single_span(texts[i].as_str(), parts::color_style(color));
        let ghost view = row@;
        assert(view == all[i as int]);
        out.push(row);
        assert(rows::row_views(out@) =~= so_far.push(view));
        assert(rows::row_views(out@) =~= before + all.take(i + 1));
        i = i + 1;
    }
    assert(all.take(all.len() as int) =~= all);
}

fn build_composer_lines(
    app: &AppState,
    draft: &DraftView,
    frame: Area,
    guard: &Option<WrappedText>,
    wrapped: &WrappedText,
) -> (r: Vec<VisualRow>)
    requires
        parts::countable(*app),
        guard is Some == parts::guard_text(*app) is Some,
        guard matches Some(w) ==> w.row_texts() == wrap::wrapped_rows(
            parts::guard_text(*app).unwrap(),
            content_cells(frame),
        ),
        wrapped.wf(),
        wrapped.row_texts() == wrap::wrapped_rows(draft.display_text@, content_cells(frame)),
        wrapped.starts() == wrap::bytes_at(
            draft.display_text@,
            wrap::wrapped_starts(draft.display_text@, content_cells(frame)),
        ),
    ensures
        rows::row_views(r@) == composer_lines(*app, *draft, frame),
{
    let mut r: Vec<VisualRow> = Vec::new();
    assert(rows::row_views(r@) =~= verifying_lines(*app, 0));
    if guard.is_none() {
        let mut i: usize = 0;
        while i < app.pending_attachments.len()
            invariant
                parts::countable(*app),
                i <= app.pending_attachments@.len(),
                rows::row_views(r@) == verifying_lines(*app, i as int),
            decreases app.pending_attachments@.len() - i,
        {
            let ghost so_far = rows::row_views(r@);
            let line: String = parts::pending_text(app, i);
            let row: VisualRow = parts::single_span(
                line.as_str(),
                parts::color_style(AnsiColor::Yellow),
            );
            let ghost view = row@;
            r.push(row);
            assert(rows::row_views(r@) =~= so_far.push(view));
            assert(rows::row_views(r@) =~= verifying_lines(*app, i + 1));
            i = i + 1;
        }
    }
    let ghost head = rows::row_views(r@);
    if !app.input_enabled {
        let row: VisualRow = parts::single_span(
            "Input disabled · reopen Simple Prompts",
            parts::color_style(AnsiColor::Red),
        );
        let ghost view = row@;
        r.push(row);
        assert(rows::row_views(r@) =~= head + seq![view]);
    } else if let Some(warning) = guard {
        push_colored(&mut r, &warning.rows, AnsiColor::Yellow);
    } else if text::byte_count(draft.display_text.as_str()) == 0 {
        proof {
            lemma_no_bytes_no_chars(draft.display_text@);
        }
        let row: VisualRow = parts::single_span(
            "Write a prompt",
            parts::color_style(AnsiColor::BrightBlack),
        );
        let ghost view = row@;
        r.push(row);
        assert(rows::row_views(r@) =~= head + seq![view]);
    } else {
        proof {
            lemma_no_bytes_no_chars(draft.display_text@);
        }
        let ghost all = draft_rows(*draft, content_cells(frame));
        let mut k: usize = 0;
        assert(head + all.take(0) =~= head);
        while k < wrapped.rows.len()
            invariant
                all == draft_rows(*draft, content_cells(frame)),
                wrapped.row_texts() == wrap::wrapped_rows(
                    draft.display_text@,
                    content_cells(frame),
                ),
                wrapped.starts() == wrap::bytes_at(
                    draft.display_text@,
                    wrap::wrapped_starts(draft.display_text@, content_cells(frame)),
                ),
                k <= wrapped.rows@.len(),
                all.len() == wrapped.rows@.len(),
                rows::row_views(r@) == head + all.take(k as int),
            decreases wrapped.rows@.len() - k,
        {
            let ghost so_far = rows::row_views(r@);
            assert(wrapped.row_texts()[k as int] == wrapped.rows@[k as int]@);
            let row: VisualRow = parts::composer_row(
                wrapped.rows[k].as_str(),
                wrapped.row_start(k),
                draft.highlight,
            );
            let ghost view = row@;
            assert(view == all[k as int]);
            r.push(row);
            assert(rows::row_views(r@) =~= so_far.push(view));
            assert(rows::row_views(r@) =~= head + all.take(k + 1));
            k = k + 1;
        }
        assert(all.take(all.len() as int) =~= all);
    }
    assert(rows::row_views(r@) =~= composer_lines(*app, *draft, frame));
    r
}

proof fn lemma_no_bytes_no_chars(s: Seq<char>)
    ensures
        (text::byte_len(s) == 0) == (s.len() == 0),
{
    text::lemma_byte_at_monotone(s, 0, s.len() as int);
    text::lemma_byte_at_ends(s);
}

// ---------------------------------------------------------------------------
// The screen of a conversation
// ---------------------------------------------------------------------------

/// All that is painted, and where.
pub struct Screen {
    pub history_area: Area,
    pub error_area: Area,
    pub note_area: Area,
    pub composer_area: Area,
    pub footer_area: Area,
    pub history: Vec<VisualRow>,
    pub edge_fills: Vec<EdgeFill>,
    pub scrollbar: Vec<ScrollCell>,
    pub hyperlinks: Vec<HyperlinkPatch>,
    pub error: Option<VisualRow>,
    pub note: Option<VisualRow>,
    pub composer: Vec<VisualRow>,
    pub composer_scroll: u16,
    pub footer: String,
    pub cursor: Option<(u16, u16)>,
    /// The width the draft was wrapped to. Clearing back to the start of a line
    /// means the line as drawn, so the keys need to know where the rows broke.
    pub composer_width: usize,
}

/// What an optional row says.
pub open spec fn optional_row(row: Option<VisualRow>) -> Option<rows::RowView> {
    match row {
        Some(row) => Some(row@),
        None => None,
    }
}

/// An error behind a red label.
pub open spec fn error_row(error: Seq<char>) -> rows::RowView {
    rows::RowView {
        spans: seq![
            rows::SpanView {
                text: "Error: "@,
                style: parts::colored(AnsiColor::Red),
                hyperlink: None,
            },
            rows::SpanView { text: error, style: rows::plain_cell(), hyperlink: None },
        ],
        fill: None,
    }
}

/// The style of a note.
pub open spec fn note_style() -> CellStyle {
    CellStyle {
        modifiers: StyleModifiers { bold: true, ..style::no_modifiers() },
        ..parts::colored(AnsiColor::Yellow)
    }
}

fn bold_yellow() -> (r: CellStyle)
    ensures
        r == note_style(),
{
    CellStyle {
        foreground: Some(AnsiColor::Yellow),
        background: None,
        modifiers: StyleModifiers {
            bold: true,
            dim: false,
            italic: false,
            underline: false,
            reverse: false,
        },
    }
}

fn error_line(error: &str) -> (r: VisualRow)
    ensures
        r@ == error_row(error@),
{
    let mut spans: Vec<VisualSpan> = Vec::new();
    spans.push(
        VisualSpan {
            text: "Error: ".to_owned(),
            style: parts::color_style(AnsiColor::Red),
            hyperlink: None,
        },
    );
    spans.push(
        VisualSpan { text: error.to_owned(), style: CellStyle::default(), hyperlink: None },
    );
    let r = VisualRow { spans, fill: None };
    assert(r@.spans =~= error_row(error@).spans);
    r
}

/// The rows of the history as they are drawn.
pub open spec fn drawn_rows(v: Seq<rows::RowView>, width: nat) -> Seq<rows::RowView> {
    Seq::new(v.len(), |i: int| parts::drawn(v[i], width))
}

fn draw_rows(v: &Vec<VisualRow>, from: usize, width: u16) -> (r: Vec<VisualRow>)
    requires
        from <= v@.len(),
    ensures
        rows::row_views(r@) == drawn_rows(rows::row_views(v@).skip(from as int), width as nat),
{
    let ghost want = drawn_rows(rows::row_views(v@).skip(from as int), width as nat);
    let mut r: Vec<VisualRow> = Vec::new();
    let mut i: usize = from;
    while i < v.len()
        invariant
            from <= i <= v@.len(),
            want == drawn_rows(rows::row_views(v@).skip(from as int), width as nat),
            r@.len() == i - from,
            forall|k: int| 0 <= k < r@.len() ==> (#[trigger] r@[k])@ == want[k],
        decreases v@.len() - i,
    {
        let row: VisualRow = parts::visual_row_line(&v[i], width);
        assert(rows::row_views(v@).skip(from as int)[i - from] == v@[i as int]@);
        assert(row@ == want[i - from]);
        r.push(row);
        i = i + 1;
    }
    assert(rows::row_views(r@) =~= want);
    r
}

/// The row of the cursor in the content of the composer, as it was wrapped.
pub open spec fn cursor_row(app: AppState, draft: DraftView, frame: Area) -> int {
    let s = draft.display_text@;
    let starts = wrap::bytes_at(s, wrap::wrapped_starts(s, content_cells(frame)));
    parts::saturated(
        verifying_rows(app, frame) + parts::saturated(
            wrap::row_of(starts, draft.cursor_byte as int, starts.len() as int),
        ),
    )
}

/// The column of the cursor in its row.
pub open spec fn cursor_column(draft: DraftView, frame: Area) -> int {
    let s = draft.display_text@;
    let texts = wrap::wrapped_rows(s, content_cells(frame));
    let starts = wrap::bytes_at(s, wrap::wrapped_starts(s, content_cells(frame)));
    let row = wrap::row_of(starts, draft.cursor_byte as int, starts.len() as int);
    parts::saturated(wrap::column_of(texts, starts, row, draft.cursor_byte as int) as int)
}

/// How far the composer is scrolled so that the cursor stays in it.
pub open spec fn composer_offset(row: int, area: Area) -> int {
    let visible = if area.height < 3 { 1 } else { area.height - 1 };
    parts::floored(row - (visible - 1))
}

/// Where the cursor is, where there is one.
pub open spec fn screen_cursor(
    app: AppState,
    draft: DraftView,
    frame: Area,
    area: Area,
) -> Option<(int, int)> {
    if app.input_enabled && parts::guard_text(app) is None && area.width > 0 {
        let row = cursor_row(app, draft, frame);
        Some(
            parts::cursor_cell(
                area,
                row,
                cursor_column(draft, frame),
                composer_offset(row, area),
            ),
        )
    } else {
        None
    }
}

/// Whether a screen shows a conversation on the areas it was split into.
pub open spec fn shows(
    screen: Screen,
    app: AppState,
    draft: DraftView,
    error: Option<Seq<char>>,
    now_ms: u64,
    frame: Area,
    areas: Seq<Area>,
    history: HistoryRenderCache,
) -> bool {
    let view = document::view(
        history.document@,
        areas[0].height as nat,
        history.scroll as nat,
    );
    &&& screen.history_area == areas[0]
    &&& screen.error_area == areas[1]
    &&& screen.note_area == areas[2]
    &&& screen.composer_area == areas[3]
    &&& screen.footer_area == areas[4]
    &&& rows::row_views(screen.history@) == drawn_rows(view, areas[0].width as nat)
    &&& screen.edge_fills@ == parts::edge_fills(view, frame, areas[0])
    &&& screen.scrollbar@ == parts::scrollbar(
        frame,
        areas[0],
        view.len(),
        history.scroll as int,
        history.maximum as int,
    )
    &&& parts::patch_views(screen.hyperlinks@) == parts::patches_upto(
        view,
        areas[0],
        view.len() as int,
    )
    &&& optional_row(screen.error) == match error {
        Some(e) => Some(error_row(e)),
        None => None,
    }
    &&& optional_row(screen.note) == match parts::note_text(app, now_ms) {
        Some(note) => Some(parts::one_span(note, note_style())),
        None => None,
    }
    &&& rows::row_views(screen.composer@) == composer_lines(app, draft, frame)
    &&& screen.composer_scroll == composer_offset(cursor_row(app, draft, frame), areas[3])
    &&& screen.footer@ == parts::footer_text(app.status_line, history.scroll as nat)
    &&& screen.cursor is Some == screen_cursor(app, draft, frame, areas[3]) is Some
    &&& screen.cursor matches Some((x, y)) ==> Some((x as int, y as int)) == screen_cursor(
        app,
        draft,
        frame,
        areas[3],
    )
    &&& screen.composer_width == content_cells(frame)
}

/// The history once it was shown on a screen of this size.
pub open spec fn history_shown(
    before: HistoryRenderCache,
    after: HistoryRenderCache,
    app: AppState,
    inputs: Seq<TurnInput>,
    area: Area,
) -> bool {
    &&& after.wf()
    &&& after.generation == before.generation
    &&& after.terminal_hyperlinks == before.terminal_hyperlinks
    &&& !after.stale(area.width)
    &&& after.viewport_height == Some(area.height as usize)
    &&& after.viewport_initialized
    &&& after.document@ == before.next_document(
        crate::model::turn_views(app.turns@),
        document::input_views(inputs),
        area.width,
    )
    &&& after.maximum == crate::ui::history::highest_offset(
        after.document@.rows.len(),
        area.height as nat,
    )
    &&& after.scroll == before.next_offset(
        app.scroll_from_bottom as nat,
        area.width,
        area.height as usize,
        after.maximum as nat,
    )
}

/// Fills the areas of a screen.
pub fn compose_screen(
    app: &AppState,
    draft: &DraftView,
    error: &Option<String>,
    now_ms: u64,
    frame: Area,
    areas: &Vec<Area>,
    history: &mut HistoryRenderCache,
    inputs: &Vec<TurnInput>,
) -> (r: Screen)
    requires
        parts::countable(*app),
        areas@.len() == 5,
        old(history).wf(),
        inputs@.len() == app.turns@.len(),
    ensures
        shows(
            r,
            *app,
            *draft,
            text::optional(*error),
            now_ms,
            frame,
            areas@,
            *final(history),
        ),
        history_shown(*old(history), *final(history), *app, inputs@, areas@[0]),
{
    let area: Area = parts::horizontal_content_area(frame);
    let cells: usize = if area.width == 0 {
        1
    } else {
        area.width as usize
    };
    let guard: Option<WrappedText> = match parts::composer_guard(app) {
        Some(warning) => Some(wrap_plain(warning, cells)),
        None => None,
    };
    let guarded: bool = guard.is_some();
    let attachment_rows: u16 = if guarded {
        0
    } else {
        parts::attachment_visual_height(app, area.width)
    };
    let wrapped: WrappedText = wrap_plain(draft.display_text.as_str(), cells);
    let history_area: Area = areas[0];
    let composer_area: Area = areas[3];
    let shown: Vec<VisualRow> = history.viewport_rows(
        app,
        history_area.width,
        history_area.height as usize,
        inputs,
    );
    let scrolled: usize = history.scroll_from_bottom();
    let scrollable: usize = history.maximum_offset();
    let ghost view = rows::row_views(shown@);
    assert(view.skip(0) =~= view);
    let note: Option<VisualRow> = match parts::status_note(app, now_ms) {
        Some(note) => Some(parts::single_span(note.as_str(), bold_yellow())),
        None => None,
    };
    let shown_error: Option<VisualRow> = match error {
        Some(e) => Some(error_line(e.as_str())),
        None => None,
    };
    let composer: Vec<VisualRow> = build_composer_lines(app, draft, frame, &guard, &wrapped);
    let (row, column) = wrapped.cell_of(draft.cursor_byte);
    let row: u16 = parts::to_u16(row);
    let column: u16 = parts::to_u16(column);
    let content_row: u16 = if attachment_rows as u32 + row as u32 > 65535 {
        65535
    } else {
        attachment_rows + row
    };
    let visible: u16 = if composer_area.height < 3 {
        1
    } else {
        composer_area.height - 1
    };
    let scroll: u16 = if content_row < visible {
        0
    } else {
        content_row - (visible - 1)
    };
    let cursor: Option<(u16, u16)> = if app.input_enabled && !guarded && composer_area.width > 0 {
        Some(parts::editor_cursor(composer_area, content_row, column, scroll))
    } else {
        None
    };
    Screen {
        history_area,
        error_area: areas[1],
        note_area: areas[2],
        composer_area,
        footer_area: areas[4],
        history: draw_rows(&shown, 0, history_area.width),
        edge_fills: parts::prompt_edge_fills(&shown, frame, history_area),
        scrollbar: parts::history_scrollbar(
            frame,
            history_area,
            shown.len(),
            scrolled,
            scrollable,
        ),
        hyperlinks: parts::hyperlink_patches(&shown, history_area),
        error: shown_error,
        note,
        composer,
        composer_scroll: scroll,
        footer: parts::footer(&app.status_line, scrolled),
        cursor,
        composer_width: cells,
    }
}

/// The rows that each part of the screen wants.
fn wanted_rows(
    app: &AppState,
    draft: &DraftView,
    error: &Option<String>,
    now_ms: u64,
    frame: Area,
) -> (r: Vec<RowsWanted>)
    requires
        parts::countable(*app),
    ensures
        r@ == rows_wanted(*app, *draft, text::optional(*error), now_ms, frame),
{
    let area: Area = parts::horizontal_content_area(frame);
    let cells: usize = if area.width == 0 {
        1
    } else {
        area.width as usize
    };
    let (attachment_rows, text_rows): (u16, usize) = match parts::composer_guard(app) {
        Some(warning) => (0, wrap_plain(warning, cells).height()),
        None => (
            parts::attachment_visual_height(app, area.width),
            wrap_plain(draft.display_text.as_str(), cells).height(),
        ),
    };
    let text_rows: u16 = parts::to_u16(text_rows);
    let content_rows: u16 = if attachment_rows as u32 + text_rows as u32 > 65535 {
        65535
    } else {
        attachment_rows + text_rows
    };
    let noted: bool = parts::status_note(app, now_ms).is_some();
    let mut r: Vec<RowsWanted> = Vec::new();
    r.push(RowsWanted::AtLeast(1));
    r.push(RowsWanted::Exactly(if error.is_some() {
        1
    } else {
        0
    }));
    r.push(RowsWanted::Exactly(if noted {
        1
    } else {
        0
    }));
    r.push(RowsWanted::Exactly(parts::composer_height(content_rows, area.height)));
    r.push(RowsWanted::Exactly(1));
    assert(r@ =~= rows_wanted(*app, *draft, text::optional(*error), now_ms, frame));
    r
}

/// Whether a screen is the one of a conversation, on areas that the frame splits
/// into, and the history the one that it leaves behind.
pub open spec fn ordinary(
    screen: Screen,
    app: AppState,
    draft: DraftView,
    error: Option<Seq<char>>,
    now_ms: u64,
    frame: Area,
    before: HistoryRenderCache,
    after: HistoryRenderCache,
    inputs: Seq<TurnInput>,
) -> bool {
    exists|areas: Seq<Area>|
        #[trigger] split_of(
            areas,
            parts::content_area(frame),
            rows_wanted(app, draft, error, now_ms, frame),
        ) && shows(screen, app, draft, error, now_ms, frame, areas, after) && history_shown(
            before,
            after,
            app,
            inputs,
            areas[0],
        )
}

/// Lays out the screen of a conversation.
pub fn render_ordinary(
    app: &AppState,
    draft: &DraftView,
    error: &Option<String>,
    now_ms: u64,
    frame: Area,
    history: &mut HistoryRenderCache,
    inputs: &Vec<TurnInput>,
) -> (r: Screen)
    requires
        parts::countable(*app),
        old(history).wf(),
        inputs@.len() == app.turns@.len(),
    ensures
        ordinary(
            r,
            *app,
            *draft,
            text::optional(*error),
            now_ms,
            frame,
            *old(history),
            *final(history),
            inputs@,
        ),
{
    let wanted: Vec<RowsWanted> = wanted_rows(app, draft, error, now_ms, frame);
    let areas: Vec<Area> = split_rows(parts::horizontal_content_area(frame), &wanted);
    assert(split_of(areas@, parts::content_area(frame), wanted@));
    compose_screen(app, draft, error, now_ms, frame, &areas, history, inputs)
}

// ---------------------------------------------------------------------------
// The screen of a blocked agent
// ---------------------------------------------------------------------------

/// The question of a blocked agent, and where it is painted.
pub struct BlockedScreen {
    pub title_area: Area,
    pub body_area: Area,
    pub error_area: Area,
    pub footer_area: Area,
    pub title: VisualRow,
    pub body: Vec<VisualRow>,
    pub error: Option<VisualRow>,
    pub footer: String,
}

/// The end of what the agent asks, as far as it fits.
pub open spec fn blocked_body(surface: BlockedSurface, area: Area) -> Seq<rows::RowView> {
    match surface {
        BlockedSurface::Read(styled) => {
            let all = rows::styled_rows(styled@, Seq::empty(), area.width as nat);
            drawn_rows(
                all.skip(parts::floored(all.len() - area.height)),
                area.width as nat,
            )
        },
        _ => seq![parts::one_span("Unable to read native interaction"@, rows::plain_cell())],
    }
}

/// Whether a screen shows the question of a blocked agent.
pub open spec fn shows_question(screen: BlockedScreen, app: AppState, areas: Seq<Area>) -> bool {
    &&& screen.title_area == areas[0]
    &&& screen.body_area == areas[1]
    &&& screen.error_area == areas[2]
    &&& screen.footer_area == areas[3]
    &&& screen.title@ == parts::one_span("INTERACTION REQUIRED"@, note_style())
    &&& rows::row_views(screen.body@) == blocked_body(app.blocked_surface, areas[1])
    &&& optional_row(screen.error) == match app.interaction_error {
        Some(e) => Some(error_row(e@)),
        None => None,
    }
    &&& screen.footer@ == "Native agent interaction · prefix+m to return"@
}

/// The rows that each part of that screen wants: the title, the question, an
/// error and the footer.
pub open spec fn question_rows_wanted(app: AppState) -> Seq<RowsWanted> {
    seq![
        RowsWanted::Exactly(1),
        RowsWanted::AtLeast(1),
        RowsWanted::Exactly(if app.interaction_error is Some { 1 } else { 0 }),
        RowsWanted::Exactly(1),
    ]
}

/// Fills the areas of the screen of a blocked agent.
pub fn compose_blocked(app: &AppState, areas: &Vec<Area>) -> (r: BlockedScreen)
    requires
        areas@.len() == 4,
    ensures
        shows_question(r, *app, areas@),
{
    let area: Area = areas[1];
    let body: Vec<VisualRow> = match &app.blocked_surface {
        BlockedSurface::Read(styled) => {
            let all: Vec<VisualRow> = wrap_styled(styled, area.width as usize);
            assert(rows::row_views(all@).len() == all@.len());
            let start: usize = if all.len() < area.height as usize {
                0
            } else {
                all.len() - area.height as usize
            };
            draw_rows(&all, start, area.width)
        },
        _ => {
            let mut body: Vec<VisualRow> = Vec::new();
            let row: VisualRow = parts::single_span(
                "Unable to read native interaction",
                CellStyle::default(),
            );
            let ghost view = row@;
            body.push(row);
            assert(rows::row_views(body@) =~= seq![view]);
            body
        },
    };
    BlockedScreen {
        title_area: areas[0],
        body_area: area,
        error_area: areas[2],
        footer_area: areas[3],
        title: parts::single_span("INTERACTION REQUIRED", bold_yellow()),
        body,
        error: match &app.interaction_error {
            Some(e) => Some(error_line(e.as_str())),
            None => None,
        },
        footer: "Native agent interaction · prefix+m to return".to_owned(),
    }
}

/// Whether a screen is the one of a question, on areas that the frame splits
/// into.
pub open spec fn questioning(screen: BlockedScreen, app: AppState, frame: Area) -> bool {
    exists|areas: Seq<Area>|
        #[trigger] split_of(areas, parts::content_area(frame), question_rows_wanted(app))
            && shows_question(screen, app, areas)
}

/// Lays out the screen of a blocked agent.
pub fn render_blocked(app: &AppState, frame: Area) -> (r: BlockedScreen)
    ensures
        questioning(r, *app, frame),
{
    let mut wanted: Vec<RowsWanted> = Vec::new();
    wanted.push(RowsWanted::Exactly(1));
    wanted.push(RowsWanted::AtLeast(1));
    wanted.push(RowsWanted::Exactly(if app.interaction_error.is_some() {
        1
    } else {
        0
    }));
    wanted.push(RowsWanted::Exactly(1));
    let areas: Vec<Area> = split_rows(parts::horizontal_content_area(frame), &wanted);
    assert(wanted@ =~= question_rows_wanted(*app));
    assert(split_of(areas@, parts::content_area(frame), wanted@));
    compose_blocked(app, &areas)
}

// ---------------------------------------------------------------------------
// The one or the other
// ---------------------------------------------------------------------------

/// What the overlay shows.
pub enum Rendered {
    Ordinary(Screen),
    Blocked(BlockedScreen),
}

/// Whether the overlay shows what it should: the question of a blocked agent,
/// which leaves the history alone, and else the conversation.
pub open spec fn rendered(
    r: Rendered,
    app: AppState,
    draft: DraftView,
    error: Option<Seq<char>>,
    now_ms: u64,
    frame: Area,
    before: HistoryRenderCache,
    after: HistoryRenderCache,
    inputs: Seq<TurnInput>,
) -> bool {
    match r {
        Rendered::Blocked(screen) => app.agent_status is Blocked && questioning(screen, app, frame)
            && after == before,
        Rendered::Ordinary(screen) => !(app.agent_status is Blocked) && ordinary(
            screen,
            app,
            draft,
            error,
            now_ms,
            frame,
            before,
            after,
            inputs,
        ),
    }
}

/// Lays out what the overlay shows.
pub fn render(
    app: &AppState,
    draft: &DraftView,
    error: &Option<String>,
    now_ms: u64,
    frame: Area,
    history: &mut HistoryRenderCache,
    inputs: &Vec<TurnInput>,
) -> (r: Rendered)
    requires
        parts::countable(*app),
        old(history).wf(),
        inputs@.len() == app.turns@.len(),
    ensures
        r is Blocked <==> app.agent_status is Blocked,
        rendered(
            r,
            *app,
            *draft,
            text::optional(*error),
            now_ms,
            frame,
            *old(history),
            *final(history),
            inputs@,
        ),
{
    match app.agent_status {
        AgentStatus::Blocked => Rendered::Blocked(render_blocked(app, frame)),
        _ => Rendered::Ordinary(
            render_ordinary(app, draft, error, now_ms, frame, history, inputs),
        ),
    }
}

/// Whether two states differ in nothing but the question of the agent, and in
/// what it is doing as far as it is not at work.
pub open spec fn same_but_for_the_question(a: AppState, b: AppState) -> bool {
    &&& b == AppState {
        agent_status: b.agent_status,
        blocked_surface: b.blocked_surface,
        ..a
    }
    &&& a.agent_status.working() == b.agent_status.working()
}

proof fn lemma_pending_height_is_the_same(a: AppState, b: AppState, width: nat, n: int)
    requires
        same_but_for_the_question(a, b),
    ensures
        parts::pending_height(a, width, n) == parts::pending_height(b, width, n),
    decreases n,
{
    if n > 0 {
        lemma_pending_height_is_the_same(a, b, width, n - 1);
    }
}

proof fn lemma_same_screen(
    a: AppState,
    b: AppState,
    screen: Screen,
    draft: DraftView,
    error: Option<Seq<char>>,
    now_ms: u64,
    frame: Area,
    areas: Seq<Area>,
    history: HistoryRenderCache,
)
    requires
        same_but_for_the_question(a, b),
    ensures
        rows_wanted(a, draft, error, now_ms, frame) == rows_wanted(
            b,
            draft,
            error,
            now_ms,
            frame,
        ),
        shows(screen, a, draft, error, now_ms, frame, areas, history) == shows(
            screen,
            b,
            draft,
            error,
            now_ms,
            frame,
            areas,
            history,
        ),
{
    let width = content_cells(frame);
    lemma_pending_height_is_the_same(a, b, width, a.pending_attachments@.len() as int);
    let n = a.pending_attachments@.len() as int;
    assert(parts::guard_text(a) == parts::guard_text(b));
    assert(parts::note_text(a, now_ms) == parts::note_text(b, now_ms));
    assert(verifying_lines(a, n) =~= verifying_lines(b, n));
    assert(text_lines(a, draft, frame) == text_lines(b, draft, frame));
    assert(rows_wanted(a, draft, error, now_ms, frame) =~= rows_wanted(
        b,
        draft,
        error,
        now_ms,
        frame,
    ));
}

/// History and composer return unchanged when the agent unblocks: the screens of
/// two states that differ only in the question are the same, so that what is
/// shown after a question is what was shown before it. The question in between
/// leaves the history as it was.
pub proof fn lemma_unblocking_restores_the_screen(
    a: AppState,
    b: AppState,
    r: Rendered,
    draft: DraftView,
    error: Option<Seq<char>>,
    now_ms: u64,
    frame: Area,
    before: HistoryRenderCache,
    after: HistoryRenderCache,
    inputs: Seq<TurnInput>,
)
    requires
        same_but_for_the_question(a, b),
        !(a.agent_status is Blocked),
    ensures
        !(b.agent_status is Blocked) ==> rendered(
            r,
            a,
            draft,
            error,
            now_ms,
            frame,
            before,
            after,
            inputs,
        ) == rendered(r, b, draft, error, now_ms, frame, before, after, inputs),
        b.agent_status is Blocked && rendered(
            r,
            b,
            draft,
            error,
            now_ms,
            frame,
            before,
            after,
            inputs,
        ) ==> after == before,
{
    if let Rendered::Ordinary(screen) = r {
        let want = rows_wanted(a, draft, error, now_ms, frame);
        let content = parts::content_area(frame);
        lemma_same_screen(a, b, screen, draft, error, now_ms, frame, Seq::empty(), after);
        assert forall|areas: Seq<Area>| #[trigger] split_of(areas, content, want) implies shows(
            screen,
            a,
            draft,
            error,
            now_ms,
            frame,
            areas,
            after,
        ) == shows(screen, b, draft, error, now_ms, frame, areas, after) && history_shown(
            before,
            after,
            a,
            inputs,
            areas[0],
        ) == history_shown(before, after, b, inputs, areas[0]) by {
            lemma_same_screen(a, b, screen, draft, error, now_ms, frame, areas, after);
        }
    }
}

/// Whether the split of a frame into the parts of a conversation is settled: one
/// part takes what the others leave, and there is room for all of them.
pub open spec fn split_is_settled(area: Area, wanted: Seq<RowsWanted>) -> bool {
    area.y + area.height <= u16::MAX && exists|k: int| only_flexible(area, wanted, k)
}

/// The split of every frame of seven rows or more is settled, whatever the
/// conversation holds.
pub proof fn lemma_seven_rows_settle_the_split(
    app: AppState,
    draft: DraftView,
    error: Option<Seq<char>>,
    now_ms: u64,
    frame: Area,
)
    requires
        parts::content_area(frame).height >= 7,
        parts::content_area(frame).y + parts::content_area(frame).height <= u16::MAX,
    ensures
        split_is_settled(
            parts::content_area(frame),
            rows_wanted(app, draft, error, now_ms, frame),
        ),
{
    let content = parts::content_area(frame);
    let wanted = rows_wanted(app, draft, error, now_ms, frame);
    let high = composer_rows_wanted(app, draft, frame);
    assert(0 <= high <= content.height - 4);
    reveal_with_fuel(exact_rows, 6);
    assert(exact_rows(wanted, 5) <= high + 3);
    assert(only_flexible(content, wanted, 0));
}

/// Whether two screens show the same in the same places.
pub open spec fn same_screen(a: Screen, b: Screen) -> bool {
    &&& a.history_area == b.history_area
    &&& a.error_area == b.error_area
    &&& a.note_area == b.note_area
    &&& a.composer_area == b.composer_area
    &&& a.footer_area == b.footer_area
    &&& rows::row_views(a.history@) == rows::row_views(b.history@)
    &&& a.edge_fills@ == b.edge_fills@
    &&& a.scrollbar@ == b.scrollbar@
    &&& parts::patch_views(a.hyperlinks@) == parts::patch_views(b.hyperlinks@)
    &&& optional_row(a.error) == optional_row(b.error)
    &&& optional_row(a.note) == optional_row(b.note)
    &&& rows::row_views(a.composer@) == rows::row_views(b.composer@)
    &&& a.composer_scroll == b.composer_scroll
    &&& a.footer@ == b.footer@
    &&& a.cursor == b.cursor
    &&& a.composer_width == b.composer_width
}

/// Whether a draw starts from the history that another one started from, or from
/// the one that it left behind. What the terminal holds of links is kept beside
/// it.
pub open spec fn goes_on_from(
    history: HistoryRenderCache,
    before: HistoryRenderCache,
    after: HistoryRenderCache,
) -> bool {
    ||| history == before
    ||| history == HistoryRenderCache {
        terminal_hyperlinks: history.terminal_hyperlinks,
        ..after
    }
}

/// Two draws of a conversation, before a question and after it, show the same in
/// the same places. The second may start from the history that the first one
/// left behind, which a question leaves alone, or from the one it started from.
/// Where something is waited for both are drawn at the same moment, since the
/// wait is counted. The split of the frame must be settled.
pub proof fn lemma_leaving_the_question_shows_the_same_screen(
    a: AppState,
    b: AppState,
    first: Screen,
    second: Screen,
    draft: DraftView,
    error: Option<Seq<char>>,
    now_a: u64,
    now_b: u64,
    frame: Area,
    before: HistoryRenderCache,
    after: HistoryRenderCache,
    again: HistoryRenderCache,
    end: HistoryRenderCache,
    inputs: Seq<TurnInput>,
)
    requires
        same_but_for_the_question(a, b),
        now_a == now_b || (a.pending_action is None && !a.agent_status.working()),
        split_is_settled(
            parts::content_area(frame),
            rows_wanted(a, draft, error, now_a, frame),
        ),
        ordinary(first, a, draft, error, now_a, frame, before, after, inputs),
        goes_on_from(again, before, after),
        ordinary(second, b, draft, error, now_b, frame, again, end, inputs),
    ensures
        same_screen(first, second),
        end.document@ == after.document@,
        end.scroll == after.scroll,
        end.maximum == after.maximum,
{
    let content = parts::content_area(frame);
    let want = rows_wanted(a, draft, error, now_a, frame);
    let then = rows_wanted(b, draft, error, now_b, frame);
    let one = choose|areas: Seq<Area>|
        #[trigger] split_of(areas, content, want) && shows(
            first,
            a,
            draft,
            error,
            now_a,
            frame,
            areas,
            after,
        ) && history_shown(before, after, a, inputs, areas[0]);
    let two = choose|areas: Seq<Area>|
        #[trigger] split_of(areas, content, then) && shows(
            second,
            b,
            draft,
            error,
            now_b,
            frame,
            areas,
            end,
        ) && history_shown(again, end, b, inputs, areas[0]);
    lemma_same_screen(a, b, second, draft, error, now_b, frame, two, end);
    assert(parts::note_text(a, now_a) == parts::note_text(a, now_b));
    assert(want =~= then);
    assert(one == two);
    assert(end.document@ == after.document@);
    assert(end.maximum == after.maximum);
    assert(end.scroll == after.scroll);
}

}
