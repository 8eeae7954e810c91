//! The parts of the screen, each on its own.

use crate::app::{AppState, StatusLine};
use crate::composer;
use crate::composer::ComposerAccess;
use crate::markdown;
use crate::model;
use crate::model::Attachment;
use crate::style;
use crate::style::{AnsiColor, StyleModifiers};
use crate::text;
use crate::ui::history::HyperlinkArea;
use crate::ui::visual_rows::block;
use crate::ui::visual_rows::document;
use crate::ui::visual_rows::rows;
use crate::ui::visual_rows::rows::{CellStyle, VisualRow, VisualSpan};
use crate::ui::visual_rows::wrap;
use crate::ui::visual_rows::wrap::{wrap_plain, WrappedText};
use crate::width;
use vstd::prelude::*;

verus! {

// ---------------------------------------------------------------------------
// Areas
// ---------------------------------------------------------------------------

/// A rectangle of terminal cells.
#[derive(Clone, Copy, Debug, PartialEq, Eq, Structural)]
pub struct Area {
    pub x: u16,
    pub y: u16,
    pub width: u16,
    pub height: u16,
}

/// A number as far as sixteen bits hold it.
pub open spec fn saturated(n: int) -> int {
    document::smaller(n, 65535)
}

/// What is left of a number, and nothing below zero.
pub open spec fn floored(n: int) -> int {
    if n < 0 {
        0
    } else {
        n
    }
}

impl Area {
    pub open spec fn right(self) -> int {
        saturated(self.x + self.width)
    }

    pub open spec fn bottom(self) -> int {
        saturated(self.y + self.height)
    }
}

fn saturating_sum(a: u16, b: u16) -> (r: u16)
    ensures
        r == saturated(a + b),
{
    let sum: u32 = a as u32 + b as u32;
    if sum > 65535 {
        65535
    } else {
        sum as u16
    }
}

/// A count as far as sixteen bits hold it.
pub fn to_u16(n: usize) -> (r: u16)
    ensures
        r == saturated(n as int),
{
    if n > 65535 {
        65535
    } else {
        n as u16
    }
}

pub open spec fn content_area(area: Area) -> Area {
    Area {
        x: saturated(area.x + if area.width > 0 { 1int } else { 0 }) as u16,
        y: area.y,
        width: floored(area.width - 2) as u16,
        height: area.height,
    }
}

/// The area between the gutters.
pub fn horizontal_content_area(area: Area) -> (r: Area)
    ensures
        r == content_area(area),
{
    Area {
        x: saturating_sum(area.x, if area.width > 0 {
            1
        } else {
            0
        }),
        y: area.y,
        width: if area.width < 2 {
            0
        } else {
            area.width - 2
        },
        height: area.height,
    }
}

// ---------------------------------------------------------------------------
// Texts
// ---------------------------------------------------------------------------

/// A row of one span.
pub open spec fn one_span(s: Seq<char>, style: CellStyle) -> rows::RowView {
    rows::RowView {
        spans: seq![rows::SpanView { text: s, style, hyperlink: None }],
        fill: None,
    }
}

/// A style that sets the color of the text.
pub open spec fn colored(color: AnsiColor) -> CellStyle {
    CellStyle { foreground: Some(color), background: None, modifiers: style::no_modifiers() }
}

pub fn color_style(color: AnsiColor) -> (r: CellStyle)
    ensures
        r == colored(color),
{
    CellStyle { foreground: Some(color), background: None, modifiers: StyleModifiers::default() }
}

pub fn single_span(s: &str, style: CellStyle) -> (r: VisualRow)
    ensures
        r@ == one_span(s@, style),
{
    let span = VisualSpan { text: s.to_owned(), style, hyperlink: None };
    let ghost view = span@;
    let mut spans: Vec<VisualSpan> = Vec::new();
    spans.push(span);
    assert(rows::span_views(spans@) =~= seq![view]);
    VisualRow { spans, fill: None }
}

/// The warning in place of a composer that may not be written to.
pub open spec fn guard_text(app: AppState) -> Option<Seq<char>> {
    if !app.input_enabled {
        None
    } else {
        match app.access() {
            ComposerAccess::Ready => None,
            ComposerAccess::Occupied => Some(
                "Native composer contains unsent input · prefix+m to return"@,
            ),
            ComposerAccess::Unknown => Some("Unable to verify native composer · prefix+m to return"@),
        }
    }
}

pub fn composer_guard(app: &AppState) -> (r: Option<&'static str>)
    ensures
        text::optional_str(r) == guard_text(*app),
{
    if !app.input_enabled {
        return None;
    }
    match app.composer_access() {
        ComposerAccess::Ready => None,
        ComposerAccess::Occupied => Some(
            "Native composer contains unsent input · prefix+m to return",
        ),
        ComposerAccess::Unknown => Some("Unable to verify native composer · prefix+m to return"),
    }
}

/// The whole seconds between two moments.
pub open spec fn seconds_since(since_ms: u64, now_ms: u64) -> nat {
    (floored(now_ms - since_ms) / 1000) as nat
}

fn elapsed_seconds(since_ms: u64, now_ms: u64) -> (r: u64)
    ensures
        r == seconds_since(since_ms, now_ms),
{
    if now_ms < since_ms {
        0
    } else {
        (now_ms - since_ms) / 1000
    }
}

/// The line that says what is waited for.
pub open spec fn note_text(app: AppState, now_ms: u64) -> Option<Seq<char>> {
    match app.pending_action {
        Some(pending) => Some(
            pending.label@ + " ("@ + text::decimal_text(seconds_since(pending.since_ms, now_ms))
                + "s)…"@,
        ),
        None => if app.agent_status is Working {
            let elapsed = match app.working_since_ms {
                Some(since) => seconds_since(since, now_ms),
                None => 0,
            };
            Some("Working ("@ + text::decimal_text(elapsed) + "s · esc to interrupt)"@)
        } else {
            None
        },
    }
}

/// The one line that says what is being waited for.
///
/// A pane asked to attach or drop an image answers in its own time, so the wait
/// is named and counted rather than left as a composer that does nothing.
pub fn status_note(app: &AppState, now_ms: u64) -> (r: Option<String>)
    ensures
        text::optional(r) == note_text(*app, now_ms),
{
    if let Some(pending) = &app.pending_action {
        let elapsed: String = text::number_text(elapsed_seconds(pending.since_ms, now_ms));
        let mut note: String = pending.label.clone();
        note.append(" (");
        note.append(elapsed.as_str());
        note.append("s)…");
        assert(note@ =~= note_text(*app, now_ms).unwrap());
        return Some(note);
    }
    if !app.agent_status.is_working() {
        return None;
    }
    let elapsed: u64 = match app.working_since_ms {
        Some(since) => elapsed_seconds(since, now_ms),
        None => 0,
    };
    let number: String = text::number_text(elapsed);
    let mut note = String::new();
    note.append("Working (");
    note.append(number.as_str());
    note.append("s · esc to interrupt)");
    assert(note@ =~= note_text(*app, now_ms).unwrap());
    Some(note)
}

/// The texts with a dot between two of them.
pub open spec fn dotted(fields: Seq<Seq<char>>, n: int) -> Seq<char>
    decreases n,
{
    if n <= 0 {
        Seq::empty()
    } else if n == 1 {
        fields[0]
    } else {
        dotted(fields, n - 1) + " · "@ + fields[n - 1]
    }
}

/// A list with one more text, where there is one.
pub open spec fn with_field(fields: Seq<Seq<char>>, field: Option<String>) -> Seq<Seq<char>> {
    match field {
        Some(value) => fields.push(value@),
        None => fields,
    }
}

/// The fields of the footer.
pub open spec fn footer_texts(status: Option<StatusLine>, scrolled_rows: nat) -> Seq<Seq<char>> {
    let first = if scrolled_rows > 0 {
        seq!["↑ "@ + text::decimal_text(scrolled_rows) + " rows · Shift+End for the latest"@]
    } else {
        Seq::empty()
    };
    match status {
        None => first.push("Simple Prompts · prefix+m to return"@),
        Some(line) => with_field(
            with_field(
                with_field(first.push(line.agent@), line.model).push(line.cwd@),
                line.branch,
            ),
            line.usage,
        ),
    }
}

/// The footer.
pub open spec fn footer_text(status: Option<StatusLine>, scrolled_rows: nat) -> Seq<char> {
    let fields = footer_texts(status, scrolled_rows);
    dotted(fields, fields.len() as int)
}

fn push_field(fields: &mut Vec<String>, field: &Option<String>)
    ensures
        text::texts(final(fields)@) == with_field(text::texts(old(fields)@), *field),
{
    if let Some(value) = field {
        push_text(fields, value.as_str());
    }
}

fn push_text(fields: &mut Vec<String>, s: &str)
    ensures
        text::texts(final(fields)@) == text::texts(old(fields)@).push(s@),
{
    fields.push(s.to_owned());
    assert(text::texts(fields@) =~= text::texts(old(fields)@).push(s@));
}

/// The footer says where the view stands as well as what it is looking at.
///
/// A history scrolled away from the latest answer looks much like one that has
/// simply stopped growing, so the distance back and the key that closes it are
/// named first, where even a narrow pane still shows them.
pub fn footer(status: &Option<StatusLine>, scrolled_rows: usize) -> (r: String)
    ensures
        r@ == footer_text(*status, scrolled_rows as nat),
{
    let mut fields: Vec<String> = Vec::new();
    assert(text::texts(fields@) =~= Seq::<Seq<char>>::empty());
    if scrolled_rows > 0 {
        let number: String = text::number_text(scrolled_rows as u64);
        let mut first = String::new();
        first.append("↑ ");
        first.append(number.as_str());
        first.append(" rows · Shift+End for the latest");
        push_text(&mut fields, first.as_str());
        assert(text::texts(fields@) =~= seq![
            "↑ "@ + text::decimal_text(scrolled_rows as nat) + " rows · Shift+End for the latest"@,
        ]);
    }
    match status {
        None => {
            push_text(&mut fields, "Simple Prompts · prefix+m to return");
        },
        Some(line) => {
            push_text(&mut fields, line.agent.as_str());
            push_field(&mut fields, &line.model);
            push_text(&mut fields, line.cwd.as_str());
            push_field(&mut fields, &line.branch);
            push_field(&mut fields, &line.usage);
        },
    }
    let ghost all = footer_texts(*status, scrolled_rows as nat);
    assert(text::texts(fields@) == all);
    let mut r = String::new();
    let mut i: usize = 0;
    while i < fields.len()
        invariant
            all == text::texts(fields@),
            i <= fields@.len(),
            r@ == dotted(all, i as int),
        decreases fields@.len() - i,
    {
        assert(all[i as int] == fields@[i as int]@);
        if i > 0 {
            r.append(" · ");
        }
        r.append(fields[i].as_str());
        i = i + 1;
        assert(r@ =~= dotted(all, i as int));
    }
    r
}

// ---------------------------------------------------------------------------
// The composer
// ---------------------------------------------------------------------------

/// Whether the images of a draft can be counted on this machine.
pub open spec fn countable(app: AppState) -> bool {
    app.draft_attachments@.len() + app.pending_attachments@.len() < usize::MAX
}

/// The line of an image that is still being verified, behind `before` others.
pub open spec fn pending_line(before: int, index: int, display: Seq<char>) -> Seq<char> {
    "[Image #"@ + text::decimal_text((before + index + 1) as nat) + "] "@ + display
        + " (verifying…)"@
}

pub fn pending_text(app: &AppState, index: usize) -> (r: String)
    requires
        countable(*app),
        index < app.pending_attachments@.len(),
    ensures
        r@ == pending_line(
            app.draft_attachments@.len() as int,
            index as int,
            app.pending_attachments@[index as int].display@,
        ),
{
    let number: u64 = (app.draft_attachments.len() + index + 1) as u64;
    let digits: String = text::number_text(number);
    let mut r = String::new();
    r.append("[Image #");
    r.append(digits.as_str());
    r.append("] ");
    r.append(app.pending_attachments[index].display.as_str());
    r.append(" (verifying…)");
    assert(r@ =~= pending_line(
        app.draft_attachments@.len() as int,
        index as int,
        app.pending_attachments@[index as int].display@,
    ));
    r
}

/// The rows that a text takes on the screen, one at least.
pub open spec fn rows_taken(s: Seq<char>, width: nat) -> nat {
    wrap::at_least_one(wrap::wrapped_rows(s, width).len())
}

/// The rows that the first `n` images take that are still being verified.
pub open spec fn pending_height(app: AppState, width: nat, n: int) -> int
    decreases n,
{
    if n <= 0 {
        0
    } else {
        let line = pending_line(
            app.draft_attachments@.len() as int,
            n - 1,
            app.pending_attachments@[n - 1].display@,
        );
        saturated(pending_height(app, width, n - 1) + saturated(rows_taken(line, width) as int))
    }
}

pub fn attachment_visual_height(app: &AppState, width: u16) -> (r: u16)
    requires
        countable(*app),
    ensures
        r == pending_height(
            *app,
            wrap::at_least_one(width as nat),
            app.pending_attachments@.len() as int,
        ),
{
    let cells: usize = if width == 0 {
        1
    } else {
        width as usize
    };
    let mut r: u16 = 0;
    let mut i: usize = 0;
    while i < app.pending_attachments.len()
        invariant
            countable(*app),
            cells == wrap::at_least_one(width as nat),
            i <= app.pending_attachments@.len(),
            r == pending_height(*app, cells as nat, i as int),
        decreases app.pending_attachments@.len() - i,
    {
        let line: String = pending_text(app, i);
        let wrapped: WrappedText = wrap_plain(line.as_str(), cells);
        r = saturating_sum(r, to_u16(wrapped.height()));
        i = i + 1;
    }
    r
}

/// How high the composer is: its rows and the rule above them, three rows at
/// least, and no more than two fifths of the screen where that is more.
pub open spec fn composer_box(content_rows: int, screen_height: int) -> int {
    let most = if screen_height * 2 / 5 > 3 { screen_height * 2 / 5 } else { 3 };
    if content_rows + 1 < 3 {
        3
    } else {
        document::smaller(content_rows + 1, most)
    }
}

pub fn composer_height(content_rows: u16, screen_height: u16) -> (r: u16)
    ensures
        r == composer_box(content_rows as int, screen_height as int),
{
    let fifths: u32 = screen_height as u32 * 2 / 5;
    let most: u32 = if fifths > 3 {
        fifths
    } else {
        3
    };
    let wanted: u32 = content_rows as u32 + 1;
    if wanted < 3 {
        3
    } else if wanted < most {
        wanted as u16
    } else {
        most as u16
    }
}

/// A row of the draft with the image that the cursor stands on picked out.
pub open spec fn highlighted_row(
    row: Seq<char>,
    row_start: int,
    highlight: Option<(usize, usize)>,
) -> rows::RowView {
    match highlight {
        None => one_span(row, rows::plain_cell()),
        Some((from, to)) => {
            let start = if from < row_start { 0 } else { from - row_start };
            let end = document::smaller(to - row_start, text::byte_len(row) as int);
            if start >= end || !style::on_boundary(row, start) || !style::on_boundary(row, end) {
                one_span(row, rows::plain_cell())
            } else {
                let a = wrap::chars_before(row, start, row.len() as int);
                let b = wrap::chars_before(row, end, row.len() as int);
                let reversed = CellStyle {
                    modifiers: StyleModifiers { reverse: true, ..style::no_modifiers() },
                    ..rows::plain_cell()
                };
                rows::RowView {
                    spans: seq![
                        rows::SpanView {
                            text: row.take(a),
                            style: rows::plain_cell(),
                            hyperlink: None,
                        },
                        rows::SpanView {
                            text: row.subrange(a, b),
                            style: reversed,
                            hyperlink: None,
                        },
                        rows::SpanView {
                            text: row.skip(b),
                            style: rows::plain_cell(),
                            hyperlink: None,
                        },
                    ],
                    fill: None,
                }
            }
        },
    }
}

/// How many characters start before a byte.
fn count_before(chars: &Vec<char>, offsets: &Vec<usize>, byte: usize) -> (r: usize)
    requires
        offsets@.len() == chars@.len() + 1,
        forall|i: int| 0 <= i <= chars@.len() ==> #[trigger] offsets@[i] == text::byte_at(chars@, i),
    ensures
        r == wrap::chars_before(chars@, byte as int, chars@.len() as int),
        r <= chars@.len(),
{
    let mut n: usize = chars.len();
    while n > 0 && offsets[n - 1] >= byte
        invariant
            n <= chars@.len(),
            offsets@.len() == chars@.len() + 1,
            forall|i: int|
                0 <= i <= chars@.len() ==> #[trigger] offsets@[i] == text::byte_at(chars@, i),
            wrap::chars_before(chars@, byte as int, n as int) == wrap::chars_before(
                chars@,
                byte as int,
                chars@.len() as int,
            ),
        decreases n,
    {
        n = n - 1;
    }
    n
}

proof fn lemma_chars_before_monotone(s: Seq<char>, a: int, b: int, n: int)
    requires
        a <= b,
    ensures
        wrap::chars_before(s, a, n) <= wrap::chars_before(s, b, n),
        0 <= wrap::chars_before(s, a, n),
        n >= 0 ==> wrap::chars_before(s, b, n) <= n,
    decreases n,
{
    if n > 0 {
        lemma_chars_before_monotone(s, a, b, n - 1);
    }
}

fn span_of(chars: &Vec<char>, start: usize, end: usize, style: CellStyle) -> (r: VisualSpan)
    requires
        start <= end <= chars@.len(),
    ensures
        r@ == (rows::SpanView {
            text: chars@.subrange(start as int, end as int),
            style,
            hyperlink: None,
        }),
{
    VisualSpan { text: text::string_between(chars, start, end), style, hyperlink: None }
}

/// Draws one row of the draft, marking the image the cursor is sitting on.
///
/// The native composer highlights a marker whole rather than letting the cursor
/// walk through it, which is how it shows the thing is one piece. The overlay
/// treats it as one piece too, so it says so the same way.
pub fn composer_row(row: &str, row_start: usize, highlight: Option<(usize, usize)>) -> (r: VisualRow)
    ensures
        r@ == highlighted_row(row@, row_start as int, highlight),
{
    let (from, to) = match highlight {
        None => {
            return single_span(row, CellStyle::default());
        },
        Some((from, to)) => (from, to),
    };
    let start: usize = if from < row_start {
        0
    } else {
        from - row_start
    };
    let length: usize = text::byte_count(row);
    if to < row_start || to - row_start <= start || length <= start {
        return single_span(row, CellStyle::default());
    }
    let end: usize = if to - row_start < length {
        to - row_start
    } else {
        length
    };
    if !style::is_boundary(row, start) || !style::is_boundary(row, end) {
        return single_span(row, CellStyle::default());
    }
    let chars: Vec<char> = text::chars_of(row);
    let offsets: Vec<usize> = text::byte_offsets(row, &chars);
    let a: usize = count_before(&chars, &offsets, start);
    let b: usize = count_before(&chars, &offsets, end);
    let n: usize = chars.len();
    proof {
        lemma_chars_before_monotone(chars@, start as int, end as int, n as int);
    }
    let reversed = CellStyle {
        foreground: None,
        background: None,
        modifiers: StyleModifiers {
            bold: false,
            dim: false,
            italic: false,
            underline: false,
            reverse: true,
        },
    };
    let mut spans: Vec<VisualSpan> = Vec::new();
    spans.push(span_of(&chars, 0, a, CellStyle::default()));
    spans.push(span_of(&chars, a, b, reversed));
    spans.push(span_of(&chars, b, n, CellStyle::default()));
    let r = VisualRow { spans, fill: None };
    proof {
        let want = highlighted_row(row@, row_start as int, highlight);
        assert(chars@.subrange(0, a as int) =~= row@.take(a as int));
        assert(chars@.subrange(b as int, n as int) =~= row@.skip(b as int));
        assert(r@.spans =~= want.spans);
    }
    r
}

/// Where the cursor goes in the composer.
pub open spec fn cursor_cell(area: Area, content_row: int, column: int, scroll: int) -> (int, int) {
    (
        document::smaller(area.x + column, floored(area.right() - 1)),
        document::smaller(area.y + 1 + floored(content_row - scroll), floored(area.bottom() - 1)),
    )
}

/// Column and row of the cursor on the screen.
pub fn editor_cursor(area: Area, content_row: u16, column: u16, scroll: u16) -> (r: (u16, u16))
    ensures
        r.0 == cursor_cell(area, content_row as int, column as int, scroll as int).0,
        r.1 == cursor_cell(area, content_row as int, column as int, scroll as int).1,
{
    let right: u16 = saturating_sum(area.x, area.width);
    let bottom: u16 = saturating_sum(area.y, area.height);
    let last_column: u32 = if right == 0 {
        0
    } else {
        right as u32 - 1
    };
    let last_row: u32 = if bottom == 0 {
        0
    } else {
        bottom as u32 - 1
    };
    let below: u32 = if content_row < scroll {
        0
    } else {
        (content_row - scroll) as u32
    };
    let x: u32 = area.x as u32 + column as u32;
    let y: u32 = area.y as u32 + 1 + below;
    (
        (if x < last_column {
            x
        } else {
            last_column
        }) as u16,
        (if y < last_row {
            y
        } else {
            last_row
        }) as u16,
    )
}

// ---------------------------------------------------------------------------
// The history
// ---------------------------------------------------------------------------

/// A style over another: what it sets wins, and modifiers add up.
pub open spec fn merged(base: CellStyle, overlay: CellStyle) -> CellStyle {
    CellStyle {
        foreground: if overlay.foreground is Some {
            overlay.foreground
        } else {
            base.foreground
        },
        background: if overlay.background is Some {
            overlay.background
        } else {
            base.background
        },
        modifiers: StyleModifiers {
            bold: base.modifiers.bold || overlay.modifiers.bold,
            dim: base.modifiers.dim || overlay.modifiers.dim,
            italic: base.modifiers.italic || overlay.modifiers.italic,
            underline: base.modifiers.underline || overlay.modifiers.underline,
            reverse: base.modifiers.reverse || overlay.modifiers.reverse,
        },
    }
}

pub fn merge_styles(base: CellStyle, overlay: CellStyle) -> (r: CellStyle)
    ensures
        r == merged(base, overlay),
{
    CellStyle {
        foreground: if overlay.foreground.is_some() {
            overlay.foreground
        } else {
            base.foreground
        },
        background: if overlay.background.is_some() {
            overlay.background
        } else {
            base.background
        },
        modifiers: StyleModifiers {
            bold: base.modifiers.bold || overlay.modifiers.bold,
            dim: base.modifiers.dim || overlay.modifiers.dim,
            italic: base.modifiers.italic || overlay.modifiers.italic,
            underline: base.modifiers.underline || overlay.modifiers.underline,
            reverse: base.modifiers.reverse || overlay.modifiers.reverse,
        },
    }
}

/// The style behind a row.
pub open spec fn fill_of(row: rows::RowView) -> CellStyle {
    match row.fill {
        Some(fill) => fill,
        None => rows::plain_cell(),
    }
}

/// The spans of a row over its fill.
pub open spec fn filled_spans(row: rows::RowView) -> Seq<rows::SpanView> {
    Seq::new(
        row.spans.len(),
        |i: int|
            rows::SpanView {
                text: row.spans[i].text,
                style: merged(fill_of(row), row.spans[i].style),
                hyperlink: row.spans[i].hyperlink,
            },
    )
}

/// A row as it is drawn: its spans over its fill, and the fill up to the width.
pub open spec fn drawn(row: rows::RowView, width: nat) -> rows::RowView {
    let padding = floored(width - wrap::text_width(rows::plain_of(row)));
    let spans = filled_spans(row);
    rows::RowView {
        spans: if padding > 0 && row.fill is Some {
            spans.push(
                rows::SpanView {
                    text: block::spaces(padding as nat),
                    style: fill_of(row),
                    hyperlink: None,
                },
            )
        } else {
            spans
        },
        fill: row.fill,
    }
}

fn space_text(n: usize) -> (r: String)
    ensures
        r@ == block::spaces(n as nat),
{
    let mut r = String::new();
    let mut i: usize = 0;
    assert(r@ =~= block::spaces(0));
    while i < n
        invariant
            i <= n,
            r@ == block::spaces(i as nat),
        decreases n - i,
    {
        r.push(' ');
        i = i + 1;
        assert(r@ =~= block::spaces(i as nat));
    }
    r
}

pub fn visual_row_line(row: &VisualRow, width: u16) -> (r: VisualRow)
    ensures
        r@ == drawn(row@, width as nat),
{
    let fill: CellStyle = match row.fill {
        Some(fill) => fill,
        None => CellStyle::default(),
    };
    let ghost want = filled_spans(row@);
    let mut spans: Vec<VisualSpan> = Vec::new();
    let mut i: usize = 0;
    while i < row.spans.len()
        invariant
            i <= row.spans@.len(),
            fill == fill_of(row@),
            want == filled_spans(row@),
            spans@.len() == i,
            forall|k: int| 0 <= k < i ==> (#[trigger] spans@[k])@ == want[k],
        decreases row.spans@.len() - i,
    {
        let mut span: VisualSpan = row.spans[i].copied();
        span.style = merge_styles(fill, span.style);
        assert(row@.spans[i as int] == row.spans@[i as int]@);
        assert(span@ == want[i as int]);
        spans.push(span);
        i = i + 1;
    }
    assert(rows::span_views(spans@) =~= want);
    let used: usize = row.cell_width();
    if used < width as usize && row.fill.is_some() {
        let padding = VisualSpan {
            text: space_text(width as usize - used),
            style: fill,
            hyperlink: None,
        };
        let ghost view = padding@;
        spans.push(padding);
        assert(rows::span_views(spans@) =~= want.push(view));
    }
    VisualRow { spans, fill: row.fill }
}

/// A row whose band reaches over the gutters.
#[derive(Clone, Copy, Debug, PartialEq, Eq, Structural)]
pub struct EdgeFill {
    pub y: u16,
    pub style: CellStyle,
}

/// The bands among the first `n` rows.
pub open spec fn edge_fills_upto(v: Seq<rows::RowView>, area: Area, n: int) -> Seq<EdgeFill>
    decreases n,
{
    if n <= 0 {
        Seq::empty()
    } else {
        let before = edge_fills_upto(v, area, n - 1);
        let y = area.y + n - 1;
        match v[n - 1].fill {
            Some(style) => if y < area.bottom() {
                before.push(EdgeFill { y: y as u16, style })
            } else {
                before
            },
            None => before,
        }
    }
}

/// The bands that reach over the gutters, where the screen has gutters.
pub open spec fn edge_fills(v: Seq<rows::RowView>, frame: Area, area: Area) -> Seq<EdgeFill> {
    if frame.width < 3 {
        Seq::empty()
    } else {
        edge_fills_upto(v, area, v.len() as int)
    }
}

pub fn prompt_edge_fills(shown: &Vec<VisualRow>, frame: Area, area: Area) -> (r: Vec<EdgeFill>)
    ensures
        r@ == edge_fills(rows::row_views(shown@), frame, area),
{
    let mut r: Vec<EdgeFill> = Vec::new();
    if frame.width < 3 {
        return r;
    }
    let bottom: u16 = saturating_sum(area.y, area.height);
    let ghost views = rows::row_views(shown@);
    let mut i: usize = 0;
    while i < shown.len()
        invariant
            views == rows::row_views(shown@),
            bottom == area.bottom(),
            i <= shown@.len(),
            r@ == edge_fills_upto(views, area, i as int),
        decreases shown@.len() - i,
    {
        assert(views[i as int] == shown@[i as int]@);
        if let Some(style) = shown[i].fill {
            if i < 65536 && (area.y as u32 + i as u32) < bottom as u32 {
                r.push(EdgeFill { y: (area.y as u32 + i as u32) as u16, style });
            }
        }
        i = i + 1;
    }
    r
}

/// A cell of the scroll indicator.
#[derive(Clone, Copy, Debug, PartialEq, Eq, Structural)]
pub struct ScrollCell {
    pub x: u16,
    pub y: u16,
    pub on_thumb: bool,
}

/// How long the thumb of the scroll indicator is.
pub open spec fn thumb_len(track: int, scrollable: int) -> int {
    let share = track * track / (track + scrollable);
    if share < 1 {
        1
    } else {
        document::smaller(share, track)
    }
}

/// Where the thumb of the scroll indicator starts.
pub open spec fn thumb_top(track: int, scrolled: int, scrollable: int) -> int {
    let above = scrollable - document::smaller(scrolled, scrollable);
    above * (track - thumb_len(track, scrollable)) / scrollable
}

/// The scroll indicator. It appears only where there is something outside the
/// view to reach.
pub open spec fn scrollbar(
    frame: Area,
    area: Area,
    shown: nat,
    scrolled: int,
    scrollable: int,
) -> Seq<ScrollCell> {
    if scrollable == 0 || frame.width < 3 || area.height == 0 {
        Seq::empty()
    } else {
        let track = area.height as int;
        let top = thumb_top(track, scrolled, scrollable);
        let count = document::smaller(shown as int, area.bottom() - area.y);
        Seq::new(
            count as nat,
            |i: int|
                ScrollCell {
                    x: (frame.right() - 1) as u16,
                    y: (area.y + i) as u16,
                    on_thumb: top <= i < top + thumb_len(track, scrollable),
                },
        )
    }
}

proof fn lemma_thumb(track: int, scrolled: int, scrollable: int)
    requires
        0 < track <= 65535,
        0 < scrollable,
        0 <= scrolled,
    ensures
        1 <= thumb_len(track, scrollable) <= track,
        0 <= thumb_top(track, scrolled, scrollable) <= track - thumb_len(track, scrollable),
        0 <= track * track <= 65535 * 65535,
{
    assert(0 <= track * track <= 65535 * 65535) by (nonlinear_arith)
        requires
            0 < track <= 65535,
    ;
    let above = scrollable - document::smaller(scrolled, scrollable);
    let travel = track - thumb_len(track, scrollable);
    assert(0 <= above <= scrollable);
    assert(0 <= above * travel <= scrollable * travel) by (nonlinear_arith)
        requires
            0 <= above <= scrollable,
            0 <= travel,
    ;
    assert(0 <= (above * travel) / scrollable <= travel) by (nonlinear_arith)
        requires
            0 <= above * travel <= scrollable * travel,
            0 < scrollable,
            0 <= travel,
    ;
}

/// The cells of the scroll indicator, in the outer gutter column.
pub fn history_scrollbar(
    frame: Area,
    area: Area,
    shown: usize,
    scrolled_rows: usize,
    scrollable_rows: usize,
) -> (r: Vec<ScrollCell>)
    ensures
        r@ == scrollbar(
            frame,
            area,
            shown as nat,
            scrolled_rows as int,
            scrollable_rows as int,
        ),
{
    let mut r: Vec<ScrollCell> = Vec::new();
    if scrollable_rows == 0 || frame.width < 3 || area.height == 0 {
        return r;
    }
    let track: u128 = area.height as u128;
    let scrollable: u128 = scrollable_rows as u128;
    let scrolled: u128 = scrolled_rows as u128;
    proof {
        lemma_thumb(track as int, scrolled as int, scrollable as int);
    }
    let share: u128 = track * track / (track + scrollable);
    let thumb: u128 = if share < 1 {
        1
    } else if share < track {
        share
    } else {
        track
    };
    let above: u128 = if scrolled < scrollable {
        scrollable - scrolled
    } else {
        0
    };
    let travel: u128 = track - thumb;
    assert(0 <= above * travel <= 0xffff_ffff_ffff_ffff * 0x1_0000) by (nonlinear_arith)
        requires
            0 <= above <= 0xffff_ffff_ffff_ffff,
            0 <= travel <= 0x1_0000,
    ;
    let top: u128 = above * travel / scrollable;
    assert(thumb == thumb_len(track as int, scrollable as int));
    assert(top == thumb_top(track as int, scrolled as int, scrollable as int));
    let right: u16 = saturating_sum(frame.x, frame.width);
    let bottom: u16 = saturating_sum(area.y, area.height);
    let room: usize = (bottom - area.y) as usize;
    let count: usize = if shown < room {
        shown
    } else {
        room
    };
    let ghost want = scrollbar(
        frame,
        area,
        shown as nat,
        scrolled_rows as int,
        scrollable_rows as int,
    );
    let mut i: usize = 0;
    while i < count
        invariant
            i <= count <= room,
            room == bottom - area.y,
            right == frame.right(),
            right > 0,
            thumb <= 65535,
            top <= 65535,
            want.len() == count,
            forall|k: int|
                0 <= k < count ==> #[trigger] want[k] == (ScrollCell {
                    x: (frame.right() - 1) as u16,
                    y: (area.y + k) as u16,
                    on_thumb: top <= k < top + thumb,
                }),
            r@ =~= want.take(i as int),
        decreases count - i,
    {
        let offset: u128 = i as u128;
        r.push(
            ScrollCell {
                x: right - 1,
                y: area.y + i as u16,
                on_thumb: offset >= top && offset < top + thumb,
            },
        );
        i = i + 1;
    }
    assert(want.take(count as int) =~= want);
    r
}

/// The thumb lies on the track, whatever the place.
pub proof fn lemma_thumb_stays_on_the_track(track: int, scrolled: int, scrollable: int)
    requires
        0 < track <= 65535,
        0 < scrollable,
        0 <= scrolled,
    ensures
        1 <= thumb_len(track, scrollable) <= track,
        0 <= thumb_top(track, scrolled, scrollable),
        thumb_top(track, scrolled, scrollable) + thumb_len(track, scrollable) <= track,
{
    lemma_thumb(track, scrolled, scrollable);
}

// ---------------------------------------------------------------------------
// Links
// ---------------------------------------------------------------------------

/// A link on the screen.
#[derive(Clone, Debug, PartialEq, Eq)]
pub struct HyperlinkPatch {
    pub area: HyperlinkArea,
    pub text: String,
    pub url: String,
}

pub ghost struct PatchView {
    pub area: HyperlinkArea,
    pub text: Seq<char>,
    pub url: Seq<char>,
}

impl View for HyperlinkPatch {
    type V = PatchView;

    open spec fn view(&self) -> PatchView {
        PatchView { area: self.area, text: self.text@, url: self.url@ }
    }
}

/// What a list of links says.
pub open spec fn patch_views(v: Seq<HyperlinkPatch>) -> Seq<PatchView> {
    Seq::new(v.len(), |i: int| v[i]@)
}

/// The columns of a span from `x` on, as far as the area reaches.
pub open spec fn span_room(span: rows::SpanView, area: Area, x: int) -> int {
    document::smaller(
        saturated(width::joined_columns(span.text) as int),
        floored(area.right() - x),
    )
}

/// Whether a span is a link that may be opened and is on the screen.
pub open spec fn linked(span: rows::SpanView, room: int) -> bool {
    &&& room > 0
    &&& span.hyperlink is Some
    &&& markdown::safe_url(span.hyperlink.unwrap())
    &&& forall|i: int| 0 <= i < span.text.len() ==> !text::control(#[trigger] span.text[i])
}

/// The links of a row from span `k` on, which starts in column `x`.
pub open spec fn row_patches(
    spans: Seq<rows::SpanView>,
    k: int,
    area: Area,
    x: int,
    y: int,
) -> Seq<PatchView>
    decreases spans.len() - k,
{
    if k >= spans.len() {
        Seq::empty()
    } else {
        let span = spans[k];
        let room = span_room(span, area, x);
        let here = if linked(span, room) {
            seq![
                PatchView {
                    area: HyperlinkArea { x: x as u16, y: y as u16, width: room as u16 },
                    text: span.text,
                    url: span.hyperlink.unwrap(),
                },
            ]
        } else {
            Seq::empty()
        };
        let next = saturated(x + room);
        if next >= area.right() {
            here
        } else {
            here + row_patches(spans, k + 1, area, next, y)
        }
    }
}

/// The links of the first `n` rows.
pub open spec fn patches_upto(v: Seq<rows::RowView>, area: Area, n: int) -> Seq<PatchView>
    decreases n,
{
    if n <= 0 {
        Seq::empty()
    } else {
        let before = patches_upto(v, area, n - 1);
        let y = area.y + n - 1;
        if y < area.bottom() {
            before + row_patches(v[n - 1].spans, 0, area, area.x as int, y)
        } else {
            before
        }
    }
}

/// Appends the links of one row.
fn push_row_patches(out: &mut Vec<HyperlinkPatch>, row: &VisualRow, area: Area, y: u16)
    ensures
        patch_views(final(out)@) == patch_views(old(out)@) + row_patches(
            row@.spans,
            0,
            area,
            area.x as int,
            y as int,
        ),
{
    let right: u16 = saturating_sum(area.x, area.width);
    let ghost spans = row@.spans;
    let ghost before = patch_views(out@);
    let ghost all = row_patches(spans, 0, area, area.x as int, y as int);
    let mut x: u16 = area.x;
    let mut k: usize = 0;
    while k < row.spans.len()
        invariant
            spans == row@.spans,
            before == patch_views(old(out)@),
            all == row_patches(spans, 0, area, area.x as int, y as int),
            right == area.right(),
            k <= row.spans@.len(),
            patch_views(out@) + row_patches(spans, k as int, area, x as int, y as int) == before
                + all,
        decreases row.spans@.len() - k,
    {
        let ghost so_far = patch_views(out@);
        let ghost span = spans[k as int];
        assert(span == row.spans@[k as int]@);
        let left: u16 = if right < x {
            0
        } else {
            right - x
        };
        let columns: u16 = to_u16(width::str_columns(row.spans[k].text.as_str()));
        let room: u16 = if columns < left {
            columns
        } else {
            left
        };
        let ghost here = if linked(span, room as int) {
            seq![
                PatchView {
                    area: HyperlinkArea { x, y, width: room },
                    text: span.text,
                    url: span.hyperlink.unwrap(),
                },
            ]
        } else {
            Seq::<PatchView>::empty()
        };
        if let Some(url) = &row.spans[k].hyperlink {
            if room > 0 && markdown::is_safe_hyperlink_url(url.as_str())
                && !markdown::holds_control(row.spans[k].text.as_str()) {
                let patch = HyperlinkPatch {
                    area: HyperlinkArea { x, y, width: room },
                    text: row.spans[k].text.clone(),
                    url: url.clone(),
                };
                let ghost view = patch@;
                out.push(patch);
                assert(patch_views(out@) =~= so_far.push(view));
            }
        }
        assert(patch_views(out@) =~= so_far + here);
        let ghost this_x = x as int;
        x = saturating_sum(x, room);
        if x >= right {
            assert(row_patches(spans, k as int, area, this_x, y as int) == here);
            return;
        }
        assert(patch_views(out@) + row_patches(spans, k + 1, area, x as int, y as int) =~= so_far
            + row_patches(spans, k as int, area, this_x, y as int));
        k = k + 1;
    }
    assert(patch_views(out@) + Seq::<PatchView>::empty() =~= patch_views(out@));
}

/// The links on the screen that may be opened.
pub fn hyperlink_patches(shown: &Vec<VisualRow>, area: Area) -> (r: Vec<HyperlinkPatch>)
    ensures
        patch_views(r@) == patches_upto(rows::row_views(shown@), area, shown@.len() as int),
{
    let bottom: u16 = saturating_sum(area.y, area.height);
    let ghost views = rows::row_views(shown@);
    let mut r: Vec<HyperlinkPatch> = Vec::new();
    let mut i: usize = 0;
    assert(patch_views(r@) =~= Seq::<PatchView>::empty());
    while i < shown.len()
        invariant
            views == rows::row_views(shown@),
            bottom == area.bottom(),
            i <= shown@.len(),
            patch_views(r@) == patches_upto(views, area, i as int),
        decreases shown@.len() - i,
    {
        assert(views[i as int] == shown@[i as int]@);
        if i < 65536 && (area.y as u32 + i as u32) < bottom as u32 {
            push_row_patches(&mut r, &shown[i], area, (area.y as u32 + i as u32) as u16);
        }
        i = i + 1;
    }
    r
}

/// What opens a link in the terminal, shows its text and closes it again.
pub open spec fn link_symbol(patch: PatchView) -> Seq<char> {
    "\x1b]8;;"@ + patch.url + "\x07"@ + patch.text + "\x1b]8;;\x07"@
}

pub fn hyperlink_symbol(patch: &HyperlinkPatch) -> (r: String)
    ensures
        r@ == link_symbol(patch@),
{
    let mut r = String::new();
    r.append("\x1b]8;;");
    r.append(patch.url.as_str());
    r.append("\x07");
    r.append(patch.text.as_str());
    r.append("\x1b]8;;\x07");
    assert(r@ =~= link_symbol(patch@));
    r
}

/// A cell of the screen as it was drawn.
#[derive(Clone, Debug, PartialEq, Eq)]
pub struct DrawnCell {
    pub symbol: String,
    pub skip: bool,
}

/// The columns of a drawn cell, one at least.
pub open spec fn cell_columns(cell: DrawnCell) -> int {
    let n = saturated(width::joined_columns(cell.symbol@) as int);
    if n < 1 {
        1
    } else {
        n
    }
}

/// The columns from `x` on, in a row that starts in column `left`, at which a
/// glyph starts that lies in an area. A glyph that starts before the area is
/// left alone, however far it reaches.
pub open spec fn glyphs_from(
    cells: Seq<DrawnCell>,
    left: int,
    area: HyperlinkArea,
    end: int,
    x: int,
) -> Seq<u16>
    decreases 65535 - x,
{
    if x >= end || x - left >= cells.len() || x < left {
        Seq::empty()
    } else {
        let cell = cells[x - left];
        let next = saturated(x + cell_columns(cell));
        let rest = if next > x {
            glyphs_from(cells, left, area, end, next)
        } else {
            Seq::empty()
        };
        let start = if area.x < left { left } else { area.x as int };
        if x < start || cell.skip {
            rest
        } else {
            seq![x as u16] + rest
        }
    }
}

/// Where an area ends on a row of cells.
pub open spec fn area_end(cells: nat, left: int, area: HyperlinkArea) -> int {
    document::smaller(saturated(area.x + area.width), saturated(left + cells))
}

/// The columns at which a glyph has to be drawn again to take a link off it.
pub fn stale_glyphs(cells: &Vec<DrawnCell>, left: u16, area: HyperlinkArea) -> (r: Vec<u16>)
    ensures
        r@ == glyphs_from(
            cells@,
            left as int,
            area,
            area_end(cells@.len(), left as int, area),
            left as int,
        ),
{
    let mut right: u32 = 65535;
    if cells.len() < 65536 && (left as u32 + cells.len() as u32) < right {
        right = left as u32 + cells.len() as u32;
    }
    let reach: u16 = saturating_sum(area.x, area.width);
    let end: u16 = if (reach as u32) < right {
        reach
    } else {
        right as u16
    };
    let start: u16 = if area.x < left {
        left
    } else {
        area.x
    };
    assert(end == area_end(cells@.len(), left as int, area));
    let ghost all = glyphs_from(cells@, left as int, area, end as int, left as int);
    let mut r: Vec<u16> = Vec::new();
    let mut x: u16 = left;
    assert(r@ + all =~= all);
    while x < end && ((x - left) as usize) < cells.len()
        invariant
            left <= x,
            start == if area.x < left { left } else { area.x },
            r@ + glyphs_from(cells@, left as int, area, end as int, x as int) == all,
        decreases 65535 - x,
    {
        let index: usize = (x - left) as usize;
        let columns: u16 = to_u16(width::str_columns(cells[index].symbol.as_str()));
        let step: u16 = if columns < 1 {
            1
        } else {
            columns
        };
        let next: u16 = saturating_sum(x, step);
        let ghost before = r@;
        let ghost rest = glyphs_from(cells@, left as int, area, end as int, next as int);
        if x >= start && !cells[index].skip {
            r.push(x);
        }
        assert(r@ + rest =~= before + glyphs_from(
            cells@,
            left as int,
            area,
            end as int,
            x as int,
        ));
        x = next;
    }
    assert(r@ + Seq::<u16>::empty() =~= r@);
    r
}

}
