//! One turn of the conversation as rows.

use super::rows;
use super::rows::{CellStyle, StyleCursor, VisualRow, VisualSpan};
use super::wrap;
use crate::ansi::build_runs;
use crate::markdown;
use crate::markdown::{HyperlinkRange, MarkdownProjection, NonClickableLinkRange};
use crate::model;
use crate::model::{Delivery, Message, Turn};
use crate::style;
use crate::style::{
    AnsiColor, MessagePresentation, StyleModifiers, StyleRun, StyleState, StyledText,
};
use crate::text;
use crate::text::LineRange;
use crate::width;
use vstd::prelude::*;

verus! {

/// What drawing a turn takes besides the turn: its moments as they are shown,
/// and its answer read as Markdown.
#[derive(Clone, Debug, PartialEq, Eq)]
pub struct TurnInput {
    pub prompt_time: Option<String>,
    pub answer_time: Option<String>,
    pub answer_markdown: MarkdownProjection,
}

pub ghost struct InputView {
    pub prompt_time: Option<Seq<char>>,
    pub answer_time: Option<Seq<char>>,
    pub answer_markdown: markdown::ProjectionView,
}

impl View for TurnInput {
    type V = InputView;

    open spec fn view(&self) -> InputView {
        InputView {
            prompt_time: text::optional(self.prompt_time),
            answer_time: text::optional(self.answer_time),
            answer_markdown: self.answer_markdown@,
        }
    }
}

// ---------------------------------------------------------------------------
// Time stamps
// ---------------------------------------------------------------------------

/// How many characters of a text fit, where the first `i` take `used` columns.
pub open spec fn clip_len(s: Seq<char>, width: nat, i: int, used: nat) -> int
    decreases s.len() - i,
{
    if i >= s.len() {
        i
    } else {
        let cell = width::cell_width(s[i]);
        if cell > 0 && used + cell > width {
            i
        } else {
            clip_len(s, width, i + 1, used + cell)
        }
    }
}

/// As much of a text as fits into some columns.
pub open spec fn clipped(s: Seq<char>, width: nat) -> Seq<char> {
    s.take(clip_len(s, width, 0, 0))
}

pub fn clip_to_width(s: &str, width: usize) -> (r: String)
    ensures
        r@ == clipped(s@, width as nat),
{
    let chars: Vec<char> = text::chars_of(s);
    let total: usize = text::byte_count(s);
    let mut i: usize = 0;
    let mut used: usize = 0;
    while i < chars.len()
        invariant
            chars@ == s@,
            total == text::byte_len(s@),
            i <= chars@.len(),
            used <= text::byte_at(s@, i as int),
            clip_len(s@, width as nat, i as int, used as nat) == clip_len(s@, width as nat, 0, 0),
        decreases chars@.len() - i,
    {
        proof {
            text::lemma_byte_at_step(s@, i as int);
            text::lemma_byte_at_monotone(s@, i + 1, s@.len() as int);
        }
        let cell: usize = width::width_of(chars[i]);
        if cell > 0 && used + cell > width {
            let r: String = text::string_between(&chars, 0, i);
            assert(r@ =~= s@.take(i as int));
            return r;
        }
        used = used + cell;
        i = i + 1;
    }
    let r: String = text::string_between(&chars, 0, i);
    assert(r@ =~= s@.take(i as int));
    r
}

/// The style of a time stamp.
pub open spec fn timestamp_style(dim: bool) -> CellStyle {
    CellStyle {
        foreground: Some(AnsiColor::BrightBlack),
        background: None,
        modifiers: StyleModifiers { dim, ..style::no_modifiers() },
    }
}

pub open spec fn spaces(n: nat) -> Seq<char> {
    Seq::new(n, |i: int| ' ')
}

/// The columns left of a width after a margin.
pub open spec fn less(width: nat, margin: nat) -> nat {
    if width < margin {
        0
    } else {
        (width - margin) as nat
    }
}

/// The row of a time stamp. Where none can be shown it is bare.
pub open spec fn timestamp_row(
    time: Option<Seq<char>>,
    fill: Option<CellStyle>,
    width: nat,
    dim: bool,
    left_padding: nat,
) -> rows::RowView {
    let shown = match time {
        Some(t) => clipped(t, less(width, left_padding)),
        None => Seq::empty(),
    };
    if shown.len() == 0 {
        rows::bare_row(fill)
    } else {
        rows::RowView {
            spans: seq![
                rows::SpanView {
                    text: spaces(left_padding) + shown,
                    style: timestamp_style(dim),
                    hyperlink: None,
                },
            ],
            fill,
        }
    }
}

fn filled_timestamp_row(
    time: &Option<String>,
    fill: Option<CellStyle>,
    width: usize,
    dim: bool,
    left_padding: usize,
) -> (r: VisualRow)
    ensures
        r@ == timestamp_row(text::optional(*time), fill, width as nat, dim, left_padding as nat),
{
    let shown: String = match time {
        Some(t) => {
            let room: usize = if width < left_padding {
                0
            } else {
                width - left_padding
            };
            clip_to_width(t.as_str(), room)
        },
        None => String::new(),
    };
    if text::chars_of(shown.as_str()).len() == 0 {
        return VisualRow::empty(fill);
    }
    let mut padded = String::new();
    let mut i: usize = 0;
    assert(padded@ =~= spaces(0));
    while i < left_padding
        invariant
            i <= left_padding,
            padded@ == spaces(i as nat),
        decreases left_padding - i,
    {
        padded.push(' ');
        i = i + 1;
        assert(padded@ =~= spaces(i as nat));
    }
    padded.append(shown.as_str());
    let span = VisualSpan {
        text: padded,
        style: CellStyle {
            foreground: Some(AnsiColor::BrightBlack),
            background: None,
            modifiers: StyleModifiers {
                bold: false,
                dim,
                italic: false,
                underline: false,
                reverse: false,
            },
        },
        hyperlink: None,
    };
    let ghost view = span@;
    let mut spans: Vec<VisualSpan> = Vec::new();
    spans.push(span);
    assert(rows::span_views(spans@) =~= seq![view]);
    VisualRow { spans, fill }
}

// ---------------------------------------------------------------------------
// Prompts
// ---------------------------------------------------------------------------

/// The band behind a prompt.
pub open spec fn prompt_band() -> CellStyle {
    CellStyle {
        foreground: Some(AnsiColor::Rgb(56, 58, 66)),
        background: Some(AnsiColor::Rgb(229, 229, 230)),
        modifiers: style::no_modifiers(),
    }
}

pub fn prompt_fill() -> (r: Option<CellStyle>)
    ensures
        r == Some(prompt_band()),
{
    Some(
        CellStyle {
            foreground: Some(AnsiColor::Rgb(56, 58, 66)),
            background: Some(AnsiColor::Rgb(229, 229, 230)),
            modifiers: StyleModifiers::default(),
        },
    )
}

/// Prompt text stops one column short of its own band. The last column belongs
/// to the scroll indicator.
pub open spec fn prompt_columns(width: nat) -> nat {
    wrap::at_least_one(less(width, 1))
}

fn prompt_text_width(width: usize) -> (r: usize)
    ensures
        r == prompt_columns(width as nat),
{
    if width < 2 {
        1
    } else {
        width - 1
    }
}

/// The line that stands for an image.
pub open spec fn image_line(index: int, display: Seq<char>) -> Seq<char> {
    "[Image #"@ + text::decimal_text((index + 1) as nat) + "] "@ + display
}

/// The lines that stand for the first `n` images.
pub open spec fn image_lines(attachments: Seq<model::AttachmentView>, n: int) -> Seq<Seq<char>> {
    Seq::new(n as nat, |i: int| image_line(i, attachments[i].display))
}

/// The lines of a text.
pub open spec fn text_lines(s: Seq<char>) -> Seq<Seq<char>> {
    Seq::new(text::pieces(s, '\n').len(), |i: int| text::pieces(s, '\n')[i].of(s))
}

/// The lines of a prompt: its text, its images, and why it was not sent. A
/// prompt of images alone has no line of text.
pub open spec fn prompt_lines(
    message: model::MessageView,
    delivery: model::DeliveryView,
) -> Seq<Seq<char>> {
    let images = image_lines(message.attachments, message.attachments.len() as int);
    let lines = if message.text.len() == 0 && message.attachments.len() > 0 {
        images
    } else {
        text_lines(message.text) + images
    };
    match delivery {
        model::DeliveryView::Failed { reason } => lines.push("not sent: "@ + reason),
        _ => lines,
    }
}

fn image_text(index: usize, display: &str) -> (r: String)
    requires
        index < usize::MAX,
    ensures
        r@ == image_line(index as int, display@),
{
    let mut r = String::new();
    r.append("[Image #");
    let number: String = text::number_text(index as u64 + 1);
    r.append(number.as_str());
    r.append("] ");
    r.append(display);
    assert(r@ =~= image_line(index as int, display@));
    r
}

fn prompt_texts(message: &Message, delivery: &Delivery) -> (r: Vec<String>)
    ensures
        text::texts(r@) == prompt_lines(message@, delivery@),
{
    let chars: Vec<char> = text::chars_of(message.text.as_str());
    let mut r: Vec<String> = Vec::new();
    assert(text::texts(r@) =~= Seq::<Seq<char>>::empty());
    if !(chars.len() == 0 && message.attachments.len() > 0) {
        let parts: Vec<LineRange> = text::split_ranges(&chars, '\n');
        let mut i: usize = 0;
        while i < parts.len()
            invariant
                chars@ == message.text@,
                parts@ == text::pieces(message.text@, '\n'),
                forall|k: int| 0 <= k < parts@.len() ==> (#[trigger] parts@[k]).within(chars@),
                i <= parts@.len(),
                text::texts(r@) =~= text_lines(message.text@).take(i as int),
            decreases parts@.len() - i,
        {
            let ghost so_far = text::texts(r@);
            let line: String = text::string_between(&chars, parts[i].start, parts[i].end);
            let ghost shown = line@;
            assert(shown == text_lines(message.text@)[i as int]);
            r.push(line);
            assert(text::texts(r@) =~= so_far.push(shown));
            i = i + 1;
        }
    }
    let ghost before = text::texts(r@);
    proof {
        if message@.text.len() == 0 && message@.attachments.len() > 0 {
            assert(before =~= Seq::<Seq<char>>::empty());
        } else {
            assert(before =~= text_lines(message.text@));
        }
    }
    let mut k: usize = 0;
    assert(before + image_lines(message@.attachments, 0) =~= before);
    while k < message.attachments.len()
        invariant
            k <= message.attachments@.len(),
            text::texts(r@) == before + image_lines(message@.attachments, k as int),
        decreases message.attachments@.len() - k,
    {
        let ghost so_far = text::texts(r@);
        let line: String = image_text(k, message.attachments[k].display.as_str());
        let ghost shown = line@;
        assert(shown == image_line(k as int, message@.attachments[k as int].display));
        r.push(line);
        assert(text::texts(r@) =~= so_far.push(shown));
        assert(text::texts(r@) =~= before + image_lines(message@.attachments, k + 1));
        k = k + 1;
    }
    let ghost lines = text::texts(r@);
    proof {
        if message@.text.len() == 0 && message@.attachments.len() > 0 {
            assert(lines =~= image_lines(message@.attachments, k as int));
        }
    }
    if let Delivery::Failed { reason } = delivery {
        let mut line = String::new();
        line.append("not sent: ");
        line.append(reason.as_str());
        let ghost shown = line@;
        assert(shown =~= "not sent: "@ + reason@);
        r.push(line);
        assert(text::texts(r@) =~= lines.push(shown));
    }
    r
}

/// Rows with a fill of their own.
pub open spec fn with_fill(v: Seq<rows::RowView>, fill: Option<CellStyle>) -> Seq<rows::RowView> {
    Seq::new(v.len(), |i: int| rows::RowView { spans: v[i].spans, fill })
}

/// Text without any style.
pub open spec fn unstyled(s: Seq<char>) -> style::StyledView {
    style::StyledView { text: s, runs: Seq::empty() }
}

/// The rows of the first `n` lines of a prompt.
pub open spec fn prompt_rows(lines: Seq<Seq<char>>, width: nat, n: int) -> Seq<rows::RowView>
    decreases n,
{
    if n <= 0 {
        Seq::empty()
    } else {
        prompt_rows(lines, width, n - 1) + with_fill(
            rows::styled_rows(unstyled(lines[n - 1]), Seq::empty(), prompt_columns(width)),
            Some(prompt_band()),
        )
    }
}

/// Appends the rows of one line, on a band.
fn push_styled_rows(
    out: &mut Vec<VisualRow>,
    source: &StyledText,
    fill: Option<CellStyle>,
    width: usize,
)
    ensures
        rows::row_views(final(out)@) == rows::row_views(old(out)@) + with_fill(
            rows::styled_rows(source@, Seq::empty(), width as nat),
            fill,
        ),
{
    let ghost before = rows::row_views(out@);
    let wrapped: Vec<VisualRow> = rows::wrap_styled(source, width);
    let ghost all = with_fill(rows::row_views(wrapped@), fill);
    let mut i: usize = 0;
    assert(before + all.take(0) =~= before);
    while i < wrapped.len()
        invariant
            i <= wrapped@.len(),
            all == with_fill(rows::row_views(wrapped@), fill),
            rows::row_views(out@) == before + all.take(i as int),
        decreases wrapped@.len() - i,
    {
        let ghost so_far = rows::row_views(out@);
        let mut row: VisualRow = wrapped[i].copied();
        row.fill = fill;
        let ghost view = row@;
        assert(view == all[i as int]);
        out.push(row);
        assert(rows::row_views(out@) =~= so_far.push(view));
        assert(rows::row_views(out@) =~= before + all.take(i + 1));
        i = i + 1;
    }
    assert(all.take(all.len() as int) =~= all);
}

// ---------------------------------------------------------------------------
// Answers
// ---------------------------------------------------------------------------

/// Whether a byte lies in one of the ranges, by the first that ends behind it.
pub open spec fn range_holds(ranges: Seq<NonClickableLinkRange>, byte: int, k: int) -> bool
    decreases ranges.len() - k,
{
    if k >= ranges.len() {
        false
    } else if ranges[k].end_byte <= byte {
        range_holds(ranges, byte, k + 1)
    } else {
        ranges[k].start_byte <= byte
    }
}

/// The style of a character, without its underline where it lies in a link that
/// opens nothing.
pub open spec fn suppressed_style(
    cell: CellStyle,
    ranges: Seq<NonClickableLinkRange>,
    byte: int,
) -> StyleState {
    StyleState {
        foreground: cell.foreground,
        background: cell.background,
        modifiers: if range_holds(ranges, byte, 0) {
            StyleModifiers { underline: false, ..cell.modifiers }
        } else {
            cell.modifiers
        },
    }
}

/// The styles of all characters, without misleading underlines.
pub open spec fn suppressed_styles(
    source: style::StyledView,
    ranges: Seq<NonClickableLinkRange>,
) -> Seq<StyleState> {
    Seq::new(
        source.text.len(),
        |i: int|
            suppressed_style(
                rows::run_style(
                    rows::drawable_runs(source),
                    text::byte_at(source.text, i) as int,
                ),
                ranges,
                text::byte_at(source.text, i) as int,
            ),
    )
}

/// A styled text that underlines no link that opens nothing.
pub open spec fn suppressed(
    source: style::StyledView,
    ranges: Seq<NonClickableLinkRange>,
) -> style::StyledView {
    style::StyledView {
        text: source.text,
        runs: style::runs_of(
            source.text,
            suppressed_styles(source, ranges),
            source.text.len() as int,
        ),
    }
}

proof fn lemma_range_holds(ranges: Seq<NonClickableLinkRange>, byte: int, k: int, m: int)
    requires
        0 <= k <= m <= ranges.len(),
        forall|i: int| k <= i < m ==> (#[trigger] ranges[i]).end_byte <= byte,
    ensures
        range_holds(ranges, byte, k) == range_holds(ranges, byte, m),
    decreases m - k,
{
    if k < m {
        assert(ranges[k].end_byte <= byte);
        lemma_range_holds(ranges, byte, k + 1, m);
    }
}

/// Looks up ranges for bytes that only grow, without starting over.
struct TextRangeCursor {
    index: usize,
}

impl TextRangeCursor {
    fn contains(&mut self, ranges: &Vec<NonClickableLinkRange>, byte: usize) -> (r: bool)
        requires
            old(self).index <= ranges@.len(),
            forall|i: int|
                0 <= i < old(self).index ==> (#[trigger] ranges@[i]).end_byte <= byte,
        ensures
            r == range_holds(ranges@, byte as int, 0),
            final(self).index <= ranges@.len(),
            forall|i: int|
                0 <= i < final(self).index ==> (#[trigger] ranges@[i]).end_byte <= byte,
    {
        while self.index < ranges.len() && byte >= ranges[self.index].end_byte
            invariant
                self.index <= ranges@.len(),
                forall|i: int| 0 <= i < self.index ==> (#[trigger] ranges@[i]).end_byte <= byte,
            decreases ranges@.len() - self.index,
        {
            self.index = self.index + 1;
        }
        proof {
            lemma_range_holds(ranges@, byte as int, 0, self.index as int);
        }
        self.index < ranges.len() && ranges[self.index].start_byte <= byte
    }
}

fn suppress_link_underlines(source: &StyledText, ranges: &Vec<NonClickableLinkRange>) -> (r:
    StyledText)
    ensures
        r@ == suppressed(source@, ranges@),
{
    let runs: Vec<StyleRun> = rows::valid_runs(source);
    let chars: Vec<char> = text::chars_of(source.text.as_str());
    let offsets: Vec<usize> = text::byte_offsets(source.text.as_str(), &chars);
    let ghost s = source.text@;
    let ghost want = suppressed_styles(source@, ranges@);
    let mut styles: StyleCursor = StyleCursor::new();
    let mut hidden: TextRangeCursor = TextRangeCursor { index: 0 };
    let mut states: Vec<StyleState> = Vec::new();
    let mut i: usize = 0;
    while i < chars.len()
        invariant
            s == source.text@,
            chars@ == s,
            runs@ == rows::drawable_runs(source@),
            want == suppressed_styles(source@, ranges@),
            offsets@.len() == s.len() + 1,
            forall|k: int| 0 <= k <= s.len() ==> #[trigger] offsets@[k] == text::byte_at(s, k),
            i <= s.len(),
            states@ =~= want.take(i as int),
            rows::runs_passed(runs@, styles.index as int, text::byte_at(s, i as int) as int),
            hidden.index <= ranges@.len(),
            forall|k: int|
                0 <= k < hidden.index ==> (#[trigger] ranges@[k]).end_byte <= text::byte_at(
                    s,
                    i as int,
                ),
        decreases s.len() - i,
    {
        let byte: usize = offsets[i];
        let cell: CellStyle = styles.style_at(&runs, byte);
        let mut modifiers: StyleModifiers = cell.modifiers;
        if hidden.contains(ranges, byte) {
            modifiers.underline = false;
        }
        states.push(
            StyleState { foreground: cell.foreground, background: cell.background, modifiers },
        );
        proof {
            text::lemma_byte_at_step(s, i as int);
        }
        i = i + 1;
    }
    assert(want.take(s.len() as int) =~= want);
    let built: Vec<StyleRun> = build_runs(source.text.as_str(), &chars, &states);
    StyledText { text: source.text.clone(), runs: built }
}

/// The part of a byte range that lies between two bytes, counted from the
/// first.
pub open spec fn clipped_range(
    from: usize,
    to: usize,
    start: int,
    end: int,
) -> Option<(int, int)> {
    let a = if from < start { start } else { from as int };
    let b = if to < end { to as int } else { end };
    if a < b {
        Some((a - start, b - start))
    } else {
        None
    }
}

/// What the first `n` runs style between two bytes.
pub open spec fn clipped_runs(runs: Seq<StyleRun>, start: int, end: int, n: int) -> Seq<StyleRun>
    decreases n,
{
    if n <= 0 {
        Seq::empty()
    } else {
        let before = clipped_runs(runs, start, end, n - 1);
        let run = runs[n - 1];
        match clipped_range(run.start_byte, run.end_byte, start, end) {
            Some((a, b)) => before.push(style::run_over(a as nat, b as nat, run.style_spec())),
            None => before,
        }
    }
}

/// What the first `n` links open between two bytes.
pub open spec fn clipped_links(
    links: Seq<markdown::LinkView>,
    start: int,
    end: int,
    n: int,
) -> Seq<markdown::LinkView>
    decreases n,
{
    if n <= 0 {
        Seq::empty()
    } else {
        let before = clipped_links(links, start, end, n - 1);
        let link = links[n - 1];
        match clipped_range(link.start_byte, link.end_byte, start, end) {
            Some((a, b)) => before.push(
                markdown::LinkView { start_byte: a as usize, end_byte: b as usize, url: link.url },
            ),
            None => before,
        }
    }
}

/// One line of an answer.
pub ghost struct LineView {
    pub styled: style::StyledView,
    pub hyperlinks: Seq<markdown::LinkView>,
}

/// One line of a styled text with its own runs and links.
pub open spec fn line_of(
    source: style::StyledView,
    links: Seq<markdown::LinkView>,
    piece: LineRange,
) -> LineView {
    let start = text::byte_at(source.text, piece.start as int) as int;
    let end = text::byte_at(source.text, piece.end as int) as int;
    LineView {
        styled: style::StyledView {
            text: piece.of(source.text),
            runs: clipped_runs(source.runs, start, end, source.runs.len() as int),
        },
        hyperlinks: clipped_links(links, start, end, links.len() as int),
    }
}

/// The lines of a styled text.
pub open spec fn lines_of(
    source: style::StyledView,
    links: Seq<markdown::LinkView>,
) -> Seq<LineView> {
    Seq::new(
        text::pieces(source.text, '\n').len(),
        |i: int| line_of(source, links, text::pieces(source.text, '\n')[i]),
    )
}

pub struct AnswerLine {
    pub styled: StyledText,
    pub hyperlinks: Vec<HyperlinkRange>,
}

impl View for AnswerLine {
    type V = LineView;

    open spec fn view(&self) -> LineView {
        LineView { styled: self.styled@, hyperlinks: markdown::link_views(self.hyperlinks@) }
    }
}

/// What a list of lines says.
pub open spec fn line_views(v: Seq<AnswerLine>) -> Seq<LineView> {
    Seq::new(v.len(), |i: int| v[i]@)
}

fn clip_runs(runs: &Vec<StyleRun>, start: usize, end: usize) -> (r: Vec<StyleRun>)
    ensures
        r@ == clipped_runs(runs@, start as int, end as int, runs@.len() as int),
{
    let mut r: Vec<StyleRun> = Vec::new();
    let mut i: usize = 0;
    while i < runs.len()
        invariant
            i <= runs@.len(),
            r@ == clipped_runs(runs@, start as int, end as int, i as int),
        decreases runs@.len() - i,
    {
        let run: StyleRun = runs[i];
        let from: usize = if run.start_byte < start {
            start
        } else {
            run.start_byte
        };
        let to: usize = if run.end_byte < end {
            run.end_byte
        } else {
            end
        };
        if from < to {
            r.push(
                StyleRun {
                    start_byte: from - start,
                    end_byte: to - start,
                    foreground: run.foreground,
                    background: run.background,
                    modifiers: run.modifiers,
                },
            );
        }
        i = i + 1;
    }
    r
}

fn clip_links(links: &Vec<HyperlinkRange>, start: usize, end: usize) -> (r: Vec<HyperlinkRange>)
    ensures
        markdown::link_views(r@) == clipped_links(
            markdown::link_views(links@),
            start as int,
            end as int,
            links@.len() as int,
        ),
{
    let mut r: Vec<HyperlinkRange> = Vec::new();
    let ghost all = markdown::link_views(links@);
    let mut i: usize = 0;
    while i < links.len()
        invariant
            i <= links@.len(),
            all == markdown::link_views(links@),
            markdown::link_views(r@) =~= clipped_links(all, start as int, end as int, i as int),
        decreases links@.len() - i,
    {
        let from: usize = if links[i].start_byte < start {
            start
        } else {
            links[i].start_byte
        };
        let to: usize = if links[i].end_byte < end {
            links[i].end_byte
        } else {
            end
        };
        assert(all[i as int] == links@[i as int]@);
        if from < to {
            let ghost before = markdown::link_views(r@);
            let link = HyperlinkRange {
                start_byte: from - start,
                end_byte: to - start,
                url: links[i].url.clone(),
            };
            let ghost view = link@;
            r.push(link);
            assert(markdown::link_views(r@) =~= before.push(view));
        }
        i = i + 1;
    }
    r
}

fn split_answer_lines(source: &StyledText, hyperlinks: &Vec<HyperlinkRange>) -> (r: Vec<AnswerLine>)
    ensures
        line_views(r@) == lines_of(source@, markdown::link_views(hyperlinks@)),
{
    let chars: Vec<char> = text::chars_of(source.text.as_str());
    let offsets: Vec<usize> = text::byte_offsets(source.text.as_str(), &chars);
    let pieces: Vec<LineRange> = text::split_ranges(&chars, '\n');
    let ghost links = markdown::link_views(hyperlinks@);
    let ghost want = lines_of(source@, links);
    let mut r: Vec<AnswerLine> = Vec::new();
    let mut i: usize = 0;
    while i < pieces.len()
        invariant
            chars@ == source.text@,
            pieces@ == text::pieces(source.text@, '\n'),
            links == markdown::link_views(hyperlinks@),
            want == lines_of(source@, links),
            forall|k: int| 0 <= k < pieces@.len() ==> (#[trigger] pieces@[k]).within(chars@),
            offsets@.len() == chars@.len() + 1,
            forall|k: int|
                0 <= k <= chars@.len() ==> #[trigger] offsets@[k] == text::byte_at(chars@, k),
            i <= pieces@.len(),
            line_views(r@) =~= want.take(i as int),
        decreases pieces@.len() - i,
    {
        let piece: LineRange = pieces[i];
        let start: usize = offsets[piece.start];
        let end: usize = offsets[piece.end];
        let line = AnswerLine {
            styled: StyledText {
                text: text::string_between(&chars, piece.start, piece.end),
                runs: clip_runs(&source.runs, start, end),
            },
            hyperlinks: clip_links(hyperlinks, start, end),
        };
        assert(line@ == want[i as int]);
        let ghost so_far = line_views(r@);
        r.push(line);
        assert(line_views(r@) =~= so_far.push(want[i as int]));
        i = i + 1;
    }
    assert(want.take(want.len() as int) =~= want);
    r
}

/// What of an answer is drawn, and the links in it. Native styles are drawn as
/// they are, with the links of the Markdown where the two read alike.
pub open spec fn answer_source(
    message: model::MessageView,
    projection: markdown::ProjectionView,
) -> LineView {
    match message.presentation {
        style::PresentationView::NativeAnsi(styled) => if styled.text == projection.styled.text {
            LineView {
                styled: suppressed(styled, projection.non_clickable_links),
                hyperlinks: projection.hyperlinks,
            }
        } else {
            LineView { styled, hyperlinks: Seq::empty() }
        },
        style::PresentationView::MarkdownFallback => LineView {
            styled: projection.styled,
            hyperlinks: projection.hyperlinks,
        },
        style::PresentationView::Plain => LineView {
            styled: unstyled(message.text),
            hyperlinks: Seq::empty(),
        },
    }
}

/// The lines of an answer.
pub open spec fn answer_lines(
    message: model::MessageView,
    projection: markdown::ProjectionView,
) -> Seq<LineView> {
    let source = answer_source(message, projection);
    lines_of(source.styled, source.hyperlinks)
}

fn plain_styled(s: &str) -> (r: StyledText)
    ensures
        r@ == unstyled(s@),
{
    StyledText { text: s.to_owned(), runs: Vec::new() }
}

fn answer_lines_of(message: &Message, projection: &MarkdownProjection) -> (r: Vec<AnswerLine>)
    ensures
        line_views(r@) == answer_lines(message@, projection@),
{
    let none: Vec<HyperlinkRange> = Vec::new();
    assert(markdown::link_views(none@) =~= Seq::<markdown::LinkView>::empty());
    match &message.presentation {
        MessagePresentation::NativeAnsi(styled) => {
            if text::same_text(styled.text.as_str(), projection.styled.text.as_str()) {
                let source: StyledText = suppress_link_underlines(
                    styled,
                    &projection.non_clickable_links,
                );
                split_answer_lines(&source, &projection.hyperlinks)
            } else {
                split_answer_lines(styled, &none)
            }
        },
        MessagePresentation::MarkdownFallback => split_answer_lines(
            &projection.styled,
            &projection.hyperlinks,
        ),
        MessagePresentation::Plain => {
            let source: StyledText = plain_styled(message.text.as_str());
            split_answer_lines(&source, &none)
        },
    }
}

/// A span in the color of answers, where it has none of its own.
pub open spec fn whitened_span(span: rows::SpanView) -> rows::SpanView {
    if span.style.foreground is None {
        rows::SpanView {
            style: CellStyle { foreground: Some(AnsiColor::BrightWhite), ..span.style },
            ..span
        }
    } else {
        span
    }
}

/// A row in the color of answers.
pub open spec fn whitened(row: rows::RowView) -> rows::RowView {
    rows::RowView {
        spans: Seq::new(row.spans.len(), |i: int| whitened_span(row.spans[i])),
        fill: row.fill,
    }
}

/// The rows of one line of an answer.
pub open spec fn answer_line_rows(line: LineView, width: nat) -> Seq<rows::RowView> {
    let wrapped = rows::styled_rows(line.styled, line.hyperlinks, width);
    Seq::new(wrapped.len(), |i: int| whitened(wrapped[i]))
}

/// The rows of the first `n` lines of an answer.
pub open spec fn answer_rows(lines: Seq<LineView>, width: nat, n: int) -> Seq<rows::RowView>
    decreases n,
{
    if n <= 0 {
        Seq::empty()
    } else {
        answer_rows(lines, width, n - 1) + answer_line_rows(lines[n - 1], width)
    }
}

fn whiten(row: &VisualRow) -> (r: VisualRow)
    ensures
        r@ == whitened(row@),
{
    let mut spans: Vec<VisualSpan> = Vec::new();
    let ghost want = whitened(row@).spans;
    let mut i: usize = 0;
    while i < row.spans.len()
        invariant
            i <= row.spans@.len(),
            want == whitened(row@).spans,
            rows::span_views(spans@) =~= want.take(i as int),
        decreases row.spans@.len() - i,
    {
        let mut span: VisualSpan = row.spans[i].copied();
        if span.style.foreground.is_none() {
            span.style.foreground = Some(AnsiColor::BrightWhite);
        }
        assert(span@ == want[i as int]);
        let ghost so_far = rows::span_views(spans@);
        spans.push(span);
        assert(rows::span_views(spans@) =~= so_far.push(want[i as int]));
        i = i + 1;
    }
    assert(want.take(want.len() as int) =~= want);
    VisualRow { spans, fill: row.fill }
}

fn push_answer_rows(out: &mut Vec<VisualRow>, line: &AnswerLine, width: usize)
    ensures
        rows::row_views(final(out)@) == rows::row_views(old(out)@) + answer_line_rows(
            line@,
            width as nat,
        ),
{
    let ghost before = rows::row_views(out@);
    let wrapped: Vec<VisualRow> = rows::wrap_styled_with_hyperlinks(
        &line.styled,
        &line.hyperlinks,
        width,
    );
    let ghost all = answer_line_rows(line@, width as nat);
    let mut i: usize = 0;
    assert(before + all.take(0) =~= before);
    while i < wrapped.len()
        invariant
            i <= wrapped@.len(),
            all == answer_line_rows(line@, width as nat),
            rows::row_views(wrapped@) == rows::styled_rows(
                line@.styled,
                line@.hyperlinks,
                width as nat,
            ),
            rows::row_views(out@) == before + all.take(i as int),
        decreases wrapped@.len() - i,
    {
        let ghost so_far = rows::row_views(out@);
        assert(rows::row_views(wrapped@)[i as int] == wrapped@[i as int]@);
        let row: VisualRow = whiten(&wrapped[i]);
        let ghost view = row@;
        assert(view == all[i as int]);
        out.push(row);
        assert(rows::row_views(out@) =~= so_far.push(view));
        assert(rows::row_views(out@) =~= before + all.take(i + 1));
        i = i + 1;
    }
    assert(all.take(all.len() as int) =~= all);
}

// ---------------------------------------------------------------------------
// Turns
// ---------------------------------------------------------------------------

/// The rows of a turn, and how many of them hold the text of its prompt.
pub ghost struct BlockView {
    pub rows: Seq<rows::RowView>,
    pub prompt_rows: nat,
}

/// The rows of the prompt of a turn.
pub open spec fn turn_prompt_rows(turn: model::TurnView, width: nat) -> Seq<rows::RowView> {
    let lines = prompt_lines(turn.prompt, turn.delivery);
    prompt_rows(lines, width, lines.len() as int)
}

/// The rows of the answer of a turn, the time stamp first where there is one.
pub open spec fn turn_answer_rows(
    turn: model::TurnView,
    input: InputView,
    width: nat,
) -> Seq<rows::RowView> {
    match turn.final_answer {
        None => Seq::empty(),
        Some(answer) => {
            let lines = answer_lines(answer, input.answer_markdown);
            let body = answer_rows(lines, width, lines.len() as int);
            if input.answer_time is Some {
                seq![timestamp_row(input.answer_time, None, width, false, 2)] + body
            } else {
                body
            }
        },
    }
}

/// A turn as rows: the prompt on its band between a row with its time stamp and
/// an empty one, then the answer, then an empty row.
pub open spec fn block(turn: model::TurnView, input: InputView, width: nat) -> BlockView {
    let prompt = turn_prompt_rows(turn, width);
    BlockView {
        rows: (seq![timestamp_row(input.prompt_time, Some(prompt_band()), width, false, 2)]
            + prompt).push(rows::bare_row(Some(prompt_band()))) + turn_answer_rows(turn, input, width)
            + seq![rows::bare_row(None)],
        prompt_rows: prompt.len(),
    }
}

pub fn turn_block(turn: &Turn, input: &TurnInput, width: usize) -> (r: (Vec<VisualRow>, usize))
    ensures
        rows::row_views(r.0@) == block(turn@, input@, width as nat).rows,
        r.1 == block(turn@, input@, width as nat).prompt_rows,
{
    let fill: Option<CellStyle> = prompt_fill();
    let mut out: Vec<VisualRow> = Vec::new();
    let top: VisualRow = filled_timestamp_row(&input.prompt_time, fill, width, false, 2);
    let ghost head = seq![top@];
    out.push(top);
    assert(rows::row_views(out@) =~= head);
    let lines: Vec<String> = prompt_texts(&turn.prompt, &turn.delivery);
    let columns: usize = prompt_text_width(width);
    let ghost texts = prompt_lines(turn@.prompt, turn@.delivery);
    let mut i: usize = 0;
    assert(head + prompt_rows(texts, width as nat, 0) =~= head);
    while i < lines.len()
        invariant
            i <= lines@.len(),
            texts == text::texts(lines@),
            fill == Some(prompt_band()),
            columns == prompt_columns(width as nat),
            rows::row_views(out@) == head + prompt_rows(texts, width as nat, i as int),
        decreases lines@.len() - i,
    {
        let line: StyledText = plain_styled(lines[i].as_str());
        assert(texts[i as int] == lines@[i as int]@);
        push_styled_rows(&mut out, &line, fill, columns);
        i = i + 1;
        assert(rows::row_views(out@) =~= head + prompt_rows(texts, width as nat, i as int));
    }
    let ghost prompt = turn_prompt_rows(turn@, width as nat);
    assert(rows::row_views(out@) == head + prompt);
    assert(rows::row_views(out@).len() == out@.len());
    let count: usize = out.len() - 1;
    let under: VisualRow = VisualRow::empty(fill);
    out.push(under);
    let ghost band = (head + prompt).push(rows::bare_row(Some(prompt_band())));
    assert(rows::row_views(out@) =~= band);
    if let Some(answer) = &turn.final_answer {
        if input.answer_time.is_some() {
            let stamp: VisualRow = filled_timestamp_row(&input.answer_time, None, width, false, 2);
            let ghost view = stamp@;
            out.push(stamp);
            assert(rows::row_views(out@) =~= band + seq![view]);
        }
        let ghost before = rows::row_views(out@);
        let body: Vec<AnswerLine> = answer_lines_of(answer, &input.answer_markdown);
        let ghost views = answer_lines(answer@, input@.answer_markdown);
        let mut k: usize = 0;
        assert(before + answer_rows(views, width as nat, 0) =~= before);
        while k < body.len()
            invariant
                k <= body@.len(),
                views == line_views(body@),
                rows::row_views(out@) == before + answer_rows(views, width as nat, k as int),
            decreases body@.len() - k,
        {
            assert(views[k as int] == body@[k as int]@);
            push_answer_rows(&mut out, &body[k], width);
            k = k + 1;
            assert(rows::row_views(out@) =~= before + answer_rows(views, width as nat, k as int));
        }
    }
    assert(rows::row_views(out@) =~= band + turn_answer_rows(turn@, input@, width as nat));
    let ghost all = rows::row_views(out@);
    let last: VisualRow = VisualRow::empty(None);
    out.push(last);
    assert(rows::row_views(out@) =~= all + seq![rows::bare_row(None)]);
    (out, count)
}

// ---------------------------------------------------------------------------
// What holds of every turn
// ---------------------------------------------------------------------------

/// Whether some rows are those of a turn whose prompt takes `prompt_rows` of
/// them: the prompt and the row above and below it on the band, the rest without
/// one, and the last row empty.
pub open spec fn turn_shaped(v: Seq<rows::RowView>, prompt_rows: int) -> bool {
    &&& 1 <= prompt_rows
    &&& prompt_rows + 3 <= v.len()
    &&& forall|i: int| 0 <= i < prompt_rows + 2 ==> (#[trigger] v[i]).fill == Some(prompt_band())
    &&& forall|i: int| prompt_rows + 2 <= i < v.len() ==> (#[trigger] v[i]).fill is None
    &&& v[prompt_rows + 1] == rows::bare_row(Some(prompt_band()))
    &&& v.last() == rows::bare_row(None)
}

proof fn lemma_prompt_rows_on_the_band(lines: Seq<Seq<char>>, width: nat, n: int)
    ensures
        n > 0 ==> prompt_rows(lines, width, n).len() > 0,
        forall|i: int|
            0 <= i < prompt_rows(lines, width, n).len() ==> (#[trigger] prompt_rows(
                lines,
                width,
                n,
            )[i]).fill == Some(prompt_band()),
    decreases n,
{
    if n > 0 {
        lemma_prompt_rows_on_the_band(lines, width, n - 1);
        let before = prompt_rows(lines, width, n - 1);
        let line = unstyled(lines[n - 1]);
        rows::lemma_styled_rows_are_unfilled(line, Seq::empty(), prompt_columns(width));
        let added = with_fill(
            rows::styled_rows(line, Seq::empty(), prompt_columns(width)),
            Some(prompt_band()),
        );
        let here = prompt_rows(lines, width, n);
        assert forall|i: int| 0 <= i < here.len() implies (#[trigger] here[i]).fill == Some(
            prompt_band(),
        ) by {
            if i < before.len() {
                assert(here[i] == before[i]);
            } else {
                assert(here[i] == added[i - before.len()]);
            }
        }
    }
}

proof fn lemma_answer_rows_off_the_band(lines: Seq<LineView>, width: nat, n: int)
    ensures
        forall|i: int|
            0 <= i < answer_rows(lines, width, n).len() ==> (#[trigger] answer_rows(
                lines,
                width,
                n,
            )[i]).fill is None,
    decreases n,
{
    if n > 0 {
        lemma_answer_rows_off_the_band(lines, width, n - 1);
        let before = answer_rows(lines, width, n - 1);
        let line = lines[n - 1];
        rows::lemma_styled_rows_are_unfilled(line.styled, line.hyperlinks, width);
        let wrapped = rows::styled_rows(line.styled, line.hyperlinks, width);
        let added = answer_line_rows(line, width);
        let here = answer_rows(lines, width, n);
        assert forall|i: int| 0 <= i < here.len() implies (#[trigger] here[i]).fill is None by {
            if i < before.len() {
                assert(here[i] == before[i]);
            } else {
                assert(here[i] == added[i - before.len()]);
                assert(added[i - before.len()] == whitened(wrapped[i - before.len()]));
            }
        }
    }
}

/// A turn stands on the band of its prompt: the row with the time stamp, the
/// rows of the prompt, one at least, and an empty row. Its answer stands below
/// without a band, and an empty row ends it.
pub proof fn lemma_rows_of_a_turn(turn: model::TurnView, input: InputView, width: nat)
    ensures
        turn_shaped(
            block(turn, input, width).rows,
            block(turn, input, width).prompt_rows as int,
        ),
{
    let lines = prompt_lines(turn.prompt, turn.delivery);
    assert(lines.len() > 0);
    lemma_prompt_rows_on_the_band(lines, width, lines.len() as int);
    let prompt = turn_prompt_rows(turn, width);
    let answer = turn_answer_rows(turn, input, width);
    assert forall|i: int| 0 <= i < answer.len() implies (#[trigger] answer[i]).fill is None by {
        if let Some(message) = turn.final_answer {
            let views = answer_lines(message, input.answer_markdown);
            let body = answer_rows(views, width, views.len() as int);
            lemma_answer_rows_off_the_band(views, width, views.len() as int);
            if input.answer_time is Some {
                if i > 0 {
                    assert(answer[i] == body[i - 1]);
                }
            } else {
                assert(answer[i] == body[i]);
            }
        }
    }
    let all = block(turn, input, width).rows;
    let p = prompt.len() as int;
    assert forall|i: int| 0 <= i < p + 2 implies (#[trigger] all[i]).fill == Some(
        prompt_band(),
    ) by {
        if 0 < i <= p {
            assert(all[i] == prompt[i - 1]);
        }
    }
    assert forall|i: int| p + 2 <= i < all.len() implies (#[trigger] all[i]).fill is None by {
        if i < all.len() - 1 {
            assert(all[i] == answer[i - p - 2]);
        }
    }
}

proof fn lemma_clip_len(s: Seq<char>, width: nat, i: int, used: nat)
    requires
        0 <= i <= s.len(),
        used == wrap::span_width(s, 0, i),
        used <= width,
    ensures
        ({
            let n = clip_len(s, width, i, used);
            &&& i <= n <= s.len()
            &&& wrap::span_width(s, 0, n) <= width
            &&& n < s.len() ==> wrap::span_width(s, 0, n + 1) > width
        }),
    decreases s.len() - i,
{
    if i < s.len() {
        let cell = width::cell_width(s[i]);
        if !(cell > 0 && used + cell > width) {
            lemma_clip_len(s, width, i + 1, used + cell);
        }
    }
}

/// What is cut to a width is the beginning of the text: as much of it as fits and no
/// more.
pub proof fn lemma_clipping_keeps_what_fits(s: Seq<char>, width: nat)
    ensures
        ({
            let n = clipped(s, width).len() as int;
            &&& n <= s.len()
            &&& clipped(s, width) == s.take(n)
            &&& wrap::text_width(clipped(s, width)) <= width
            &&& n < s.len() ==> wrap::span_width(s, 0, n + 1) > width
        }),
{
    lemma_clip_len(s, width, 0, 0);
    let n = clip_len(s, width, 0, 0);
    wrap::lemma_span_width_of_part(s, s.take(n), 0, 0, n);
}

/// A time stamp stands alone on its row, indented, in a color of its own and as far as it
/// fits. Where there is nothing to show the row is empty.
pub proof fn lemma_time_stamp_is_shown(
    time: Option<Seq<char>>,
    fill: Option<CellStyle>,
    width: nat,
    left_padding: nat,
)
    ensures
        ({
            let row = timestamp_row(time, fill, width, false, left_padding);
            let room: nat = if width < left_padding {
                0
            } else {
                (width - left_padding) as nat
            };
            &&& row.fill == fill
            &&& time is None ==> row.spans.len() == 0
            &&& time matches Some(t) ==> (clipped(t, room).len() == 0 ==> row.spans.len() == 0) && (
            clipped(t, room).len() > 0 ==> row.spans.len() == 1 && row.spans[0].text == Seq::new(
                left_padding,
                |i: int| ' ',
            ) + clipped(t, room) && row.spans[0].style.foreground == Some(AnsiColor::BrightBlack)
                && row.spans[0].style.background is None && row.spans[0].style.modifiers
                == style::no_modifiers() && row.spans[0].hyperlink is None)
        }),
{
    assert(spaces(left_padding) =~= Seq::new(left_padding, |i: int| ' '));
}

/// The time stamp of a prompt stands on the first row of its turn, and that of an answer
/// on the row above the answer, both two columns in.
pub proof fn lemma_time_stamps_stand_above(turn: model::TurnView, input: InputView, width: nat)
    ensures
        ({
            let all = block(turn, input, width);
            &&& all.rows[0] == timestamp_row(
                input.prompt_time,
                Some(prompt_band()),
                width,
                false,
                2,
            )
            &&& turn.final_answer is Some && input.answer_time is Some
                ==> all.rows[all.prompt_rows as int + 2] == timestamp_row(
                input.answer_time,
                None,
                width,
                false,
                2,
            )
            &&& turn.final_answer is None ==> all.rows.len() == all.prompt_rows + 3
        }),
{
}

}
