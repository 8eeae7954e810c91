//! The rows of a turn read as the turn does, and are drawn as it is.

use super::block;
use super::block::{InputView, LineView};
use super::rows;
use super::rows::{CellStyle, RowView};
use super::wrap;
use crate::markdown;
use crate::model;
use crate::style;
use crate::text;
use vstd::prelude::*;

verus! {

// ---------------------------------------------------------------------------
// What rows read
// ---------------------------------------------------------------------------

/// Whether rows show some lines one below the other: the first line on the rows up
/// to the first cut, the next one on the rows from there up to the next, and so on,
/// each of them whole.
pub open spec fn shown_in_order(
    read: Seq<Seq<char>>,
    lines: Seq<Seq<char>>,
    cuts: Seq<int>,
) -> bool {
    &&& cuts.len() == lines.len() + 1
    &&& cuts[0] == 0
    &&& cuts.last() == read.len()
    &&& forall|k: int|
        0 <= k < lines.len() ==> shown_between(read, #[trigger] lines[k], cuts[k], cuts[k + 1])
}

/// Whether the rows from `from` up to `to`, one at least, show a line.
pub open spec fn shown_between(read: Seq<Seq<char>>, line: Seq<char>, from: int, to: int) -> bool {
    &&& 0 <= from < to <= read.len()
    &&& wrap::joined_rows(read.subrange(from, to)) == wrap::without_feeds(line, line.len() as int)
}

proof fn lemma_one_more_line_shown(
    read: Seq<Seq<char>>,
    lines: Seq<Seq<char>>,
    cuts: Seq<int>,
    more: Seq<Seq<char>>,
    line: Seq<char>,
)
    requires
        shown_in_order(read, lines, cuts),
        more.len() > 0,
        wrap::joined_rows(more) == wrap::without_feeds(line, line.len() as int),
    ensures
        shown_in_order(read + more, lines.push(line), cuts.push((read + more).len() as int)),
{
    let all = read + more;
    let longer = lines.push(line);
    let ends = cuts.push(all.len() as int);
    assert forall|k: int| 0 <= k < longer.len() implies shown_between(
        all,
        #[trigger] longer[k],
        ends[k],
        ends[k + 1],
    ) by {
        if k < lines.len() {
            assert(shown_between(read, lines[k], cuts[k], cuts[k + 1]));
            assert(all.subrange(cuts[k], cuts[k + 1]) =~= read.subrange(cuts[k], cuts[k + 1]));
        } else {
            assert(all.subrange(ends[k], ends[k + 1]) =~= more);
        }
    }
}

proof fn lemma_plain_rows_add_up(a: Seq<RowView>, b: Seq<RowView>)
    ensures
        rows::plain_rows(a + b) == rows::plain_rows(a) + rows::plain_rows(b),
{
    assert(rows::plain_rows(a + b) =~= rows::plain_rows(a) + rows::plain_rows(b));
}

proof fn lemma_whitened_reads_alike(row: RowView)
    ensures
        rows::plain_of(block::whitened(row)) == rows::plain_of(row),
{
    assert(rows::span_texts(block::whitened(row).spans) =~= rows::span_texts(row.spans));
}

proof fn lemma_answer_line_reads(line: LineView, width: nat)
    ensures
        rows::plain_rows(block::answer_line_rows(line, width)) == wrap::wrapped_rows(
            line.styled.text,
            width,
        ),
        block::answer_line_rows(line, width).len() > 0,
{
    let wrapped = rows::styled_rows(line.styled, line.hyperlinks, width);
    let here = block::answer_line_rows(line, width);
    rows::lemma_styled_rows_read_as_plain_rows(line.styled, line.hyperlinks, width);
    rows::lemma_styled_rows_are_unfilled(line.styled, line.hyperlinks, width);
    assert forall|i: int| 0 <= i < here.len() implies rows::plain_of(#[trigger] here[i])
        == rows::plain_of(wrapped[i]) by {
        lemma_whitened_reads_alike(wrapped[i]);
    }
    assert(rows::plain_rows(here) =~= rows::plain_rows(wrapped));
}

/// The lines of a text.
pub open spec fn lines_read(s: Seq<char>) -> Seq<Seq<char>> {
    Seq::new(text::pieces(s, '\n').len(), |k: int| text::pieces(s, '\n')[k].of(s))
}

proof fn lemma_answer_rows_read(
    source: style::StyledView,
    links: Seq<markdown::LinkView>,
    width: nat,
    n: int,
) -> (cuts: Seq<int>)
    requires
        source.text.len() <= usize::MAX,
        0 < n <= text::pieces(source.text, '\n').len(),
    ensures
        ({
            let read = rows::plain_rows(
                block::answer_rows(block::lines_of(source, links), width, n),
            );
            &&& read == wrap::rows_upto(
                source.text,
                wrap::at_least_one(width),
                text::pieces(source.text, '\n')[n - 1].end as int,
            )
            &&& shown_in_order(read, lines_read(source.text).take(n), cuts)
        }),
    decreases n,
{
    let s = source.text;
    let parts = text::pieces(s, '\n');
    let lines = block::lines_of(source, links);
    let part = parts[n - 1];
    let before = block::answer_rows(lines, width, n - 1);
    let here = block::answer_line_rows(lines[n - 1], width);
    let t = part.of(s);
    wrap::lemma_piece_is_a_line(s, n - 1);
    lemma_answer_line_reads(lines[n - 1], width);
    lemma_plain_rows_add_up(before, here);
    wrap::lemma_lines_wrap_one_by_one(
        s,
        wrap::at_least_one(width),
        part.start as int,
        part.end as int,
    );
    wrap::lemma_wrapping_keeps_every_character(t, width);
    let more = rows::plain_rows(here);
    let listed = lines_read(s);
    assert(listed.take(n) =~= listed.take(n - 1).push(t));
    if n == 1 {
        assert(rows::plain_rows(before) =~= Seq::<Seq<char>>::empty());
        assert(listed.take(0) =~= Seq::<Seq<char>>::empty());
        assert(shown_in_order(rows::plain_rows(before), listed.take(0), seq![0]));
        lemma_one_more_line_shown(rows::plain_rows(before), listed.take(0), seq![0], more, t);
        seq![0int].push((rows::plain_rows(before) + more).len() as int)
    } else {
        let cuts = lemma_answer_rows_read(source, links, width, n - 1);
        lemma_one_more_line_shown(rows::plain_rows(before), listed.take(n - 1), cuts, more, t);
        cuts.push((rows::plain_rows(before) + more).len() as int)
    }
}

/// The text of an answer as it is shown: as the pane had it, as its Markdown reads,
/// or as it is.
pub open spec fn answer_text(
    message: model::MessageView,
    projection: markdown::ProjectionView,
) -> Seq<char> {
    match message.presentation {
        style::PresentationView::NativeAnsi(styled) => styled.text,
        style::PresentationView::MarkdownFallback => projection.styled.text,
        style::PresentationView::Plain => message.text,
    }
}

/// The rows of the answer of a turn: all below the band of the prompt, but for the
/// time stamp above the answer and the empty row below it.
pub open spec fn answer_part(turn: model::TurnView, input: InputView, width: nat) -> Seq<RowView> {
    let all = block::block(turn, input, width);
    let stamp: int = if input.answer_time is Some {
        1
    } else {
        0
    };
    all.rows.subrange(all.prompt_rows + 2 + stamp, all.rows.len() - 1)
}

pub(super) proof fn lemma_answer_part(turn: model::TurnView, input: InputView, width: nat)
    requires
        turn.final_answer is Some,
    ensures
        answer_part(turn, input, width) == ({
            let lines = block::answer_lines(turn.final_answer.unwrap(), input.answer_markdown);
            block::answer_rows(lines, width, lines.len() as int)
        }),
{
    let lines = block::answer_lines(turn.final_answer.unwrap(), input.answer_markdown);
    let body = block::answer_rows(lines, width, lines.len() as int);
    let answer = block::turn_answer_rows(turn, input, width);
    if input.answer_time is Some {
        assert(answer.subrange(1, answer.len() as int) =~= body);
    }
    assert(answer_part(turn, input, width) =~= body);
}

/// The rows of an answer read as the answer does. One after the other they are its
/// text without the line feeds; each line takes rows of its own, the first line on
/// top; and they are the rows that the text wraps into.
pub proof fn lemma_answer_reads_down_its_rows(
    turn: model::TurnView,
    input: InputView,
    width: nat,
)
    requires
        turn.final_answer is Some,
        answer_text(turn.final_answer.unwrap(), input.answer_markdown).len() <= usize::MAX,
    ensures
        ({
            let s = answer_text(turn.final_answer.unwrap(), input.answer_markdown);
            let read = rows::plain_rows(answer_part(turn, input, width));
            &&& wrap::joined_rows(read) == wrap::without_feeds(s, s.len() as int)
            &&& exists|cuts: Seq<int>| #[trigger] shown_in_order(read, lines_read(s), cuts)
            &&& read == wrap::wrapped_rows(s, width)
        }),
{
    let message = turn.final_answer.unwrap();
    let s = answer_text(message, input.answer_markdown);
    let source = block::answer_source(message, input.answer_markdown);
    lemma_answer_part(turn, input, width);
    wrap::lemma_wrapping_keeps_every_character(s, width);
    let n = text::pieces(s, '\n').len() as int;
    text::lemma_pieces_within(s, '\n');
    let cuts = lemma_answer_rows_read(source.styled, source.hyperlinks, width, n);
    assert(lines_read(s).take(n) =~= lines_read(s));
    assert(shown_in_order(
        rows::plain_rows(answer_part(turn, input, width)),
        lines_read(s),
        cuts,
    ));
}

proof fn lemma_prompt_line_reads(line: Seq<char>, width: nat)
    ensures
        ({
            let here = block::with_fill(
                rows::styled_rows(block::unstyled(line), Seq::empty(), width),
                Some(block::prompt_band()),
            );
            &&& here.len() > 0
            &&& rows::plain_rows(here) == wrap::wrapped_rows(line, width)
        }),
{
    let wrapped = rows::styled_rows(block::unstyled(line), Seq::empty(), width);
    rows::lemma_styled_rows_read_as_plain_rows(block::unstyled(line), Seq::empty(), width);
    rows::lemma_styled_rows_are_unfilled(block::unstyled(line), Seq::empty(), width);
    assert(rows::plain_rows(block::with_fill(wrapped, Some(block::prompt_band())))
        =~= rows::plain_rows(wrapped));
}

proof fn lemma_prompt_rows_read(lines: Seq<Seq<char>>, width: nat, n: int) -> (cuts: Seq<int>)
    requires
        0 <= n <= lines.len(),
    ensures
        shown_in_order(
            rows::plain_rows(block::prompt_rows(lines, width, n)),
            lines.take(n),
            cuts,
        ),
    decreases n,
{
    if n == 0 {
        assert(rows::plain_rows(block::prompt_rows(lines, width, 0)).len() == 0);
        seq![0]
    } else {
        let cuts = lemma_prompt_rows_read(lines, width, n - 1);
        let before = block::prompt_rows(lines, width, n - 1);
        let line = lines[n - 1];
        let columns = block::prompt_columns(width);
        let here = block::with_fill(
            rows::styled_rows(block::unstyled(line), Seq::empty(), columns),
            Some(block::prompt_band()),
        );
        lemma_prompt_line_reads(line, columns);
        lemma_plain_rows_add_up(before, here);
        wrap::lemma_wrapping_keeps_every_character(line, columns);
        assert(lines.take(n) =~= lines.take(n - 1).push(line));
        let more = rows::plain_rows(here);
        lemma_one_more_line_shown(rows::plain_rows(before), lines.take(n - 1), cuts, more, line);
        cuts.push((rows::plain_rows(before) + more).len() as int)
    }
}

/// Whether these are the lines of a prompt: those of its text, unless it is made of
/// images alone; one for each image, numbered from one on; and last why it was not
/// sent, where it was not.
pub open spec fn lines_of_prompt(turn: model::TurnView, lines: Seq<Seq<char>>) -> bool {
    let said = if turn.prompt.text.len() == 0 && turn.prompt.attachments.len() > 0 {
        Seq::empty()
    } else {
        lines_read(turn.prompt.text)
    };
    let images = turn.prompt.attachments;
    let shown = said.len() + images.len();
    &&& forall|i: int| 0 <= i < said.len() ==> #[trigger] lines[i] == said[i]
    &&& forall|i: int|
        0 <= i < images.len() ==> lines[said.len() + i] == "[Image #"@ + text::decimal_text(
            (i + 1) as nat,
        ) + "] "@ + (#[trigger] images[i]).display
    &&& turn.delivery matches model::DeliveryView::Failed { reason } ==> lines.len() == shown + 1
        && lines.last() == "not sent: "@ + reason
    &&& !(turn.delivery is Failed) ==> lines.len() == shown
}

/// The rows of a prompt show its lines one below the other, each of them whole: its
/// text from the top, its images behind it in their order, and last why it was not
/// sent.
pub proof fn lemma_prompt_reads_down_its_rows(
    turn: model::TurnView,
    input: InputView,
    width: nat,
)
    ensures
        ({
            let all = block::block(turn, input, width);
            exists|lines: Seq<Seq<char>>, cuts: Seq<int>|
                lines_of_prompt(turn, lines) && #[trigger] shown_in_order(
                    rows::plain_rows(all.rows.subrange(1, all.prompt_rows as int + 1)),
                    lines,
                    cuts,
                )
        }),
{
    let all = block::block(turn, input, width);
    let lines = block::prompt_lines(turn.prompt, turn.delivery);
    let n = lines.len() as int;
    let cuts = lemma_prompt_rows_read(lines, width, n);
    assert(lines.take(n) =~= lines);
    let prompt = block::turn_prompt_rows(turn, width);
    assert(all.rows.subrange(1, all.prompt_rows as int + 1) =~= prompt);
    assert(lines_of_prompt(turn, lines));
    assert(shown_in_order(rows::plain_rows(prompt), lines, cuts));
}

/// Some lines, each wrapped by itself, one below the other.
pub open spec fn wrapped_one_by_one(lines: Seq<Seq<char>>, columns: nat, n: int) -> Seq<Seq<char>>
    decreases n,
{
    if n <= 0 {
        Seq::empty()
    } else {
        wrapped_one_by_one(lines, columns, n - 1) + wrap::wrapped_rows(lines[n - 1], columns)
    }
}

/// A width without its last column, one column at least.
pub open spec fn one_column_short(width: nat) -> nat {
    if width < 2 {
        1
    } else {
        (width - 1) as nat
    }
}

proof fn lemma_prompt_rows_wrap(lines: Seq<Seq<char>>, width: nat, n: int)
    requires
        0 <= n <= lines.len(),
    ensures
        rows::plain_rows(block::prompt_rows(lines, width, n)) == wrapped_one_by_one(
            lines,
            block::prompt_columns(width),
            n,
        ),
    decreases n,
{
    if n == 0 {
        assert(rows::plain_rows(block::prompt_rows(lines, width, 0)) =~= Seq::<Seq<char>>::empty());
    } else {
        lemma_prompt_rows_wrap(lines, width, n - 1);
        let columns = block::prompt_columns(width);
        let here = block::with_fill(
            rows::styled_rows(block::unstyled(lines[n - 1]), Seq::empty(), columns),
            Some(block::prompt_band()),
        );
        lemma_prompt_line_reads(lines[n - 1], columns);
        lemma_plain_rows_add_up(block::prompt_rows(lines, width, n - 1), here);
    }
}

/// A prompt is wrapped one column short of the width, so that the last column stays free,
/// and stands on a band of its own color.
pub proof fn lemma_prompt_leaves_the_last_column(
    turn: model::TurnView,
    input: InputView,
    width: nat,
)
    ensures
        ({
            let all = block::block(turn, input, width);
            &&& exists|lines: Seq<Seq<char>>| #[trigger]
                lines_of_prompt(turn, lines) && rows::plain_rows(
                    all.rows.subrange(1, all.prompt_rows as int + 1),
                ) == wrapped_one_by_one(lines, one_column_short(width), lines.len() as int)
            &&& forall|i: int|
                0 <= i < all.prompt_rows + 2 ==> (#[trigger] all.rows[i]).fill == Some(
                    CellStyle {
                        foreground: Some(style::AnsiColor::Rgb(56, 58, 66)),
                        background: Some(style::AnsiColor::Rgb(229, 229, 230)),
                        modifiers: style::no_modifiers(),
                    },
                )
        }),
{
    let all = block::block(turn, input, width);
    let lines = block::prompt_lines(turn.prompt, turn.delivery);
    let n = lines.len() as int;
    lemma_prompt_rows_wrap(lines, width, n);
    block::lemma_rows_of_a_turn(turn, input, width);
    let prompt = block::turn_prompt_rows(turn, width);
    assert(all.rows.subrange(1, all.prompt_rows as int + 1) =~= prompt);
    assert(lines_of_prompt(turn, lines));
    let columns = one_column_short(width);
    assert(block::prompt_columns(width) == columns);
    assert(rows::plain_rows(all.rows.subrange(1, all.prompt_rows as int + 1))
        == wrapped_one_by_one(lines, columns, lines.len() as int));
    assert forall|i: int| 0 <= i < all.prompt_rows + 2 implies (#[trigger] all.rows[i]).fill
        == Some(
        CellStyle {
            foreground: Some(style::AnsiColor::Rgb(56, 58, 66)),
            background: Some(style::AnsiColor::Rgb(229, 229, 230)),
            modifiers: style::no_modifiers(),
        },
    ) by {
        assert(block::turn_shaped(all.rows, all.prompt_rows as int));
    }
}

}
