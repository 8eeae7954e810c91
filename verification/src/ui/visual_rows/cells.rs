//! Every cell of a row is drawn and linked as the character it shows.

use super::block;
use super::block::InputView;
use super::reading;
use super::rows;
use super::rows::{CellStyle, RowView, SpanView};
use super::wrap;
use crate::markdown;
use crate::markdown::NonClickableLinkRange;
use crate::model;
use crate::style;
use crate::style::{AnsiColor, StyleModifiers, StyleRun, StyleState};
use crate::text;
use crate::text::LineRange;
use vstd::prelude::*;

verus! {

// ---------------------------------------------------------------------------
// Cells
// ---------------------------------------------------------------------------

/// One cell: what it shows, how it is drawn and what it opens.
pub ghost struct CellView {
    pub character: char,
    pub style: CellStyle,
    pub link: Option<Seq<char>>,
}

pub open spec fn cell(character: char, style: CellStyle, link: Option<Seq<char>>) -> CellView {
    CellView { character, style, link }
}

pub open spec fn span_cells(span: SpanView) -> Seq<CellView> {
    Seq::new(
        span.text.len(),
        |i: int| cell(span.text[i], span.style, span.hyperlink),
    )
}

pub open spec fn spans_cells(spans: Seq<SpanView>) -> Seq<CellView>
    decreases spans.len(),
{
    if spans.len() == 0 {
        Seq::empty()
    } else {
        spans_cells(spans.drop_last()) + span_cells(spans.last())
    }
}

/// The cells of rows, one row after the other.
pub open spec fn cells_of(v: Seq<RowView>) -> Seq<CellView>
    decreases v.len(),
{
    if v.len() == 0 {
        Seq::empty()
    } else {
        cells_of(v.drop_last()) + spans_cells(v.last().spans)
    }
}

proof fn lemma_cells_of_pushed(row: RowView, c: char, style: CellStyle, link: Option<Seq<char>>)
    ensures
        spans_cells(rows::push_cell(row, c, style, link).spans) == spans_cells(row.spans).push(
            cell(c, style, link),
        ),
{
    let after = rows::push_cell(row, c, style, link);
    let spans = row.spans;
    let added = cell(c, style, link);
    if spans.len() > 0 && spans.last().style == style && spans.last().hyperlink == link {
        assert(after.spans.drop_last() =~= spans.drop_last());
        assert(span_cells(after.spans.last()) =~= span_cells(spans.last()).push(added));
        assert(spans_cells(after.spans) =~= spans_cells(spans).push(added));
    } else {
        assert(after.spans.drop_last() =~= spans);
        assert(span_cells(after.spans.last()) =~= seq![added]);
        assert(spans_cells(after.spans) =~= spans_cells(spans).push(added));
    }
}

proof fn lemma_cells_add_up(a: Seq<RowView>, b: Seq<RowView>)
    ensures
        cells_of(a + b) == cells_of(a) + cells_of(b),
    decreases b.len(),
{
    if b.len() == 0 {
        assert(a + b =~= a);
        assert(cells_of(a) + cells_of(b) =~= cells_of(a));
    } else {
        lemma_cells_add_up(a, b.drop_last());
        assert((a + b).drop_last() =~= a + b.drop_last());
        assert((a + b).last() == b.last());
        assert(cells_of(a + b) =~= cells_of(a) + cells_of(b));
    }
}

/// The cells that the first `n` characters of a text take, where each has its style
/// and its link: one for each character that is no line feed.
spec fn given_cells(
    s: Seq<char>,
    styles: Seq<CellStyle>,
    links: Seq<Option<Seq<char>>>,
    n: int,
) -> Seq<CellView>
    decreases n,
{
    if n <= 0 {
        Seq::empty()
    } else if s[n - 1] == '\n' {
        given_cells(s, styles, links, n - 1)
    } else {
        given_cells(s, styles, links, n - 1).push(
            cell(s[n - 1], styles[n - 1], links[n - 1]),
        )
    }
}

proof fn lemma_wrapping_keeps_the_cells(
    s: Seq<char>,
    styles: Seq<CellStyle>,
    links: Seq<Option<Seq<char>>>,
    width: nat,
    n: int,
)
    ensures
        rows::styled_upto(s, styles, links, width, n).len() > 0,
        cells_of(rows::styled_upto(s, styles, links, width, n)) == given_cells(
            s,
            styles,
            links,
            n,
        ),
    decreases n,
{
    let here = rows::styled_upto(s, styles, links, width, n);
    let bare = rows::bare_row(None);
    assert(spans_cells(bare.spans) =~= Seq::<CellView>::empty());
    if n <= 0 {
        assert(here.drop_last() =~= Seq::<RowView>::empty());
        assert(cells_of(here.drop_last()) =~= Seq::<CellView>::empty());
        assert(cells_of(here) =~= Seq::<CellView>::empty());
    } else {
        lemma_wrapping_keeps_the_cells(s, styles, links, width, n - 1);
        let before = rows::styled_upto(s, styles, links, width, n - 1);
        lemma_cells_of_pushed(before.last(), s[n - 1], styles[n - 1], links[n - 1]);
        lemma_cells_of_pushed(bare, s[n - 1], styles[n - 1], links[n - 1]);
        let cells = given_cells(s, styles, links, n);
        if s[n - 1] == '\n' || wrap::breaks_at(s, width, n - 1) {
            assert(here.drop_last() =~= before);
            assert(cells_of(here) =~= cells);
        } else {
            assert(here.drop_last() =~= before.drop_last());
            assert(cells_of(here) =~= cells);
        }
    }
}

proof fn lemma_cells_of_a_line(
    s: Seq<char>,
    styles: Seq<CellStyle>,
    links: Seq<Option<Seq<char>>>,
    n: int,
)
    requires
        0 <= n <= s.len(),
        forall|k: int| 0 <= k < n ==> #[trigger] s[k] != '\n',
    ensures
        given_cells(s, styles, links, n) == Seq::new(
            n as nat,
            |i: int| cell(s[i], styles[i], links[i]),
        ),
    decreases n,
{
    let want = Seq::new(
        n as nat,
        |i: int| cell(s[i], styles[i], links[i]),
    );
    if n > 0 {
        lemma_cells_of_a_line(s, styles, links, n - 1);
    }
    assert(given_cells(s, styles, links, n) =~= want);
}

// ---------------------------------------------------------------------------
// Looking up a style or a link
// ---------------------------------------------------------------------------

/// A style without its place, as a cell has it.
pub open spec fn state_of(cell: CellStyle) -> StyleState {
    StyleState {
        foreground: cell.foreground,
        background: cell.background,
        modifiers: cell.modifiers,
    }
}

spec fn apart(runs: Seq<StyleRun>) -> bool {
    forall|i: int, j: int|
        0 <= i < j < runs.len() ==> (#[trigger] runs[i]).end_byte <= (#[trigger] runs[j]).start_byte
}

proof fn lemma_first_open_run(runs: Seq<StyleRun>, byte: int, k: int)
    requires
        0 <= k <= runs.len(),
    ensures
        ({
            let at = rows::open_run(runs, byte, k);
            &&& k <= at <= runs.len()
            &&& at < runs.len() ==> runs[at].end_byte > byte
            &&& forall|i: int| k <= i < at ==> (#[trigger] runs[i]).end_byte <= byte
        }),
    decreases runs.len() - k,
{
    if k < runs.len() && runs[k].end_byte <= byte {
        lemma_first_open_run(runs, byte, k + 1);
    }
}

proof fn lemma_style_looked_up(runs: Seq<StyleRun>, byte: int)
    requires
        apart(runs),
    ensures
        style::look_at(runs, byte, state_of(rows::run_style(runs, byte))),
{
    lemma_first_open_run(runs, byte, 0);
    let k = rows::open_run(runs, byte, 0);
    let look = state_of(rows::run_style(runs, byte));
    if k < runs.len() && runs[k].start_byte <= byte {
        assert(style::drawn_in(runs, byte, look));
    } else {
        assert forall|other: StyleState| !#[trigger] style::drawn_in(runs, byte, other) by {
            if style::drawn_in(runs, byte, other) {
                let i = choose|i: int|
                    0 <= i < runs.len() && (#[trigger] runs[i]).start_byte <= byte
                        < runs[i].end_byte && runs[i].foreground == other.foreground
                        && runs[i].background == other.background && runs[i].modifiers
                        == other.modifiers;
                assert(k <= i);
                if k < i {
                    assert(runs[k].end_byte <= runs[i].start_byte);
                }
            }
        }
    }
}

/// Whether a link covers a byte and opens this.
pub open spec fn linked_to(links: Seq<markdown::LinkView>, byte: int, url: Seq<char>) -> bool {
    exists|i: int|
        0 <= i < links.len() && (#[trigger] links[i]).start_byte <= byte < links[i].end_byte
            && links[i].url == url
}

/// What the character at a byte opens: what a link that covers it does, and nothing
/// where none does.
pub open spec fn link_at(
    links: Seq<markdown::LinkView>,
    byte: int,
    link: Option<Seq<char>>,
) -> bool {
    match link {
        Some(url) => linked_to(links, byte, url),
        None => forall|url: Seq<char>| !#[trigger] linked_to(links, byte, url),
    }
}

/// Whether links follow one another without overlap.
pub open spec fn links_apart(links: Seq<markdown::LinkView>) -> bool {
    forall|i: int, j: int|
        0 <= i < j < links.len() ==> (#[trigger] links[i]).end_byte <= (
        #[trigger] links[j]).start_byte
}

proof fn lemma_first_open_link(links: Seq<markdown::LinkView>, byte: int, k: int)
    requires
        0 <= k <= links.len(),
    ensures
        ({
            let at = rows::open_link(links, byte, k);
            &&& k <= at <= links.len()
            &&& at < links.len() ==> links[at].end_byte > byte
            &&& forall|i: int| k <= i < at ==> (#[trigger] links[i]).end_byte <= byte
        }),
    decreases links.len() - k,
{
    if k < links.len() && links[k].end_byte <= byte {
        lemma_first_open_link(links, byte, k + 1);
    }
}

proof fn lemma_link_looked_up(links: Seq<markdown::LinkView>, byte: int)
    requires
        links_apart(links),
    ensures
        link_at(links, byte, rows::link_url(links, byte)),
{
    lemma_first_open_link(links, byte, 0);
    let k = rows::open_link(links, byte, 0);
    if k < links.len() && links[k].start_byte <= byte {
        assert(linked_to(links, byte, links[k].url));
    } else {
        assert forall|url: Seq<char>| !#[trigger] linked_to(links, byte, url) by {
            if linked_to(links, byte, url) {
                let i = choose|i: int|
                    0 <= i < links.len() && (#[trigger] links[i]).start_byte <= byte
                        < links[i].end_byte && links[i].url == url;
                assert(k <= i);
                if k < i {
                    assert(links[k].end_byte <= links[i].start_byte);
                }
            }
        }
    }
}

// ---------------------------------------------------------------------------
// One line of a text
// ---------------------------------------------------------------------------

proof fn lemma_clipped_looks(
    runs: Seq<StyleRun>,
    start: int,
    end: int,
    n: int,
    byte: int,
    look: StyleState,
)
    requires
        0 <= n <= runs.len(),
        0 <= start <= byte < end <= usize::MAX,
    ensures
        style::drawn_in(block::clipped_runs(runs, start, end, n), byte - start, look)
            <==> style::drawn_in(runs.take(n), byte, look),
    decreases n,
{
    let clipped = block::clipped_runs(runs, start, end, n);
    if n > 0 {
        lemma_clipped_looks(runs, start, end, n - 1, byte, look);
        let before = block::clipped_runs(runs, start, end, n - 1);
        let run = runs[n - 1];
        let here = style::run_draws(run, byte, look);
        let all = runs.take(n);
        assert(all =~= runs.take(n - 1).push(run));
        lemma_one_more_run(runs.take(n - 1), run, byte, look);
        match block::clipped_range(run.start_byte, run.end_byte, start, end) {
            Some((a, b)) => {
                let cut = style::run_over(a as nat, b as nat, run.style_spec());
                lemma_one_more_run(before, cut, byte - start, look);
                assert(style::run_draws(cut, byte - start, look) <==> here);
            },
            None => {
                assert(!here);
            },
        }
    }
}

proof fn lemma_one_more_run(runs: Seq<StyleRun>, run: StyleRun, byte: int, look: StyleState)
    ensures
        style::drawn_in(runs.push(run), byte, look) <==> style::drawn_in(runs, byte, look)
            || style::run_draws(run, byte, look),
{
    let all = runs.push(run);
    if style::drawn_in(all, byte, look) {
        let i = choose|i: int|
            0 <= i < all.len() && (#[trigger] all[i]).start_byte <= byte < all[i].end_byte
                && all[i].foreground == look.foreground && all[i].background == look.background
                && all[i].modifiers == look.modifiers;
        if i < runs.len() {
            assert(runs[i] == all[i]);
        }
    }
    if style::drawn_in(runs, byte, look) {
        let i = choose|i: int|
            0 <= i < runs.len() && (#[trigger] runs[i]).start_byte <= byte < runs[i].end_byte
                && runs[i].foreground == look.foreground && runs[i].background == look.background
                && runs[i].modifiers == look.modifiers;
        assert(all[i] == runs[i]);
    }
    if style::run_draws(run, byte, look) {
        assert(all[runs.len() as int] == run);
    }
}

proof fn lemma_clipped_links(
    links: Seq<markdown::LinkView>,
    start: int,
    end: int,
    n: int,
    byte: int,
    url: Seq<char>,
)
    requires
        0 <= n <= links.len(),
        0 <= start <= byte < end <= usize::MAX,
    ensures
        linked_to(block::clipped_links(links, start, end, n), byte - start, url) <==> linked_to(
            links.take(n),
            byte,
            url,
        ),
    decreases n,
{
    if n > 0 {
        lemma_clipped_links(links, start, end, n - 1, byte, url);
        let before = block::clipped_links(links, start, end, n - 1);
        let link = links[n - 1];
        assert(links.take(n) =~= links.take(n - 1).push(link));
        lemma_one_more_link(links.take(n - 1), link, byte, url);
        match block::clipped_range(link.start_byte, link.end_byte, start, end) {
            Some((a, b)) => {
                let cut = markdown::LinkView {
                    start_byte: a as usize,
                    end_byte: b as usize,
                    url: link.url,
                };
                lemma_one_more_link(before, cut, byte - start, url);
            },
            None => {},
        }
    }
}

proof fn lemma_one_more_link(
    links: Seq<markdown::LinkView>,
    link: markdown::LinkView,
    byte: int,
    url: Seq<char>,
)
    ensures
        linked_to(links.push(link), byte, url) <==> linked_to(links, byte, url) || (link.start_byte
            <= byte < link.end_byte && link.url == url),
{
    let all = links.push(link);
    if linked_to(all, byte, url) {
        let i = choose|i: int|
            0 <= i < all.len() && (#[trigger] all[i]).start_byte <= byte < all[i].end_byte
                && all[i].url == url;
        if i < links.len() {
            assert(links[i] == all[i]);
        }
    }
    if linked_to(links, byte, url) {
        let i = choose|i: int|
            0 <= i < links.len() && (#[trigger] links[i]).start_byte <= byte < links[i].end_byte
                && links[i].url == url;
        assert(all[i] == links[i]);
    }
    if link.start_byte <= byte < link.end_byte && link.url == url {
        assert(all[links.len() as int] == link);
    }
}

proof fn lemma_clipped_links_apart(links: Seq<markdown::LinkView>, start: int, end: int, n: int)
    requires
        0 <= n <= links.len(),
        0 <= start <= end <= usize::MAX,
        links_apart(links),
    ensures
        links_apart(block::clipped_links(links, start, end, n)),
        forall|i: int, m: int|
            0 <= i < block::clipped_links(links, start, end, n).len() && n <= m < links.len() ==> (
            #[trigger] block::clipped_links(links, start, end, n)[i]).end_byte + start <= (
            #[trigger] links[m]).start_byte,
    decreases n,
{
    if n > 0 {
        lemma_clipped_links_apart(links, start, end, n - 1);
        let before = block::clipped_links(links, start, end, n - 1);
        let here = block::clipped_links(links, start, end, n);
        let link = links[n - 1];
        assert forall|i: int, j: int| 0 <= i < j < here.len() implies (
        #[trigger] here[i]).end_byte <= (#[trigger] here[j]).start_byte by {
            assert(here[i] == before[i]);
            if j < before.len() {
                assert(here[j] == before[j]);
            } else {
                assert(before[i].end_byte + start <= link.start_byte);
            }
        }
        assert forall|i: int, m: int| 0 <= i < here.len() && n <= m < links.len() implies (
        #[trigger] here[i]).end_byte + start <= (#[trigger] links[m]).start_byte by {
            if i < before.len() {
                assert(here[i] == before[i]);
            } else {
                assert(link.end_byte <= links[m].start_byte);
            }
        }
    }
}

proof fn lemma_byte_in_part(s: Seq<char>, p: int, q: int, i: int)
    requires
        0 <= p <= i <= q <= s.len(),
    ensures
        text::byte_at(s.subrange(p, q), i - p) == text::byte_at(s, i) - text::byte_at(s, p),
{
    text::lemma_byte_len_subrange(s, p, i);
    assert(s.subrange(p, q).take(i - p) =~= s.subrange(p, i));
}

/// A boundary inside a part of a text is one of that part.
proof fn lemma_boundary_in_part(s: Seq<char>, p: int, q: int, byte: int)
    requires
        0 <= p <= q <= s.len(),
        style::on_boundary(s, byte),
        text::byte_at(s, p) <= byte <= text::byte_at(s, q),
    ensures
        style::on_boundary(s.subrange(p, q), byte - text::byte_at(s, p)),
{
    let i = choose|i: int| 0 <= i <= s.len() && #[trigger] text::byte_at(s, i) == byte;
    if i < p {
        text::lemma_byte_at_monotone(s, i, p);
    }
    if i > q {
        text::lemma_byte_at_monotone(s, q, i);
    }
    lemma_byte_in_part(s, p, q, i);
    assert(text::byte_at(s.subrange(p, q), i - p) == byte - text::byte_at(s, p));
}

proof fn lemma_clipped_run_fits(s: Seq<char>, p: int, q: int, run: StyleRun)
    requires
        0 <= p <= q <= s.len(),
        text::byte_len(s) <= usize::MAX,
        style::run_fits(s, run),
    ensures
        block::clipped_range(
            run.start_byte,
            run.end_byte,
            text::byte_at(s, p) as int,
            text::byte_at(s, q) as int,
        ) matches Some((a, b)) ==> style::run_fits(
            s.subrange(p, q),
            style::run_over(a as nat, b as nat, run.style_spec()),
        ),
{
    let start = text::byte_at(s, p) as int;
    let end = text::byte_at(s, q) as int;
    if let Some((a, b)) = block::clipped_range(run.start_byte, run.end_byte, start, end) {
        text::lemma_byte_at_monotone(s, p, q);
        assert(style::on_boundary(s, start)) by {
            assert(text::byte_at(s, p) == start);
        }
        assert(style::on_boundary(s, end)) by {
            assert(text::byte_at(s, q) == end);
        }
        lemma_boundary_in_part(s, p, q, a + start);
        lemma_boundary_in_part(s, p, q, b + start);
        text::lemma_byte_len_subrange(s, p, q);
    }
}

proof fn lemma_clipped_runs_valid(s: Seq<char>, runs: Seq<StyleRun>, p: int, q: int, n: int)
    requires
        0 <= p <= q <= s.len(),
        text::byte_len(s) <= usize::MAX,
        style::runs_valid(s, runs),
        0 <= n <= runs.len(),
    ensures
        ({
            let start = text::byte_at(s, p) as int;
            let here = block::clipped_runs(runs, start, text::byte_at(s, q) as int, n);
            &&& style::runs_valid(s.subrange(p, q), here)
            &&& forall|i: int, m: int|
                0 <= i < here.len() && n <= m < runs.len() ==> (#[trigger] here[i]).end_byte + start
                    <= (#[trigger] runs[m]).start_byte
        }),
    decreases n,
{
    if n > 0 {
        lemma_clipped_runs_valid(s, runs, p, q, n - 1);
        let start = text::byte_at(s, p) as int;
        let end = text::byte_at(s, q) as int;
        text::lemma_byte_at_monotone(s, p, q);
        let before = block::clipped_runs(runs, start, end, n - 1);
        let here = block::clipped_runs(runs, start, end, n);
        let run = runs[n - 1];
        lemma_clipped_run_fits(s, p, q, run);
        assert forall|i: int| 0 <= i < here.len() implies style::run_fits(
            s.subrange(p, q),
            #[trigger] here[i],
        ) by {
            if i < before.len() {
                assert(here[i] == before[i]);
            }
        }
        assert forall|i: int, j: int| 0 <= i < j < here.len() implies (
        #[trigger] here[i]).end_byte <= (#[trigger] here[j]).start_byte by {
            assert(here[i] == before[i]);
            if j < before.len() {
                assert(here[j] == before[j]);
            } else {
                assert(before[i].end_byte + start <= run.start_byte);
            }
        }
        assert forall|i: int, m: int| 0 <= i < here.len() && n <= m < runs.len() implies (
        #[trigger] here[i]).end_byte + start <= (#[trigger] runs[m]).start_byte by {
            if i < before.len() {
                assert(here[i] == before[i]);
            } else {
                assert(run.end_byte <= runs[m].start_byte);
            }
        }
    }
}

proof fn lemma_valid_runs_all_drawn(s: Seq<char>, runs: Seq<StyleRun>, n: int)
    requires
        style::runs_valid(s, runs),
        0 <= n <= runs.len(),
    ensures
        rows::fitting_runs(s, runs, n) == runs.take(n),
    decreases n,
{
    if n > 0 {
        lemma_valid_runs_all_drawn(s, runs, n - 1);
        assert(style::run_fits(s, runs[n - 1]));
        if n > 1 {
            assert(runs.take(n - 1).last() == runs[n - 2]);
            assert(runs[n - 2].end_byte <= runs[n - 1].start_byte);
        }
    }
    assert(rows::fitting_runs(s, runs, n) =~= runs.take(n));
}

/// How a character of a line is looked up there is how it is drawn in the text.
proof fn lemma_look_in_line(
    source: style::StyledView,
    links: Seq<markdown::LinkView>,
    piece: LineRange,
    i: int,
)
    requires
        text::byte_len(source.text) <= usize::MAX,
        style::runs_valid(source.text, source.runs),
        links_apart(links),
        piece.start <= i < piece.end <= source.text.len(),
    ensures
        ({
            let line = block::line_of(source, links, piece);
            let here = text::byte_at(line.styled.text, i - piece.start) as int;
            let there = text::byte_at(source.text, i) as int;
            &&& style::look_at(
                source.runs,
                there,
                state_of(rows::run_style(rows::drawable_runs(line.styled), here)),
            )
            &&& link_at(links, there, rows::link_url(line.hyperlinks, here))
        }),
{
    let s = source.text;
    let p = piece.start as int;
    let q = piece.end as int;
    let line = block::line_of(source, links, piece);
    let here = text::byte_at(line.styled.text, i - p) as int;
    let there = text::byte_at(s, i) as int;
    let start = text::byte_at(s, p) as int;
    let end = text::byte_at(s, q) as int;
    let runs = line.styled.runs;
    let n = source.runs.len() as int;
    lemma_byte_in_part(s, p, q, i);
    text::lemma_byte_at_monotone(s, p, i);
    text::lemma_byte_at_monotone(s, i, i + 1);
    text::lemma_byte_at_monotone(s, i + 1, q);
    assert(here == there - start && start <= there < end <= usize::MAX);
    lemma_clipped_runs_valid(s, source.runs, p, q, n);
    lemma_valid_runs_all_drawn(line.styled.text, runs, runs.len() as int);
    assert(runs.take(runs.len() as int) =~= runs);
    lemma_style_looked_up(runs, here);
    assert(source.runs.take(n) =~= source.runs);
    assert forall|look: StyleState|
        style::drawn_in(runs, here, look) <==> #[trigger] style::drawn_in(
            source.runs,
            there,
            look,
        ) by {
        lemma_clipped_looks(source.runs, start, end, n, there, look);
    }
    lemma_clipped_links_apart(links, start, end, links.len() as int);
    lemma_link_looked_up(line.hyperlinks, here);
    assert(links.take(links.len() as int) =~= links);
    assert forall|url: Seq<char>|
        linked_to(line.hyperlinks, here, url) <==> #[trigger] linked_to(links, there, url) by {
        lemma_clipped_links(links, start, end, links.len() as int, there, url);
    }
    match rows::link_url(line.hyperlinks, here) {
        Some(url) => {
            assert(linked_to(links, there, url));
        },
        None => {},
    }
}

// ---------------------------------------------------------------------------
// The whole answer
// ---------------------------------------------------------------------------

/// The indices of the characters among the first `n` that are no line feeds.
pub open spec fn shown_at(s: Seq<char>, n: int) -> Seq<int>
    decreases n,
{
    if n <= 0 {
        Seq::empty()
    } else if s[n - 1] == '\n' {
        shown_at(s, n - 1)
    } else {
        shown_at(s, n - 1).push(n - 1)
    }
}

proof fn lemma_shown_in_line(s: Seq<char>, p: int, n: int)
    requires
        0 <= p <= n <= s.len(),
        forall|k: int| p <= k < n ==> #[trigger] s[k] != '\n',
    ensures
        shown_at(s, n) == shown_at(s, p) + Seq::new((n - p) as nat, |i: int| p + i),
    decreases n,
{
    if n > p {
        lemma_shown_in_line(s, p, n - 1);
    }
    assert(shown_at(s, n) =~= shown_at(s, p) + Seq::new((n - p) as nat, |i: int| p + i));
}

/// A cell in the color of answers, where it has none of its own.
pub open spec fn in_answer_color(look: StyleState) -> CellStyle {
    CellStyle {
        foreground: if look.foreground is None {
            Some(AnsiColor::BrightWhite)
        } else {
            look.foreground
        },
        background: look.background,
        modifiers: look.modifiers,
    }
}

/// Whether a cell shows the character at `i` of a styled text: it, in its style, and
/// with its link.
pub open spec fn shows_character(
    shown: CellView,
    source: style::StyledView,
    links: Seq<markdown::LinkView>,
    i: int,
) -> bool {
    let byte = text::byte_at(source.text, i) as int;
    &&& shown.character == source.text[i]
    &&& exists|look: StyleState| #[trigger]
        style::look_at(source.runs, byte, look) && shown.style == in_answer_color(look)
    &&& link_at(links, byte, shown.link)
}

/// Whether cells show the first `n` characters of a styled text, one each but for the
/// line feeds.
pub open spec fn cells_show(
    cells: Seq<CellView>,
    source: style::StyledView,
    links: Seq<markdown::LinkView>,
    n: int,
) -> bool {
    &&& cells.len() == shown_at(source.text, n).len()
    &&& forall|j: int|
        0 <= j < cells.len() ==> shows_character(
            #[trigger] cells[j],
            source,
            links,
            shown_at(source.text, n)[j],
        )
}

spec fn white_cell(c: CellView) -> CellView {
    cell(c.character, in_answer_color(state_of(c.style)), c.link)
}

spec fn white_cells(cells: Seq<CellView>) -> Seq<CellView> {
    Seq::new(cells.len(), |i: int| white_cell(cells[i]))
}

spec fn white_spans(spans: Seq<SpanView>) -> Seq<SpanView> {
    Seq::new(spans.len(), |i: int| block::whitened_span(spans[i]))
}

spec fn white_rows(v: Seq<RowView>) -> Seq<RowView> {
    Seq::new(v.len(), |i: int| block::whitened(v[i]))
}

proof fn lemma_whitened_spans(spans: Seq<SpanView>)
    ensures
        spans_cells(white_spans(spans)) == white_cells(spans_cells(spans)),
    decreases spans.len(),
{
    let white = white_spans(spans);
    if spans.len() > 0 {
        lemma_whitened_spans(spans.drop_last());
        assert(white.drop_last() =~= white_spans(spans.drop_last()));
        assert(white.last() == block::whitened_span(spans.last()));
        assert(span_cells(white.last()) =~= white_cells(span_cells(spans.last())));
    }
    assert(spans_cells(white) =~= white_cells(spans_cells(spans)));
}

proof fn lemma_whitened_rows(v: Seq<RowView>)
    ensures
        cells_of(white_rows(v)) == white_cells(cells_of(v)),
    decreases v.len(),
{
    let white = white_rows(v);
    if v.len() > 0 {
        lemma_whitened_rows(v.drop_last());
        assert(white.drop_last() =~= white_rows(v.drop_last()));
        assert(white.last().spans =~= white_spans(v.last().spans));
        lemma_whitened_spans(v.last().spans);
    }
    assert(cells_of(white) =~= white_cells(cells_of(v)));
}

/// The cells of one line of an answer.
proof fn lemma_cells_of_an_answer_line(
    source: style::StyledView,
    links: Seq<markdown::LinkView>,
    piece: LineRange,
    width: nat,
)
    requires
        text::byte_len(source.text) <= usize::MAX,
        style::runs_valid(source.text, source.runs),
        links_apart(links),
        piece.start <= piece.end <= source.text.len(),
        forall|k: int| piece.start <= k < piece.end ==> #[trigger] source.text[k] != '\n',
    ensures
        ({
            let cells = cells_of(
                block::answer_line_rows(block::line_of(source, links, piece), width),
            );
            &&& cells.len() == piece.end - piece.start
            &&& forall|j: int|
                0 <= j < cells.len() ==> shows_character(
                    #[trigger] cells[j],
                    source,
                    links,
                    piece.start + j,
                )
        }),
{
    let line = block::line_of(source, links, piece);
    let t = line.styled.text;
    let n = t.len() as int;
    let wrapped = rows::styled_rows(line.styled, line.hyperlinks, width);
    let styles = rows::char_styles(t, rows::drawable_runs(line.styled));
    let opened = rows::char_links(t, line.hyperlinks);
    lemma_wrapping_keeps_the_cells(t, styles, opened, wrap::at_least_one(width), n);
    assert forall|k: int| 0 <= k < n implies #[trigger] t[k] != '\n' by {
        assert(t[k] == source.text[piece.start + k]);
    }
    lemma_cells_of_a_line(t, styles, opened, n);
    let drawn = block::answer_line_rows(line, width);
    assert(drawn =~= white_rows(wrapped));
    lemma_whitened_rows(wrapped);
    let cells = cells_of(drawn);
    assert forall|j: int| 0 <= j < cells.len() implies shows_character(
        #[trigger] cells[j],
        source,
        links,
        piece.start + j,
    ) by {
        lemma_look_in_line(source, links, piece, piece.start + j);
        let look = state_of(styles[j]);
        let byte = text::byte_at(source.text, piece.start + j) as int;
        assert(cells[j] == white_cell(cell(t[j], styles[j], opened[j])));
        assert(style::look_at(source.runs, byte, look));
    }
}

proof fn lemma_cells_of_answer_lines(
    source: style::StyledView,
    links: Seq<markdown::LinkView>,
    width: nat,
    n: int,
)
    requires
        source.text.len() <= usize::MAX,
        text::byte_len(source.text) <= usize::MAX,
        style::runs_valid(source.text, source.runs),
        links_apart(links),
        0 < n <= text::pieces(source.text, '\n').len(),
    ensures
        cells_show(
            cells_of(block::answer_rows(block::lines_of(source, links), width, n)),
            source,
            links,
            text::pieces(source.text, '\n')[n - 1].end as int,
        ),
    decreases n,
{
    let s = source.text;
    let parts = text::pieces(s, '\n');
    let part = parts[n - 1];
    let p = part.start as int;
    let q = part.end as int;
    let lines = block::lines_of(source, links);
    let before = block::answer_rows(lines, width, n - 1);
    let here = block::answer_line_rows(lines[n - 1], width);
    wrap::lemma_piece_is_a_line(s, n - 1);
    lemma_cells_of_an_answer_line(source, links, part, width);
    lemma_cells_add_up(before, here);
    lemma_shown_in_line(s, p, q);
    if n > 1 {
        lemma_cells_of_answer_lines(source, links, width, n - 1);
        assert(shown_at(s, p) == shown_at(s, p - 1));
    }
    let earlier = cells_of(before);
    let added = cells_of(here);
    let all = earlier + added;
    let at = shown_at(s, q);
    assert(earlier.len() == shown_at(s, p).len());
    assert forall|j: int| 0 <= j < all.len() implies shows_character(
        #[trigger] all[j],
        source,
        links,
        at[j],
    ) by {
        if j < earlier.len() {
            assert(all[j] == earlier[j]);
            assert(at[j] == shown_at(s, p)[j]);
        } else {
            assert(all[j] == added[j - earlier.len()]);
            assert(at[j] == p + (j - earlier.len()));
        }
    }
}

// ---------------------------------------------------------------------------
// Links that open nothing
// ---------------------------------------------------------------------------

/// Whether a byte lies in a link that opens nothing.
pub open spec fn opens_nothing(ranges: Seq<NonClickableLinkRange>, byte: int) -> bool {
    exists|i: int|
        0 <= i < ranges.len() && (#[trigger] ranges[i]).start_byte <= byte < ranges[i].end_byte
}

/// Whether ranges follow one another without overlap.
pub open spec fn ranges_apart(ranges: Seq<NonClickableLinkRange>) -> bool {
    forall|i: int, j: int|
        0 <= i < j < ranges.len() ==> (#[trigger] ranges[i]).end_byte <= (
        #[trigger] ranges[j]).start_byte
}

proof fn lemma_range_looked_up(ranges: Seq<NonClickableLinkRange>, byte: int, k: int)
    requires
        0 <= k <= ranges.len(),
        ranges_apart(ranges),
        forall|i: int| 0 <= i < k ==> (#[trigger] ranges[i]).end_byte <= byte,
    ensures
        block::range_holds(ranges, byte, k) == opens_nothing(ranges, byte),
    decreases ranges.len() - k,
{
    if k < ranges.len() {
        if ranges[k].end_byte <= byte {
            lemma_range_looked_up(ranges, byte, k + 1);
        } else if ranges[k].start_byte > byte {
            assert forall|i: int| 0 <= i < ranges.len() implies !((
            #[trigger] ranges[i]).start_byte <= byte < ranges[i].end_byte) by {
                if i > k {
                    assert(ranges[k].end_byte <= ranges[i].start_byte);
                }
            }
        }
    }
}

/// A style, without its underline where that would promise a link.
pub open spec fn not_underlined(look: StyleState, misleading: bool) -> StyleState {
    if misleading {
        StyleState {
            modifiers: StyleModifiers { underline: false, ..look.modifiers },
            ..look
        }
    } else {
        look
    }
}

proof fn lemma_suppressed_look(
    source: style::StyledView,
    ranges: Seq<NonClickableLinkRange>,
    i: int,
    shown: StyleState,
)
    requires
        text::byte_len(source.text) <= usize::MAX,
        style::runs_valid(source.text, source.runs),
        ranges_apart(ranges),
        0 <= i < source.text.len(),
        style::look_at(
            block::suppressed(source, ranges).runs,
            text::byte_at(source.text, i) as int,
            shown,
        ),
    ensures
        exists|look: StyleState| #[trigger]
            style::look_at(source.runs, text::byte_at(source.text, i) as int, look) && shown
                == not_underlined(
                look,
                opens_nothing(ranges, text::byte_at(source.text, i) as int),
            ),
{
    let s = source.text;
    let byte = text::byte_at(s, i) as int;
    let states = block::suppressed_styles(source, ranges);
    let made = block::suppressed(source, ranges).runs;
    let n = s.len() as int;
    style::lemma_runs_draw_every_style(s, states, n, i, shown);
    style::lemma_runs_draw_every_style(s, states, n, i, states[i]);
    assert(shown == states[i]);
    lemma_valid_runs_all_drawn(s, source.runs, source.runs.len() as int);
    assert(source.runs.take(source.runs.len() as int) =~= source.runs);
    lemma_style_looked_up(source.runs, byte);
    lemma_range_looked_up(ranges, byte, 0);
    let look = state_of(rows::run_style(source.runs, byte));
    assert(style::look_at(source.runs, byte, look));
    assert(shown == not_underlined(look, opens_nothing(ranges, byte)));
}

// ---------------------------------------------------------------------------
// What holds of every answer
// ---------------------------------------------------------------------------

/// Whether the styles and links of an answer describe the text that is shown.
pub open spec fn well_described(
    message: model::MessageView,
    projection: markdown::ProjectionView,
) -> bool {
    &&& text::byte_len(reading::answer_text(message, projection)) <= usize::MAX
    &&& links_apart(projection.hyperlinks)
    &&& ranges_apart(projection.non_clickable_links)
    &&& style::runs_valid(projection.styled.text, projection.styled.runs)
    &&& message.presentation matches style::PresentationView::NativeAnsi(styled)
        ==> style::runs_valid(styled.text, styled.runs)
}

/// Whether a cell shows the character at `i` of an answer. Plain text has neither
/// styles nor links, and Markdown has its own. What a pane showed keeps its styles, and
/// has the links of the Markdown where the two read alike; there a link that opens
/// nothing is not underlined.
pub open spec fn shows_answer_at(
    shown: CellView,
    message: model::MessageView,
    projection: markdown::ProjectionView,
    i: int,
) -> bool {
    match message.presentation {
        style::PresentationView::Plain => shown == cell(
            message.text[i],
            in_answer_color(style::plain_style()),
            None,
        ),
        style::PresentationView::MarkdownFallback => shows_character(
            shown,
            projection.styled,
            projection.hyperlinks,
            i,
        ),
        style::PresentationView::NativeAnsi(styled) => {
            let byte = text::byte_at(styled.text, i) as int;
            if styled.text == projection.styled.text {
                &&& shown.character == styled.text[i]
                &&& exists|look: StyleState| #[trigger]
                    style::look_at(styled.runs, byte, look) && shown.style == in_answer_color(
                        not_underlined(look, opens_nothing(projection.non_clickable_links, byte)),
                    )
                &&& link_at(projection.hyperlinks, byte, shown.link)
            } else {
                shows_character(shown, styled, Seq::empty(), i)
            }
        },
    }
}

proof fn lemma_plain_character(shown: CellView, s: Seq<char>, i: int)
    requires
        shows_character(shown, block::unstyled(s), Seq::empty(), i),
    ensures
        shown == cell(s[i], in_answer_color(style::plain_style()), None),
{
    let byte = text::byte_at(s, i) as int;
    let none = Seq::<StyleRun>::empty();
    assert forall|look: StyleState| !#[trigger] style::drawn_in(none, byte, look) by {}
    let look = choose|look: StyleState| #[trigger]
        style::look_at(none, byte, look) && shown.style == in_answer_color(look);
    assert(style::look_at(none, byte, look));
    assert(!style::drawn_in(none, byte, look));
    if let Some(url) = shown.link {
        assert(linked_to(Seq::empty(), byte, url));
    }
}

/// The cells of an answer are its characters, one for each but the line feeds, in
/// their order. Each is drawn in the style of its character and in the color of
/// answers where that has none, and opens the link that covers it and no other.
pub proof fn lemma_answer_is_drawn_cell_by_cell(
    turn: model::TurnView,
    input: InputView,
    width: nat,
)
    requires
        turn.final_answer is Some,
        well_described(turn.final_answer.unwrap(), input.answer_markdown),
    ensures
        ({
            let message = turn.final_answer.unwrap();
            let s = reading::answer_text(message, input.answer_markdown);
            let at = shown_at(s, s.len() as int);
            let cells = cells_of(reading::answer_part(turn, input, width));
            &&& cells.len() == at.len()
            &&& forall|j: int|
                0 <= j < cells.len() ==> shows_answer_at(
                    #[trigger] cells[j],
                    message,
                    input.answer_markdown,
                    at[j],
                )
        }),
{
    let message = turn.final_answer.unwrap();
    let projection = input.answer_markdown;
    let s = reading::answer_text(message, projection);
    let source = block::answer_source(message, projection);
    let n = text::pieces(s, '\n').len() as int;
    text::lemma_byte_at_ends(s);
    text::lemma_byte_at_monotone(s, 0, s.len() as int);
    text::lemma_pieces_within(s, '\n');
    reading::lemma_answer_part(turn, input, width);
    assert(source.styled.text == s);
    assert(style::runs_valid(s, source.styled.runs) && links_apart(source.hyperlinks)) by {
        if let style::PresentationView::NativeAnsi(styled) = message.presentation {
            style::lemma_runs_of_valid(
                s,
                block::suppressed_styles(styled, projection.non_clickable_links),
                s.len() as int,
            );
        }
    }
    lemma_cells_of_answer_lines(source.styled, source.hyperlinks, width, n);
    let at = shown_at(s, s.len() as int);
    let cells = cells_of(reading::answer_part(turn, input, width));
    lemma_shown_inside(s, s.len() as int);
    assert forall|j: int| 0 <= j < cells.len() implies shows_answer_at(
        #[trigger] cells[j],
        message,
        projection,
        at[j],
    ) by {
        let i = at[j];
        let byte = text::byte_at(s, i) as int;
        assert(shows_character(cells[j], source.styled, source.hyperlinks, i));
        match message.presentation {
            style::PresentationView::Plain => {
                lemma_plain_character(cells[j], s, i);
            },
            style::PresentationView::MarkdownFallback => {},
            style::PresentationView::NativeAnsi(styled) => {
                if styled.text == projection.styled.text {
                    let shown = choose|look: StyleState| #[trigger]
                        style::look_at(source.styled.runs, byte, look) && cells[j].style
                            == in_answer_color(look);
                    lemma_suppressed_look(styled, projection.non_clickable_links, i, shown);
                }
            },
        }
    }
}

proof fn lemma_shown_inside(s: Seq<char>, n: int)
    requires
        0 <= n <= s.len(),
    ensures
        forall|j: int| 0 <= j < shown_at(s, n).len() ==> 0 <= #[trigger] shown_at(s, n)[j] < n,
    decreases n,
{
    if n > 0 {
        lemma_shown_inside(s, n - 1);
        let before = shown_at(s, n - 1);
        assert forall|j: int| 0 <= j < shown_at(s, n).len() implies 0 <= #[trigger] shown_at(s, n)[j]
            < n by {
            if j < before.len() {
                assert(0 <= before[j] < n - 1);
                assert(shown_at(s, n)[j] == before[j]);
            }
        }
    }
}

proof fn lemma_prompt_cells(lines: Seq<Seq<char>>, width: nat, n: int)
    requires
        0 <= n <= lines.len(),
    ensures
        forall|j: int|
            0 <= j < cells_of(block::prompt_rows(lines, width, n)).len() ==> plainly_shown(
                #[trigger] cells_of(block::prompt_rows(lines, width, n))[j],
            ),
    decreases n,
{
    let all = cells_of(block::prompt_rows(lines, width, n));
    if n > 0 {
        lemma_prompt_cells(lines, width, n - 1);
        let before = block::prompt_rows(lines, width, n - 1);
        let line = block::unstyled(lines[n - 1]);
        let wrapped = rows::styled_rows(line, Seq::empty(), block::prompt_columns(width));
        let here = block::with_fill(wrapped, Some(block::prompt_band()));
        lemma_cells_add_up(before, here);
        lemma_fill_keeps_the_cells(wrapped, Some(block::prompt_band()));
        let styles = rows::char_styles(line.text, rows::drawable_runs(line));
        let opened = rows::char_links(line.text, Seq::empty());
        lemma_wrapping_keeps_the_cells(
            line.text,
            styles,
            opened,
            wrap::at_least_one(block::prompt_columns(width)),
            line.text.len() as int,
        );
        lemma_given_cells_plain(line.text, styles, opened, line.text.len() as int);
        let earlier = cells_of(before);
        assert forall|j: int| 0 <= j < all.len() implies plainly_shown(#[trigger] all[j]) by {
            if j < earlier.len() {
                assert(all[j] == earlier[j]);
            } else {
                assert(all[j] == cells_of(here)[j - earlier.len()]);
            }
        }
    }
}

proof fn lemma_fill_keeps_the_cells(v: Seq<RowView>, fill: Option<CellStyle>)
    ensures
        cells_of(block::with_fill(v, fill)) == cells_of(v),
    decreases v.len(),
{
    let filled = block::with_fill(v, fill);
    if v.len() > 0 {
        lemma_fill_keeps_the_cells(v.drop_last(), fill);
        assert(filled.drop_last() =~= block::with_fill(v.drop_last(), fill));
    }
}

proof fn lemma_given_cells_plain(
    s: Seq<char>,
    styles: Seq<CellStyle>,
    links: Seq<Option<Seq<char>>>,
    n: int,
)
    requires
        0 <= n <= s.len(),
        styles.len() == s.len(),
        links.len() == s.len(),
        forall|i: int| 0 <= i < s.len() ==> #[trigger] styles[i] == rows::plain_cell(),
        forall|i: int| 0 <= i < s.len() ==> (#[trigger] links[i]) is None,
    ensures
        forall|j: int|
            0 <= j < given_cells(s, styles, links, n).len() ==> plainly_shown(
                #[trigger] given_cells(s, styles, links, n)[j],
            ),
    decreases n,
{
    if n > 0 {
        lemma_given_cells_plain(s, styles, links, n - 1);
        let before = given_cells(s, styles, links, n - 1);
        let here = given_cells(s, styles, links, n);
        assert forall|j: int| 0 <= j < here.len() implies plainly_shown(#[trigger] here[j]) by {
            if j < before.len() {
                assert(here[j] == before[j]);
            } else {
                assert(here[j] == cell(s[n - 1], styles[n - 1], links[n - 1]));
            }
        }
    }
}

/// Whether a cell has no style and no link.
pub open spec fn plainly_shown(c: CellView) -> bool {
    &&& c.style.foreground is None
    &&& c.style.background is None
    &&& c.style.modifiers == style::no_modifiers()
    &&& c.link is None
}

/// The text of a prompt is drawn without a style or a link of its own: the band
/// behind it is all there is.
pub proof fn lemma_prompt_is_drawn_plainly(turn: model::TurnView, input: InputView, width: nat)
    ensures
        ({
            let all = block::block(turn, input, width);
            let cells = cells_of(all.rows.subrange(1, all.prompt_rows as int + 1));
            forall|j: int| 0 <= j < cells.len() ==> plainly_shown(#[trigger] cells[j])
        }),
{
    let all = block::block(turn, input, width);
    let lines = block::prompt_lines(turn.prompt, turn.delivery);
    lemma_prompt_cells(lines, width, lines.len() as int);
    assert(all.rows.subrange(1, all.prompt_rows as int + 1) =~= block::turn_prompt_rows(
        turn,
        width,
    ));
}

}
