//! Rows of styled cells.

use super::wrap;
use crate::markdown;
use crate::markdown::HyperlinkRange;
use crate::style;
use crate::style::{AnsiColor, StyleModifiers, StyleRun, StyledText};
use crate::text;
use crate::width;
use vstd::prelude::*;
use vstd::std_specs::convert::FromSpecImpl;

verus! {

// ---------------------------------------------------------------------------
// Cells, spans and rows
// ---------------------------------------------------------------------------

/// How one cell is drawn.
#[derive(Clone, Copy, Debug, PartialEq, Eq, Structural)]
pub struct CellStyle {
    pub foreground: Option<AnsiColor>,
    pub background: Option<AnsiColor>,
    pub modifiers: StyleModifiers,
}

/// The style of a cell that nothing styles.
pub open spec fn plain_cell() -> CellStyle {
    CellStyle { foreground: None, background: None, modifiers: style::no_modifiers() }
}

impl Default for CellStyle {
    fn default() -> (r: Self)
        ensures
            r == plain_cell(),
    {
        CellStyle { foreground: None, background: None, modifiers: StyleModifiers::default() }
    }
}

/// The style that a run gives to its cells.
pub open spec fn cell_of_run(run: StyleRun) -> CellStyle {
    CellStyle { foreground: run.foreground, background: run.background, modifiers: run.modifiers }
}

impl From<&StyleRun> for CellStyle {
    fn from(run: &StyleRun) -> (r: Self) {
        CellStyle {
            foreground: run.foreground,
            background: run.background,
            modifiers: run.modifiers,
        }
    }
}

impl FromSpecImpl<&StyleRun> for CellStyle {
    open spec fn obeys_from_spec() -> bool {
        true
    }

    open spec fn from_spec(run: &StyleRun) -> Self {
        cell_of_run(*run)
    }
}

/// Cells of one style next to each other.
#[derive(Clone, Debug, PartialEq, Eq)]
pub struct VisualSpan {
    pub text: String,
    pub style: CellStyle,
    pub hyperlink: Option<String>,
}

pub ghost struct SpanView {
    pub text: Seq<char>,
    pub style: CellStyle,
    pub hyperlink: Option<Seq<char>>,
}

impl View for VisualSpan {
    type V = SpanView;

    open spec fn view(&self) -> SpanView {
        SpanView { text: self.text@, style: self.style, hyperlink: text::optional(self.hyperlink) }
    }
}

impl VisualSpan {
    pub fn copied(&self) -> (r: Self)
        ensures
            r@ == self@,
    {
        VisualSpan {
            text: self.text.clone(),
            style: self.style,
            hyperlink: text::copy_optional(&self.hyperlink),
        }
    }
}

/// One row of the screen. The fill is the style of what its spans leave bare.
#[derive(Clone, Debug, PartialEq, Eq)]
pub struct VisualRow {
    pub spans: Vec<VisualSpan>,
    pub fill: Option<CellStyle>,
}

pub ghost struct RowView {
    pub spans: Seq<SpanView>,
    pub fill: Option<CellStyle>,
}

/// What a list of spans says.
pub open spec fn span_views(spans: Seq<VisualSpan>) -> Seq<SpanView> {
    Seq::new(spans.len(), |i: int| spans[i]@)
}

/// What a list of rows says.
pub open spec fn row_views(rows: Seq<VisualRow>) -> Seq<RowView> {
    Seq::new(rows.len(), |i: int| rows[i]@)
}

impl View for VisualRow {
    type V = RowView;

    open spec fn view(&self) -> RowView {
        RowView { spans: span_views(self.spans@), fill: self.fill }
    }
}

/// The texts of spans.
pub open spec fn span_texts(spans: Seq<SpanView>) -> Seq<Seq<char>> {
    Seq::new(spans.len(), |i: int| spans[i].text)
}

/// What a row reads.
pub open spec fn plain_of(row: RowView) -> Seq<char> {
    wrap::joined_rows(span_texts(row.spans))
}

/// A row with nothing in it.
pub open spec fn bare_row(fill: Option<CellStyle>) -> RowView {
    RowView { spans: Seq::empty(), fill }
}

/// A row with one more character at its end. It joins the last span where that
/// one is drawn and linked alike.
pub open spec fn push_cell(row: RowView, c: char, style: CellStyle, hyperlink: Option<Seq<char>>) -> RowView {
    let spans = row.spans;
    if spans.len() > 0 && spans.last().style == style && spans.last().hyperlink == hyperlink {
        let last = SpanView { text: spans.last().text.push(c), style, hyperlink };
        RowView { spans: spans.drop_last().push(last), fill: row.fill }
    } else {
        RowView { spans: spans.push(SpanView { text: seq![c], style, hyperlink }), fill: row.fill }
    }
}

fn same_link(a: &Option<String>, b: Option<&str>) -> (r: bool)
    ensures
        r == (text::optional(*a) == text::optional_str(b)),
{
    match (a, b) {
        (None, None) => true,
        (Some(left), Some(right)) => text::same_text(left.as_str(), right),
        _ => false,
    }
}

impl VisualRow {
    /// A row of plain text.
    pub fn plain(text: &str) -> (r: Self)
        ensures
            r@ == (RowView {
                spans: seq![SpanView { text: text@, style: plain_cell(), hyperlink: None }],
                fill: None,
            }),
    {
        let mut spans: Vec<VisualSpan> = Vec::new();
        spans.push(
            VisualSpan { text: text.to_owned(), style: CellStyle::default(), hyperlink: None },
        );
        assert(span_views(spans@) =~= seq![
            SpanView { text: text@, style: plain_cell(), hyperlink: None },
        ]);
        VisualRow { spans, fill: None }
    }

    /// An empty row.
    pub fn empty(fill: Option<CellStyle>) -> (r: Self)
        ensures
            r@ == bare_row(fill),
    {
        let spans: Vec<VisualSpan> = Vec::new();
        assert(span_views(spans@) =~= Seq::<SpanView>::empty());
        VisualRow { spans, fill }
    }

    /// What the row reads.
    pub fn plain_text(&self) -> (r: String)
        ensures
            r@ == plain_of(self@),
    {
        let mut r = String::new();
        let ghost all = span_texts(self@.spans);
        let mut i: usize = 0;
        assert(all.take(0) =~= Seq::<Seq<char>>::empty());
        while i < self.spans.len()
            invariant
                all == span_texts(self@.spans),
                i <= self.spans@.len(),
                r@ == wrap::joined_rows(all.take(i as int)),
            decreases self.spans@.len() - i,
        {
            r.append(self.spans[i].text.as_str());
            proof {
                let upto = all.take(i + 1);
                assert(upto.drop_last() =~= all.take(i as int));
                assert(upto.last() == self.spans@[i as int].text@);
            }
            i = i + 1;
        }
        assert(all.take(all.len() as int) =~= all);
        r
    }

    /// The columns that the row takes.
    pub fn cell_width(&self) -> (r: usize)
        ensures
            r == wrap::text_width(plain_of(self@)),
    {
        let plain: String = self.plain_text();
        columns_of(plain.as_str())
    }

    /// Appends one character.
    pub fn push_char(&mut self, character: char, style: CellStyle, hyperlink: Option<&str>)
        ensures
            final(self)@ == push_cell(old(self)@, character, style, text::optional_str(hyperlink)),
    {
        let ghost before = self@;
        if let Some(previous) = self.spans.pop() {
            let mut previous = previous;
            let ghost last = previous@;
            let ghost rest = self@.spans;
            assert(rest =~= before.spans.drop_last());
            assert(last == before.spans.last());
            if previous.style == style && same_link(&previous.hyperlink, hyperlink) {
                previous.text.push(character);
                let ghost joined = previous@;
                self.spans.push(previous);
                assert(self@.spans =~= rest.push(joined));
                return;
            }
            self.spans.push(previous);
            assert(self@.spans =~= before.spans);
        }
        let mut text = String::new();
        text.push(character);
        let link: Option<String> = match hyperlink {
            Some(url) => Some(url.to_owned()),
            None => None,
        };
        let span = VisualSpan { text, style, hyperlink: link };
        let ghost added = span@;
        assert(added.text =~= seq![character]);
        self.spans.push(span);
        assert(self@.spans =~= before.spans.push(added));
    }

    pub fn copied(&self) -> (r: Self)
        ensures
            r@ == self@,
    {
        let mut spans: Vec<VisualSpan> = Vec::new();
        let mut i: usize = 0;
        while i < self.spans.len()
            invariant
                i <= self.spans@.len(),
                spans@.len() == i,
                forall|k: int| 0 <= k < i ==> (#[trigger] spans@[k])@ == self.spans@[k]@,
            decreases self.spans@.len() - i,
        {
            spans.push(self.spans[i].copied());
            i = i + 1;
        }
        assert(span_views(spans@) =~= span_views(self.spans@));
        VisualRow { spans, fill: self.fill }
    }
}

/// The columns that a text takes.
pub fn columns_of(s: &str) -> (r: usize)
    ensures
        r == wrap::text_width(s@),
        r <= text::byte_len(s@),
{
    let chars: Vec<char> = text::chars_of(s);
    let total: usize = text::byte_count(s);
    let mut r: usize = 0;
    let mut i: usize = 0;
    while i < chars.len()
        invariant
            chars@ == s@,
            total == text::byte_len(s@),
            i <= chars@.len(),
            r == wrap::span_width(s@, 0, i as int),
            r <= text::byte_at(s@, i as int),
        decreases chars@.len() - i,
    {
        proof {
            text::lemma_byte_at_step(s@, i as int);
            text::lemma_byte_at_monotone(s@, i + 1, s@.len() as int);
        }
        r = r + width::width_of(chars[i]);
        i = i + 1;
    }
    proof {
        text::lemma_byte_at_ends(s@);
    }
    r
}

/// Appends copies of the rows between two indices.
pub fn append_copies(rows: &mut Vec<VisualRow>, source: &Vec<VisualRow>, start: usize, end: usize)
    requires
        start <= end <= source@.len(),
    ensures
        row_views(final(rows)@) == row_views(old(rows)@) + row_views(source@).subrange(
            start as int,
            end as int,
        ),
{
    let ghost before = row_views(rows@);
    let ghost all = row_views(source@);
    let mut i: usize = start;
    assert(before + all.subrange(start as int, start as int) =~= before);
    while i < end
        invariant
            start <= i <= end <= source@.len(),
            all == row_views(source@),
            row_views(rows@) == before + all.subrange(start as int, i as int),
        decreases end - i,
    {
        let ghost so_far = row_views(rows@);
        let row: VisualRow = source[i].copied();
        let ghost view = row@;
        rows.push(row);
        assert(row_views(rows@) =~= so_far.push(view));
        assert(row_views(rows@) =~= before + all.subrange(start as int, i + 1));
        i = i + 1;
    }
}

// ---------------------------------------------------------------------------
// Looking up styles and links
// ---------------------------------------------------------------------------

/// The first run from `k` on that ends behind a byte.
pub open spec fn open_run(runs: Seq<StyleRun>, byte: int, k: int) -> int
    decreases runs.len() - k,
{
    if k < runs.len() && runs[k].end_byte <= byte {
        open_run(runs, byte, k + 1)
    } else {
        k
    }
}

/// The style that runs give to the character at a byte.
pub open spec fn run_style(runs: Seq<StyleRun>, byte: int) -> CellStyle {
    let k = open_run(runs, byte, 0);
    if k < runs.len() && runs[k].start_byte <= byte {
        cell_of_run(runs[k])
    } else {
        plain_cell()
    }
}

/// The first link from `k` on that ends behind a byte.
pub open spec fn open_link(links: Seq<markdown::LinkView>, byte: int, k: int) -> int
    decreases links.len() - k,
{
    if k < links.len() && links[k].end_byte <= byte {
        open_link(links, byte, k + 1)
    } else {
        k
    }
}

/// The link that the character at a byte opens.
pub open spec fn link_url(links: Seq<markdown::LinkView>, byte: int) -> Option<Seq<char>> {
    let k = open_link(links, byte, 0);
    if k < links.len() && links[k].start_byte <= byte {
        Some(links[k].url)
    } else {
        None
    }
}

proof fn lemma_open_run(runs: Seq<StyleRun>, byte: int, k: int, m: int)
    requires
        0 <= k <= m <= runs.len(),
        forall|i: int| k <= i < m ==> (#[trigger] runs[i]).end_byte <= byte,
    ensures
        open_run(runs, byte, k) == open_run(runs, byte, m),
    decreases m - k,
{
    if k < m {
        assert(runs[k].end_byte <= byte);
        lemma_open_run(runs, byte, k + 1, m);
    }
}

proof fn lemma_open_link(links: Seq<markdown::LinkView>, byte: int, k: int, m: int)
    requires
        0 <= k <= m <= links.len(),
        forall|i: int| k <= i < m ==> (#[trigger] links[i]).end_byte <= byte,
    ensures
        open_link(links, byte, k) == open_link(links, byte, m),
    decreases m - k,
{
    if k < m {
        assert(links[k].end_byte <= byte);
        lemma_open_link(links, byte, k + 1, m);
    }
}

/// Whether every run before an index ends at or before a byte.
pub open spec fn runs_passed(runs: Seq<StyleRun>, index: int, byte: int) -> bool {
    &&& 0 <= index <= runs.len()
    &&& forall|i: int| 0 <= i < index ==> (#[trigger] runs[i]).end_byte <= byte
}

/// Whether every link before an index ends at or before a byte.
pub open spec fn links_passed(links: Seq<HyperlinkRange>, index: int, byte: int) -> bool {
    &&& 0 <= index <= links.len()
    &&& forall|i: int| 0 <= i < index ==> (#[trigger] links[i]).end_byte <= byte
}

/// Looks up styles for bytes that only grow, without starting over.
pub struct StyleCursor {
    pub index: usize,
}

impl StyleCursor {
    pub fn new() -> (r: Self)
        ensures
            r.index == 0,
    {
        StyleCursor { index: 0 }
    }

    pub fn style_at(&mut self, runs: &Vec<StyleRun>, byte: usize) -> (r: CellStyle)
        requires
            runs_passed(runs@, old(self).index as int, byte as int),
        ensures
            r == run_style(runs@, byte as int),
            runs_passed(runs@, final(self).index as int, byte as int),
    {
        while self.index < runs.len() && byte >= runs[self.index].end_byte
            invariant
                runs_passed(runs@, self.index as int, byte as int),
            decreases runs@.len() - self.index,
        {
            self.index = self.index + 1;
        }
        proof {
            lemma_open_run(runs@, byte as int, 0, self.index as int);
        }
        if self.index < runs.len() && runs[self.index].start_byte <= byte {
            CellStyle::from(&runs[self.index])
        } else {
            CellStyle::default()
        }
    }
}

/// Looks up links for bytes that only grow, without starting over.
pub struct HyperlinkCursor {
    pub index: usize,
}

impl HyperlinkCursor {
    pub fn new() -> (r: Self)
        ensures
            r.index == 0,
    {
        HyperlinkCursor { index: 0 }
    }

    pub fn url_at<'a>(&mut self, links: &'a Vec<HyperlinkRange>, byte: usize) -> (r: Option<&'a str>)
        requires
            links_passed(links@, old(self).index as int, byte as int),
        ensures
            text::optional_str(r) == link_url(markdown::link_views(links@), byte as int),
            links_passed(links@, final(self).index as int, byte as int),
    {
        let ghost views = markdown::link_views(links@);
        while self.index < links.len() && byte >= links[self.index].end_byte
            invariant
                links_passed(links@, self.index as int, byte as int),
            decreases links@.len() - self.index,
        {
            self.index = self.index + 1;
        }
        proof {
            assert forall|i: int| 0 <= i < self.index implies (#[trigger] views[i]).end_byte
                <= byte by {
                assert(links@[i].end_byte <= byte);
            }
            lemma_open_link(views, byte as int, 0, self.index as int);
        }
        if self.index < links.len() && links[self.index].start_byte <= byte {
            Some(links[self.index].url.as_str())
        } else {
            None
        }
    }
}

/// The runs among the first `n` that fit the text and do not reach back over
/// one that was kept.
pub open spec fn fitting_runs(s: Seq<char>, runs: Seq<StyleRun>, n: int) -> Seq<StyleRun>
    decreases n,
{
    if n <= 0 {
        Seq::empty()
    } else {
        let before = fitting_runs(s, runs, n - 1);
        let run = runs[n - 1];
        if style::run_fits(s, run) && (before.len() == 0 || before.last().end_byte
            <= run.start_byte) {
            before.push(run)
        } else {
            before
        }
    }
}

/// The runs of a styled text that can be drawn.
pub open spec fn drawable_runs(source: style::StyledView) -> Seq<StyleRun> {
    fitting_runs(source.text, source.runs, source.runs.len() as int)
}

pub fn valid_runs(source: &StyledText) -> (r: Vec<StyleRun>)
    ensures
        r@ == drawable_runs(source@),
{
    let mut previous_end: usize = 0;
    let mut r: Vec<StyleRun> = Vec::new();
    let mut i: usize = 0;
    while i < source.runs.len()
        invariant
            i <= source.runs@.len(),
            r@ == fitting_runs(source.text@, source.runs@, i as int),
            r@.len() == 0 ==> previous_end == 0,
            r@.len() > 0 ==> previous_end == r@.last().end_byte,
        decreases source.runs@.len() - i,
    {
        let run: StyleRun = source.runs[i];
        if style::run_fits_text(source.text.as_str(), &run) && run.start_byte >= previous_end {
            previous_end = run.end_byte;
            r.push(run);
        }
        i = i + 1;
    }
    r
}

proof fn lemma_fitting_runs_valid(s: Seq<char>, runs: Seq<StyleRun>, n: int)
    ensures
        style::runs_valid(s, fitting_runs(s, runs, n)),
    decreases n,
{
    if n > 0 {
        lemma_fitting_runs_valid(s, runs, n - 1);
        let before = fitting_runs(s, runs, n - 1);
        let here = fitting_runs(s, runs, n);
        assert forall|i: int| 0 <= i < here.len() implies style::run_fits(s, #[trigger] here[i]) by {
            if i < before.len() {
                assert(here[i] == before[i]);
            }
        }
        assert forall|i: int, j: int| 0 <= i < j < here.len() implies (#[trigger] here[i]).end_byte
            <= (#[trigger] here[j]).start_byte by {
            assert(here[i] == before[i]);
            if j < before.len() {
                assert(here[j] == before[j]);
            } else if i < before.len() - 1 {
                assert(before[i].end_byte <= before[before.len() - 1].start_byte);
                assert(style::run_fits(s, before[before.len() - 1]));
            }
        }
    }
}

/// Only runs that describe the text are drawn, whatever runs there were.
pub proof fn lemma_drawable_runs_are_valid(source: style::StyledView)
    ensures
        style::runs_valid(source.text, drawable_runs(source)),
{
    lemma_fitting_runs_valid(source.text, source.runs, source.runs.len() as int);
}

// ---------------------------------------------------------------------------
// Wrapping styled text
// ---------------------------------------------------------------------------

/// The style of each character.
pub open spec fn char_styles(s: Seq<char>, runs: Seq<StyleRun>) -> Seq<CellStyle> {
    Seq::new(s.len(), |i: int| run_style(runs, text::byte_at(s, i) as int))
}

/// The link of each character.
pub open spec fn char_links(s: Seq<char>, links: Seq<markdown::LinkView>) -> Seq<Option<Seq<char>>> {
    Seq::new(s.len(), |i: int| link_url(links, text::byte_at(s, i) as int))
}

/// The rows of the first `n` characters.
pub open spec fn styled_upto(
    s: Seq<char>,
    styles: Seq<CellStyle>,
    links: Seq<Option<Seq<char>>>,
    width: nat,
    n: int,
) -> Seq<RowView>
    decreases n,
{
    if n <= 0 {
        seq![bare_row(None)]
    } else {
        let before = styled_upto(s, styles, links, width, n - 1);
        if s[n - 1] == '\n' {
            before.push(bare_row(None))
        } else if wrap::breaks_at(s, width, n - 1) {
            before.push(push_cell(bare_row(None), s[n - 1], styles[n - 1], links[n - 1]))
        } else {
            before.drop_last().push(
                push_cell(before.last(), s[n - 1], styles[n - 1], links[n - 1]),
            )
        }
    }
}

/// A styled text with links, wrapped into rows.
pub open spec fn styled_rows(
    source: style::StyledView,
    links: Seq<markdown::LinkView>,
    width: nat,
) -> Seq<RowView> {
    styled_upto(
        source.text,
        char_styles(source.text, drawable_runs(source)),
        char_links(source.text, links),
        wrap::at_least_one(width),
        source.text.len() as int,
    )
}

proof fn lemma_styled_upto_is_unfilled(
    s: Seq<char>,
    styles: Seq<CellStyle>,
    links: Seq<Option<Seq<char>>>,
    width: nat,
    n: int,
)
    ensures
        styled_upto(s, styles, links, width, n).len() > 0,
        forall|i: int|
            0 <= i < styled_upto(s, styles, links, width, n).len() ==> (#[trigger] styled_upto(
                s,
                styles,
                links,
                width,
                n,
            )[i]).fill is None,
    decreases n,
{
    if n > 0 {
        lemma_styled_upto_is_unfilled(s, styles, links, width, n - 1);
        let before = styled_upto(s, styles, links, width, n - 1);
        let here = styled_upto(s, styles, links, width, n);
        assert(before[before.len() - 1].fill is None);
        assert forall|i: int| 0 <= i < here.len() implies (#[trigger] here[i]).fill is None by {
            if i < before.len() - 1 {
                assert(here[i] == before[i]);
            } else if i < here.len() - 1 {
                assert(here[i] == before[i]);
            }
        }
    }
}

/// A text takes one row at least, and none of its rows has a fill of its own.
pub proof fn lemma_styled_rows_are_unfilled(
    source: style::StyledView,
    links: Seq<markdown::LinkView>,
    width: nat,
)
    ensures
        styled_rows(source, links, width).len() > 0,
        forall|i: int|
            0 <= i < styled_rows(source, links, width).len() ==> (#[trigger] styled_rows(
                source,
                links,
                width,
            )[i]).fill is None,
{
    lemma_styled_upto_is_unfilled(
        source.text,
        char_styles(source.text, drawable_runs(source)),
        char_links(source.text, links),
        wrap::at_least_one(width),
        source.text.len() as int,
    );
}

/// Wraps styled text into rows of at most `width` columns.
pub fn wrap_styled_with_hyperlinks(
    source: &StyledText,
    hyperlinks: &Vec<HyperlinkRange>,
    width: usize,
) -> (r: Vec<VisualRow>)
    ensures
        row_views(r@) == styled_rows(source@, markdown::link_views(hyperlinks@), width as nat),
{
    let width: usize = if width == 0 {
        1
    } else {
        width
    };
    let runs: Vec<StyleRun> = valid_runs(source);
    let chars: Vec<char> = text::chars_of(source.text.as_str());
    let offsets: Vec<usize> = text::byte_offsets(source.text.as_str(), &chars);
    let ghost s = source.text@;
    let ghost looks = char_styles(s, runs@);
    let ghost links = char_links(s, markdown::link_views(hyperlinks@));
    proof {
        assert(offsets@[s.len() as int] == text::byte_at(s, s.len() as int));
        text::lemma_byte_at_ends(s);
    }
    let mut styles: StyleCursor = StyleCursor::new();
    let mut urls: HyperlinkCursor = HyperlinkCursor::new();
    let mut rows: Vec<VisualRow> = Vec::new();
    let mut row: VisualRow = VisualRow::empty(None);
    let mut used: usize = 0;
    let mut i: usize = 0;
    assert(row_views(rows@).push(row@) =~= styled_upto(s, looks, links, width as nat, 0));
    while i < chars.len()
        invariant
            s == source.text@,
            chars@ == s,
            looks == char_styles(s, runs@),
            links == char_links(s, markdown::link_views(hyperlinks@)),
            text::byte_len(s) <= usize::MAX,
            offsets@.len() == s.len() + 1,
            forall|k: int| 0 <= k <= s.len() ==> #[trigger] offsets@[k] == text::byte_at(s, k),
            width > 0,
            i <= s.len(),
            used == wrap::used_after(s, width as nat, i as int),
            used <= text::byte_at(s, i as int),
            runs_passed(runs@, styles.index as int, text::byte_at(s, i as int) as int),
            links_passed(hyperlinks@, urls.index as int, text::byte_at(s, i as int) as int),
            row_views(rows@).push(row@) == styled_upto(s, looks, links, width as nat, i as int),
        decreases s.len() - i,
    {
        let ghost done = row_views(rows@);
        let ghost open = row@;
        proof {
            text::lemma_byte_at_step(s, i as int);
        }
        let c: char = chars[i];
        if c == '\n' {
            rows.push(row);
            assert(row_views(rows@) =~= done.push(open));
            row = VisualRow::empty(None);
            used = 0;
        } else {
            let style: CellStyle = styles.style_at(&runs, offsets[i]);
            let url: Option<&str> = urls.url_at(hyperlinks, offsets[i]);
            if wrap::breaks_row(&chars, i, width, used) {
                rows.push(row);
                assert(row_views(rows@) =~= done.push(open));
                row = VisualRow::empty(None);
                used = 0;
            }
            assert(offsets@[i + 1] == text::byte_at(s, i + 1));
            row.push_char(c, style, url);
            used = used + width::width_of(c);
        }
        i = i + 1;
        assert(row_views(rows@).push(row@) =~= styled_upto(s, looks, links, width as nat, i as int));
    }
    let ghost done = row_views(rows@);
    let ghost open = row@;
    rows.push(row);
    assert(row_views(rows@) =~= done.push(open));
    rows
}

/// Wraps styled text without links.
pub fn wrap_styled(source: &StyledText, width: usize) -> (r: Vec<VisualRow>)
    ensures
        row_views(r@) == styled_rows(source@, Seq::empty(), width as nat),
{
    let none: Vec<HyperlinkRange> = Vec::new();
    assert(markdown::link_views(none@) =~= Seq::<markdown::LinkView>::empty());
    wrap_styled_with_hyperlinks(source, &none, width)
}

proof fn lemma_joined_push(texts: Seq<Seq<char>>, t: Seq<char>)
    ensures
        wrap::joined_rows(texts.push(t)) == wrap::joined_rows(texts) + t,
{
    assert(texts.push(t).drop_last() =~= texts);
}

proof fn lemma_plain_of_pushed(row: RowView, c: char, style: CellStyle, link: Option<Seq<char>>)
    ensures
        plain_of(push_cell(row, c, style, link)) == plain_of(row).push(c),
{
    let after = push_cell(row, c, style, link);
    let spans = row.spans;
    if spans.len() > 0 && spans.last().style == style && spans.last().hyperlink == link {
        let rest = span_texts(spans.drop_last());
        assert(span_texts(spans) =~= rest.push(spans.last().text));
        assert(span_texts(after.spans) =~= rest.push(spans.last().text.push(c)));
        lemma_joined_push(rest, spans.last().text);
        lemma_joined_push(rest, spans.last().text.push(c));
        assert(plain_of(after) =~= plain_of(row).push(c));
    } else {
        assert(span_texts(after.spans) =~= span_texts(spans).push(seq![c]));
        lemma_joined_push(span_texts(spans), seq![c]);
        assert(plain_of(after) =~= plain_of(row).push(c));
    }
}

/// What rows read.
pub open spec fn plain_rows(rows: Seq<RowView>) -> Seq<Seq<char>> {
    Seq::new(rows.len(), |i: int| plain_of(rows[i]))
}

proof fn lemma_styled_upto_reads_as_plain(
    s: Seq<char>,
    styles: Seq<CellStyle>,
    links: Seq<Option<Seq<char>>>,
    width: nat,
    n: int,
)
    requires
        0 <= n <= s.len(),
    ensures
        plain_rows(styled_upto(s, styles, links, width, n)) == wrap::rows_upto(s, width, n),
        styled_upto(s, styles, links, width, n).len() > 0,
    decreases n,
{
    let here = styled_upto(s, styles, links, width, n);
    assert(span_texts(Seq::<SpanView>::empty()) =~= Seq::<Seq<char>>::empty());
    assert(plain_of(bare_row(None)) =~= Seq::<char>::empty());
    if n == 0 {
        assert(plain_rows(here) =~= wrap::rows_upto(s, width, n));
    } else {
        lemma_styled_upto_reads_as_plain(s, styles, links, width, n - 1);
        let before = styled_upto(s, styles, links, width, n - 1);
        let plain = wrap::rows_upto(s, width, n - 1);
        let c = s[n - 1];
        lemma_plain_of_pushed(before.last(), c, styles[n - 1], links[n - 1]);
        lemma_plain_of_pushed(bare_row(None), c, styles[n - 1], links[n - 1]);
        assert(Seq::<char>::empty().push(c) =~= seq![c]);
        assert(plain_of(before.last()) == plain_rows(before)[before.len() - 1]);
        assert forall|i: int| 0 <= i < before.len() implies plain_of(#[trigger] before[i])
            == plain[i] by {
            assert(plain_rows(before)[i] == plain[i]);
        }
        assert(plain_rows(here) =~= wrap::rows_upto(s, width, n));
    }
}

/// Styled text breaks into the same rows as the plain text it reads: what is
/// drawn and where the cursor goes cannot drift apart.
pub proof fn lemma_styled_rows_read_as_plain_rows(
    source: style::StyledView,
    links: Seq<markdown::LinkView>,
    width: nat,
)
    ensures
        plain_rows(styled_rows(source, links, width)) == wrap::wrapped_rows(source.text, width),
{
    lemma_styled_upto_reads_as_plain(
        source.text,
        char_styles(source.text, drawable_runs(source)),
        char_links(source.text, links),
        wrap::at_least_one(width),
        source.text.len() as int,
    );
}

}
