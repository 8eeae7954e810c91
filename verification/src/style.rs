//! Styled terminal text: colors, modifiers and the byte ranges they cover.

use crate::text;
use vstd::prelude::*;
use vstd::utf8::*;

verus! {

#[derive(Clone, Copy, Debug, PartialEq, Eq, Hash, Structural)]
pub enum AnsiColor {
    Black,
    Red,
    Green,
    Yellow,
    Blue,
    Magenta,
    Cyan,
    White,
    BrightBlack,
    BrightRed,
    BrightGreen,
    BrightYellow,
    BrightBlue,
    BrightMagenta,
    BrightCyan,
    BrightWhite,
    Indexed(u8),
    Rgb(u8, u8, u8),
}

#[derive(Clone, Copy, Debug, PartialEq, Eq, Hash, Structural)]
pub struct StyleModifiers {
    pub bold: bool,
    pub dim: bool,
    pub italic: bool,
    pub underline: bool,
    pub reverse: bool,
}

/// No modifier at all.
pub open spec fn no_modifiers() -> StyleModifiers {
    StyleModifiers { bold: false, dim: false, italic: false, underline: false, reverse: false }
}

impl Default for StyleModifiers {
    fn default() -> (r: Self)
        ensures
            r == no_modifiers(),
    {
        StyleModifiers { bold: false, dim: false, italic: false, underline: false, reverse: false }
    }
}

/// The style a terminal writes with at one moment.
#[derive(Clone, Copy, Debug, PartialEq, Eq, Hash, Structural)]
pub struct StyleState {
    pub foreground: Option<AnsiColor>,
    pub background: Option<AnsiColor>,
    pub modifiers: StyleModifiers,
}

/// The style before anything was set.
pub open spec fn plain_style() -> StyleState {
    StyleState { foreground: None, background: None, modifiers: no_modifiers() }
}

impl Default for StyleState {
    fn default() -> (r: Self)
        ensures
            r == plain_style(),
    {
        StyleState { foreground: None, background: None, modifiers: StyleModifiers::default() }
    }
}

/// A byte range of a text and the style it is written in.
#[derive(Clone, Copy, Debug, PartialEq, Eq, Hash, Structural)]
pub struct StyleRun {
    pub start_byte: usize,
    pub end_byte: usize,
    pub foreground: Option<AnsiColor>,
    pub background: Option<AnsiColor>,
    pub modifiers: StyleModifiers,
}

impl StyleRun {
    pub open spec fn style_spec(self) -> StyleState {
        StyleState {
            foreground: self.foreground,
            background: self.background,
            modifiers: self.modifiers,
        }
    }

    /// The style of the run without its place.
    pub fn style(&self) -> (r: StyleState)
        ensures
            r == self.style_spec(),
    {
        StyleState {
            foreground: self.foreground,
            background: self.background,
            modifiers: self.modifiers,
        }
    }
}

/// A run of `style` over a byte range.
pub open spec fn run_over(start: nat, end: nat, style: StyleState) -> StyleRun {
    StyleRun {
        start_byte: start as usize,
        end_byte: end as usize,
        foreground: style.foreground,
        background: style.background,
        modifiers: style.modifiers,
    }
}

#[derive(Clone, Debug, PartialEq, Eq)]
pub struct StyledText {
    pub text: String,
    pub runs: Vec<StyleRun>,
}

impl Default for StyledText {
    fn default() -> (r: Self)
        ensures
            r.text@ == Seq::<char>::empty(),
            r.runs@ == Seq::<StyleRun>::empty(),
    {
        StyledText { text: String::new(), runs: Vec::new() }
    }
}

/// What a styled text says: its characters and its runs.
pub ghost struct StyledView {
    pub text: Seq<char>,
    pub runs: Seq<StyleRun>,
}

impl View for StyledText {
    type V = StyledView;

    open spec fn view(&self) -> StyledView {
        StyledView { text: self.text@, runs: self.runs@ }
    }
}

impl StyledText {
    /// The same text with the same runs.
    pub fn copied(&self) -> (r: Self)
        ensures
            r@ == self@,
    {
        StyledText { text: self.text.clone(), runs: copy_runs(&self.runs) }
    }
}

pub fn copy_runs(runs: &Vec<StyleRun>) -> (r: Vec<StyleRun>)
    ensures
        r@ == runs@,
{
    let mut r: Vec<StyleRun> = Vec::new();
    let mut i: usize = 0;
    while i < runs.len()
        invariant
            i <= runs@.len(),
            r@ == runs@.take(i as int),
        decreases runs@.len() - i,
    {
        r.push(runs[i]);
        assert(runs@.take(i + 1) =~= runs@.take(i as int).push(runs@[i as int]));
        i = i + 1;
    }
    assert(runs@.take(runs@.len() as int) =~= runs@);
    r
}

/// How an answer is shown.
#[derive(Clone, Debug, PartialEq, Eq)]
pub enum MessagePresentation {
    Plain,
    MarkdownFallback,
    NativeAnsi(StyledText),
}

pub ghost enum PresentationView {
    Plain,
    MarkdownFallback,
    NativeAnsi(StyledView),
}

impl View for MessagePresentation {
    type V = PresentationView;

    open spec fn view(&self) -> PresentationView {
        match self {
            MessagePresentation::Plain => PresentationView::Plain,
            MessagePresentation::MarkdownFallback => PresentationView::MarkdownFallback,
            MessagePresentation::NativeAnsi(styled) => PresentationView::NativeAnsi(styled@),
        }
    }
}

// ---------------------------------------------------------------------------
// Runs
// ---------------------------------------------------------------------------

/// Whether a byte offset falls between two characters of a text, or at an end.
pub open spec fn on_boundary(s: Seq<char>, b: int) -> bool {
    exists|i: int| 0 <= i <= s.len() && #[trigger] text::byte_at(s, i) == b
}

/// Whether one run of a text covers something, whole characters and no more
/// than the text holds.
pub open spec fn run_fits(s: Seq<char>, run: StyleRun) -> bool {
    &&& run.start_byte < run.end_byte <= text::byte_len(s)
    &&& on_boundary(s, run.start_byte as int)
    &&& on_boundary(s, run.end_byte as int)
}

/// Whether the runs describe the text: each fits it, and they follow one
/// another without overlap.
pub open spec fn runs_valid(s: Seq<char>, runs: Seq<StyleRun>) -> bool {
    &&& forall|i: int| 0 <= i < runs.len() ==> run_fits(s, #[trigger] runs[i])
    &&& forall|i: int, j: int|
        0 <= i < j < runs.len() ==> (#[trigger] runs[i]).end_byte <= (#[trigger] runs[j]).start_byte
}

/// One more run at the end. A run that continues the last one in the same style
/// makes it longer.
pub open spec fn merge_run(runs: Seq<StyleRun>, run: StyleRun) -> Seq<StyleRun> {
    if runs.len() > 0 && runs.last().end_byte == run.start_byte && runs.last().style_spec()
        == run.style_spec() {
        runs.drop_last().push(run_over(runs.last().start_byte as nat, run.end_byte as nat, run.style_spec()))
    } else {
        runs.push(run)
    }
}

/// Appends a run, joining it to the last one where it continues it.
pub fn push_run(runs: &mut Vec<StyleRun>, run: StyleRun)
    ensures
        final(runs)@ == merge_run(old(runs)@, run),
{
    let n: usize = runs.len();
    if n > 0 {
        let last: StyleRun = runs[n - 1];
        if last.end_byte == run.start_byte && last.style() == run.style() {
            let joined = StyleRun {
                start_byte: last.start_byte,
                end_byte: run.end_byte,
                foreground: run.foreground,
                background: run.background,
                modifiers: run.modifiers,
            };
            runs.set(n - 1, joined);
            assert(runs@ =~= merge_run(old(runs)@, run));
            return;
        }
    }
    runs.push(run);
}

/// The runs that give the first `n` characters of a text their styles: the
/// longest stretches of one style, and none where nothing was set.
pub open spec fn runs_of(s: Seq<char>, styles: Seq<StyleState>, n: int) -> Seq<StyleRun>
    decreases n,
{
    if n <= 0 {
        Seq::empty()
    } else if styles[n - 1] == plain_style() {
        runs_of(s, styles, n - 1)
    } else {
        merge_run(
            runs_of(s, styles, n - 1),
            run_over(text::byte_at(s, n - 1), text::byte_at(s, n), styles[n - 1]),
        )
    }
}

pub proof fn lemma_runs_of_depends_on_prefix(
    s: Seq<char>,
    t: Seq<char>,
    styles: Seq<StyleState>,
    others: Seq<StyleState>,
    n: int,
)
    requires
        0 <= n <= s.len(),
        n <= t.len(),
        n <= styles.len(),
        n <= others.len(),
        s.take(n) == t.take(n),
        styles.take(n) == others.take(n),
    ensures
        runs_of(s, styles, n) == runs_of(t, others, n),
    decreases n,
{
    if n > 0 {
        assert(s.take(n - 1) =~= s.take(n).take(n - 1));
        assert(t.take(n - 1) =~= t.take(n).take(n - 1));
        assert(styles.take(n - 1) =~= styles.take(n).take(n - 1));
        assert(others.take(n - 1) =~= others.take(n).take(n - 1));
        lemma_runs_of_depends_on_prefix(s, t, styles, others, n - 1);
        assert(styles[n - 1] == styles.take(n)[n - 1]);
        assert(others[n - 1] == others.take(n)[n - 1]);
    }
}

/// The runs of a text whose every character has a style are valid for it.
pub proof fn lemma_runs_of_valid(s: Seq<char>, styles: Seq<StyleState>, n: int)
    requires
        0 <= n <= s.len(),
        text::byte_len(s) <= usize::MAX,
    ensures
        runs_valid(s, runs_of(s, styles, n)),
        forall|i: int|
            0 <= i < runs_of(s, styles, n).len() ==> (#[trigger] runs_of(s, styles, n)[i]).end_byte
                <= text::byte_at(s, n),
    decreases n,
{
    if n > 0 {
        lemma_runs_of_valid(s, styles, n - 1);
        text::lemma_byte_at_step(s, n - 1);
        text::lemma_byte_at_monotone(s, n, s.len() as int);
        let prev = runs_of(s, styles, n - 1);
        let here = runs_of(s, styles, n);
        assert(on_boundary(s, text::byte_at(s, n - 1) as int));
        assert(on_boundary(s, text::byte_at(s, n) as int));
        if styles[n - 1] != plain_style() {
            assert forall|i: int| 0 <= i < here.len() implies run_fits(s, #[trigger] here[i])
                && here[i].end_byte <= text::byte_at(s, n) by {
                if i < prev.len() {
                    assert(run_fits(s, prev[i]));
                }
            }
            assert forall|i: int, j: int| 0 <= i < j < here.len() implies (
            #[trigger] here[i]).end_byte <= (#[trigger] here[j]).start_byte by {
                if j < prev.len() {
                    assert(prev[i].end_byte <= prev[j].start_byte);
                } else {
                    assert(prev[i].end_byte <= text::byte_at(s, n - 1));
                }
            }
        }
    }
}

/// Whether some runs draw the character at a byte in this style: in this color,
/// on this one, and with these modifiers, all of them.
pub open spec fn drawn_in(runs: Seq<StyleRun>, byte: int, look: StyleState) -> bool {
    exists|i: int|
        0 <= i < runs.len() && (#[trigger] runs[i]).start_byte <= byte < runs[i].end_byte
            && runs[i].foreground == look.foreground && runs[i].background == look.background
            && runs[i].modifiers == look.modifiers
}

/// Whether every run covers something.
pub open spec fn none_is_empty(runs: Seq<StyleRun>) -> bool {
    forall|i: int| 0 <= i < runs.len() ==> (#[trigger] runs[i]).start_byte < runs[i].end_byte
}

/// Whether one run draws the character at a byte in this style.
pub open spec fn run_draws(run: StyleRun, byte: int, look: StyleState) -> bool {
    run.start_byte <= byte < run.end_byte && run.foreground == look.foreground && run.background
        == look.background && run.modifiers == look.modifiers
}

/// One more run draws what it covers, and leaves the rest as it is drawn.
pub proof fn lemma_merged_looks(runs: Seq<StyleRun>, run: StyleRun, byte: int, look: StyleState)
    requires
        none_is_empty(runs),
        run.start_byte < run.end_byte,
    ensures
        none_is_empty(merge_run(runs, run)),
        drawn_in(merge_run(runs, run), byte, look) <==> drawn_in(runs, byte, look)
            || run_draws(run, byte, look),
{
    let merged = merge_run(runs, run);
    let n = runs.len() - 1;
    let joins = runs.len() > 0 && runs.last().end_byte == run.start_byte && runs.last().style_spec()
        == run.style_spec();
    assert forall|i: int| 0 <= i < merged.len() implies (#[trigger] merged[i]).start_byte
        < merged[i].end_byte by {
        if i < n || (i == n && !joins) {
            assert(merged[i] == runs[i]);
        } else if joins {
            assert(runs[n].start_byte < runs[n].end_byte);
        }
    }
    if drawn_in(merged, byte, look) {
        let i = choose|i: int|
            0 <= i < merged.len() && (#[trigger] merged[i]).start_byte <= byte < merged[i].end_byte
                && merged[i].foreground == look.foreground && merged[i].background
                == look.background && merged[i].modifiers == look.modifiers;
        if i < n || (i == n && !joins) {
            assert(merged[i] == runs[i]);
            assert(drawn_in(runs, byte, look));
        } else if joins {
            if byte < run.start_byte {
                assert(runs[n].start_byte <= byte < runs[n].end_byte);
                assert(drawn_in(runs, byte, look));
            }
        }
    }
    if drawn_in(runs, byte, look) {
        let i = choose|i: int|
            0 <= i < runs.len() && (#[trigger] runs[i]).start_byte <= byte < runs[i].end_byte
                && runs[i].foreground == look.foreground && runs[i].background == look.background
                && runs[i].modifiers == look.modifiers;
        assert(merged[i].start_byte <= byte < merged[i].end_byte);
    }
    if run_draws(run, byte, look) {
        if joins {
            assert(runs[n].start_byte < runs[n].end_byte);
            assert(merged[n].start_byte <= byte < merged[n].end_byte);
        } else {
            assert(merged[runs.len() as int] == run);
        }
    }
}

/// How the character at a byte is drawn: as a run that covers it says, and plainly
/// where none does.
pub open spec fn look_at(runs: Seq<StyleRun>, byte: int, look: StyleState) -> bool {
    drawn_in(runs, byte, look) || (look == plain_style() && forall|other: StyleState|
        !#[trigger] drawn_in(runs, byte, other))
}

/// Runs that are made for a text give each of its characters its own style and no
/// other: they draw it in that style, and not at all where that is the plain one.
pub proof fn lemma_runs_draw_every_style(
    s: Seq<char>,
    styles: Seq<StyleState>,
    n: int,
    i: int,
    look: StyleState,
)
    requires
        0 <= n <= s.len(),
        0 <= i < s.len(),
        text::byte_len(s) <= usize::MAX,
    ensures
        none_is_empty(runs_of(s, styles, n)),
        drawn_in(runs_of(s, styles, n), text::byte_at(s, i) as int, look) <==> i < n && look
            == styles[i] && look != plain_style(),
    decreases n,
{
    if n > 0 {
        lemma_runs_draw_every_style(s, styles, n - 1, i, look);
        text::lemma_byte_at_step(s, n - 1);
        text::lemma_byte_at_monotone(s, n, s.len() as int);
        let byte = text::byte_at(s, i) as int;
        if i < n - 1 {
            text::lemma_byte_at_monotone(s, i, n - 1);
        } else if i >= n {
            text::lemma_byte_at_monotone(s, n, i);
        }
        if styles[n - 1] != plain_style() {
            let run = run_over(text::byte_at(s, n - 1), text::byte_at(s, n), styles[n - 1]);
            lemma_merged_looks(runs_of(s, styles, n - 1), run, byte, look);
            assert(run_draws(run, byte, look) <==> i == n - 1 && look == styles[n - 1]);
        }
    }
}

proof fn lemma_boundary_is_char_boundary(s: Seq<char>, b: int)
    ensures
        is_char_boundary(encode_utf8(s), b) == on_boundary(s, b),
    decreases s.len(),
{
    let bytes = encode_utf8(s);
    encode_utf8_valid_utf8(s);
    text::lemma_byte_at_ends(s);
    if b == 0 {
        assert(text::byte_at(s, 0) == b);
    } else if b < 0 || bytes.len() < b {
        if on_boundary(s, b) {
            let i = choose|i: int| 0 <= i <= s.len() && #[trigger] text::byte_at(s, i) == b;
            text::lemma_byte_at_monotone(s, i, s.len() as int);
        }
    } else {
        assert(s.len() > 0);
        encode_utf8_first_scalar(s);
        let rest = s.drop_first();
        assert(pop_first_scalar(bytes) =~= encode_utf8(rest));
        lemma_boundary_is_char_boundary(rest, b - length_of_first_scalar(bytes));
        let step = length_of_first_scalar(bytes);
        assert(step == text::byte_at(s, 1)) by {
            text::lemma_byte_at_step(s, 0);
            char_is_scalar(s[0]);
        }
        assert forall|i: int| 0 <= i <= rest.len() implies #[trigger] text::byte_at(rest, i) + step
            == text::byte_at(s, i + 1) by {
            assert(s.take(i + 1) =~= s.take(1) + rest.take(i));
            text::lemma_byte_len_concat(s.take(1), rest.take(i));
        }
        if on_boundary(s, b) {
            let i = choose|i: int| 0 <= i <= s.len() && #[trigger] text::byte_at(s, i) == b;
            assert(i > 0);
            assert(text::byte_at(rest, i - 1) + step == text::byte_at(s, i));
        }
        if on_boundary(rest, b - step) {
            let i = choose|i: int| 0 <= i <= rest.len() && #[trigger] text::byte_at(rest, i) == b - step;
            assert(text::byte_at(s, i + 1) == b);
        }
    }
}

/// Whether a byte offset falls between two characters of a text.
pub fn is_boundary(s: &str, b: usize) -> (r: bool)
    ensures
        r == on_boundary(s@, b as int),
{
    proof {
        lemma_boundary_is_char_boundary(s@, b as int);
    }
    s.is_char_boundary(b)
}

/// Whether one run fits a text.
pub fn run_fits_text(s: &str, run: &StyleRun) -> (r: bool)
    ensures
        r == run_fits(s@, *run),
{
    run.start_byte < run.end_byte && run.end_byte <= text::byte_count(s) && is_boundary(
        s,
        run.start_byte,
    ) && is_boundary(s, run.end_byte)
}

/// Whether the runs of a styled text describe its text.
pub fn valid_styled_text(styled: &StyledText) -> (r: bool)
    ensures
        r == runs_valid(styled.text@, styled.runs@),
{
    let mut previous_end: usize = 0;
    let mut i: usize = 0;
    while i < styled.runs.len()
        invariant
            i <= styled.runs@.len(),
            i == 0 ==> previous_end == 0,
            i > 0 ==> previous_end == styled.runs@[i - 1].end_byte,
            runs_valid(styled.text@, styled.runs@.take(i as int)),
        decreases styled.runs@.len() - i,
    {
        let run: StyleRun = styled.runs[i];
        if !run_fits_text(styled.text.as_str(), &run) {
            assert(!run_fits(styled.text@, styled.runs@[i as int]));
            return false;
        }
        if run.start_byte < previous_end {
            assert(styled.runs@[i - 1].end_byte > styled.runs@[i as int].start_byte);
            return false;
        }
        proof {
            let before = styled.runs@.take(i as int);
            let after = styled.runs@.take(i + 1);
            assert forall|a: int| 0 <= a < after.len() implies run_fits(
                styled.text@,
                #[trigger] after[a],
            ) by {
                if a < i {
                    assert(after[a] == before[a]);
                }
            }
            assert forall|a: int, b: int| 0 <= a < b < after.len() implies (
            #[trigger] after[a]).end_byte <= (#[trigger] after[b]).start_byte by {
                assert(after[a] == before[a]);
                if b < i {
                    assert(after[b] == before[b]);
                } else if a < i - 1 {
                    assert(before[a].end_byte <= before[i - 1].start_byte);
                    assert(run_fits(styled.text@, before[i - 1]));
                }
            }
        }
        previous_end = run.end_byte;
        i = i + 1;
    }
    assert(styled.runs@.take(styled.runs@.len() as int) =~= styled.runs@);
    true
}

}
