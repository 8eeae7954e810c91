//! Only the one answer at the tail of a pane is taken for the answer.

use super::captured;
use super::native_final;
use super::native_final::TrailingRule;
use crate::agent::AgentKind;
use crate::footers;
use crate::native_chrome;
use crate::style;
use crate::style::StyleRun;
use crate::text;
use crate::text::LineRange;
use vstd::prelude::*;

verus! {

// ---------------------------------------------------------------------------
// How often an answer is shown
// ---------------------------------------------------------------------------

proof fn lemma_one_block_one_candidate(
    s: Seq<char>,
    runs: Seq<StyleRun>,
    lines: Seq<LineRange>,
    expected: Seq<char>,
    chrome: native_final::ChromeView,
    n: int,
    b: int,
)
    requires
        0 <= b,
        native_final::strict_at(s, lines, expected, chrome, b),
        forall|k: int|
            0 <= k < n && k != b ==> !#[trigger] native_final::strict_at(
                s,
                lines,
                expected,
                chrome,
                k,
            ),
    ensures
        native_final::strict_candidates(s, runs, lines, expected, chrome, n).len() == (if b < n {
            1nat
        } else {
            0nat
        }),
        b < n ==> native_final::strict_candidates(s, runs, lines, expected, chrome, n)[0].composer
            == b + 2 + text::pieces(expected, '\n').len(),
    decreases n,
{
    if n > 0 {
        lemma_one_block_one_candidate(s, runs, lines, expected, chrome, n - 1, b);
    }
}

proof fn lemma_block_is_listed(
    s: Seq<char>,
    runs: Seq<StyleRun>,
    lines: Seq<LineRange>,
    expected: Seq<char>,
    chrome: native_final::ChromeView,
    n: int,
    b: int,
)
    requires
        0 <= b < n,
        native_final::strict_at(s, lines, expected, chrome, b),
    ensures
        native_final::strict_candidates(s, runs, lines, expected, chrome, n).len() > 0,
    decreases n,
{
    if b < n - 1 {
        lemma_block_is_listed(s, runs, lines, expected, chrome, n - 1, b);
    }
}

proof fn lemma_two_blocks_two_candidates(
    s: Seq<char>,
    runs: Seq<StyleRun>,
    lines: Seq<LineRange>,
    expected: Seq<char>,
    chrome: native_final::ChromeView,
    n: int,
    a: int,
    b: int,
)
    requires
        0 <= a < b < n,
        native_final::strict_at(s, lines, expected, chrome, a),
        native_final::strict_at(s, lines, expected, chrome, b),
    ensures
        native_final::strict_candidates(s, runs, lines, expected, chrome, n).len() > 1,
    decreases n,
{
    if b < n - 1 {
        lemma_two_blocks_two_candidates(s, runs, lines, expected, chrome, n - 1, a, b);
    } else {
        lemma_block_is_listed(s, runs, lines, expected, chrome, n - 1, a);
    }
}

/// An answer that a pane shows twice is not taken from either place.
pub proof fn lemma_answer_shown_twice_is_not_taken(
    captured: style::StyledView,
    expected: Seq<char>,
    chrome: native_final::ChromeView,
    a: int,
    b: int,
)
    requires
        0 <= a < b < text::line_pieces(captured.text).len(),
        native_final::strict_at(
            captured.text,
            text::line_pieces(captured.text),
            expected,
            chrome,
            a,
        ),
        native_final::strict_at(
            captured.text,
            text::line_pieces(captured.text),
            expected,
            chrome,
            b,
        ),
    ensures
        native_final::native_final(captured, expected, chrome) is None,
{
    let lines = text::line_pieces(captured.text);
    lemma_two_blocks_two_candidates(
        captured.text,
        captured.runs,
        lines,
        expected,
        chrome,
        lines.len() as int,
        a,
        b,
    );
}

// ---------------------------------------------------------------------------
// What stands below it
// ---------------------------------------------------------------------------

/// Whether all that stands below the line at `c` is the agent's own chrome. Below a
/// composer of the one agent every line that holds something belongs to its footer, and
/// the footer opens with its first line; below one of the other no line opens like
/// something that it said.
pub open spec fn tail_is_chrome(
    s: Seq<char>,
    lines: Seq<LineRange>,
    chrome: native_final::ChromeView,
    c: int,
) -> bool {
    match chrome.trailing {
        TrailingRule::AgentFree => forall|k: int|
            c < k < lines.len() && !text::blank((#[trigger] lines[k]).of(s))
                ==> !native_chrome::opens_with_any(lines[k].of(s), chrome.role_prefixes),
        TrailingRule::KnownFooter => forall|k: int|
            c < k < lines.len() && !text::blank((#[trigger] lines[k]).of(s))
                ==> native_chrome::known_footer(lines[k].of(s)) || (
            native_chrome::footer_continuation(lines[k].of(s)) && !nothing_between(
                s,
                lines,
                c,
                k,
            )),
    }
}

/// Whether all lines between two are blank.
pub open spec fn nothing_between(s: Seq<char>, lines: Seq<LineRange>, c: int, k: int) -> bool {
    forall|j: int| c < j < k ==> text::blank((#[trigger] lines[j]).of(s))
}

proof fn lemma_filled_is_empty(s: Seq<char>, lines: Seq<LineRange>, from: int, n: int)
    requires
        forall|j: int| from <= j < n ==> text::blank((#[trigger] lines[j]).of(s)),
    ensures
        native_final::filled(s, lines, from, n).len() == 0,
    decreases n - from,
{
    if from < n {
        lemma_filled_is_empty(s, lines, from, n - 1);
    }
}

proof fn lemma_filled_holds(s: Seq<char>, lines: Seq<LineRange>, from: int, n: int, k: int) -> (i:
    int)
    requires
        from <= k < n,
        !text::blank(lines[k].of(s)),
    ensures
        0 <= i < native_final::filled(s, lines, from, n).len(),
        native_final::filled(s, lines, from, n)[i] == lines[k].of(s),
        nothing_between(s, lines, from - 1, k) <==> i == 0,
    decreases n - from,
{
    if k == n - 1 {
        let before = native_final::filled(s, lines, from, n - 1);
        if nothing_between(s, lines, from - 1, k) {
            lemma_filled_is_empty(s, lines, from, n - 1);
        } else {
            let j = choose|j: int| from - 1 < j < k && !text::blank((#[trigger] lines[j]).of(s));
            let _ = lemma_filled_holds(s, lines, from, n - 1, j);
        }
        before.len() as int
    } else {
        lemma_filled_holds(s, lines, from, n - 1, k)
    }
}

proof fn lemma_filled_comes_from(s: Seq<char>, lines: Seq<LineRange>, from: int, n: int, i: int) -> (k:
    int)
    requires
        0 <= i < native_final::filled(s, lines, from, n).len(),
    ensures
        from <= k < n,
        !text::blank(lines[k].of(s)),
        native_final::filled(s, lines, from, n)[i] == lines[k].of(s),
        nothing_between(s, lines, from - 1, k) <==> i == 0,
    decreases n - from,
{
    let before = native_final::filled(s, lines, from, n - 1);
    if i < before.len() {
        lemma_filled_comes_from(s, lines, from, n - 1, i)
    } else {
        let j = lemma_filled_holds(s, lines, from, n, n - 1);
        if i > 0 {
            let k = lemma_filled_comes_from(s, lines, from, n - 1, 0);
            assert(!text::blank(lines[k].of(s)));
        } else if !nothing_between(s, lines, from - 1, n - 1) {
            let k = choose|k: int|
                from - 1 < k < n - 1 && !text::blank((#[trigger] lines[k]).of(s));
            let _ = lemma_filled_holds(s, lines, from, n - 1, k);
        }
        n - 1
    }
}

proof fn lemma_chrome_only_is_the_tail(
    s: Seq<char>,
    lines: Seq<LineRange>,
    chrome: native_final::ChromeView,
    c: int,
)
    ensures
        native_final::chrome_only(
            native_final::filled(s, lines, c + 1, lines.len() as int),
            chrome,
        ) <==> tail_is_chrome(s, lines, chrome, c),
{
    let n = lines.len() as int;
    let held = native_final::filled(s, lines, c + 1, n);
    if native_final::chrome_only(held, chrome) {
        assert forall|k: int| c < k < n && !text::blank((#[trigger] lines[k]).of(s)) implies (
        match chrome.trailing {
            TrailingRule::AgentFree => !native_chrome::opens_with_any(
                lines[k].of(s),
                chrome.role_prefixes,
            ),
            TrailingRule::KnownFooter => native_chrome::known_footer(lines[k].of(s)) || (
            native_chrome::footer_continuation(lines[k].of(s)) && !nothing_between(
                s,
                lines,
                c,
                k,
            )),
        }) by {
            let i = lemma_filled_holds(s, lines, c + 1, n, k);
            assert(held[i] == lines[k].of(s));
        }
    }
    if tail_is_chrome(s, lines, chrome, c) {
        match chrome.trailing {
            TrailingRule::AgentFree => {
                assert forall|i: int| 0 <= i < held.len() implies !native_chrome::opens_with_any(
                    #[trigger] held[i],
                    chrome.role_prefixes,
                ) by {
                    let k = lemma_filled_comes_from(s, lines, c + 1, n, i);
                    assert(lines[k].of(s) == held[i]);
                }
            },
            TrailingRule::KnownFooter => {
                if held.len() > 0 {
                    let first = lemma_filled_comes_from(s, lines, c + 1, n, 0);
                    assert(lines[first].of(s) == held[0]);
                    assert(native_chrome::known_footer(held[0]));
                    assert forall|i: int| 1 <= i < held.len() implies native_chrome::known_footer(
                        #[trigger] held[i],
                    ) || native_chrome::footer_continuation(held[i]) by {
                        let k = lemma_filled_comes_from(s, lines, c + 1, n, i);
                        assert(lines[k].of(s) == held[i]);
                    }
                }
            },
        }
    }
}

// ---------------------------------------------------------------------------
// The one at the tail
// ---------------------------------------------------------------------------

proof fn lemma_strict_candidate_answers(
    s: Seq<char>,
    runs: Seq<StyleRun>,
    lines: Seq<LineRange>,
    expected: Seq<char>,
    chrome: native_final::ChromeView,
    n: int,
    j: int,
) -> (block: (int, int))
    requires
        expected.len() <= usize::MAX,
        0 <= j < native_final::strict_candidates(s, runs, lines, expected, chrome, n).len(),
    ensures
        captured::answered_at(s, lines, expected, chrome, block.0, block.1),
        native_final::strict_candidates(s, runs, lines, expected, chrome, n)[j].composer == block.1
            + 1,
    decreases n,
{
    let before = native_final::strict_candidates(s, runs, lines, expected, chrome, n - 1);
    if n > 0 && j < before.len() {
        lemma_strict_candidate_answers(s, runs, lines, expected, chrome, n - 1, j)
    } else {
        let count = text::pieces(expected, '\n').len() as int;
        text::lemma_pieces_within(expected, '\n');
        captured::lemma_strict_lines_read_as_the_answer(s, lines, expected, chrome, n - 1, count);
        assert(expected.take(expected.len() as int) =~= expected);
        assert(n - 1 + 1 == n && n - 1 + 1 + count == n + count);
        (n, n + count)
    }
}

proof fn lemma_reflow_candidate_at_answers(
    s: Seq<char>,
    runs: Seq<StyleRun>,
    lines: Seq<LineRange>,
    expected: Seq<char>,
    chrome: native_final::ChromeView,
    trailing: int,
    n: int,
    j: int,
) -> (first: int)
    requires
        n <= trailing,
        trailing + 1 < lines.len(),
        native_final::trailing_boundary(lines[trailing].of(s), chrome),
        native_final::composer_line(lines[trailing + 1].of(s), chrome),
        0 <= j < native_final::reflow_candidates_at(
            s,
            runs,
            lines,
            expected,
            chrome,
            trailing,
            n,
        ).len(),
    ensures
        captured::answered_at(s, lines, expected, chrome, first, trailing),
        native_final::reflow_candidates_at(
            s,
            runs,
            lines,
            expected,
            chrome,
            trailing,
            n,
        )[j].composer == trailing + 1,
    decreases n,
{
    let before = native_final::reflow_candidates_at(
        s,
        runs,
        lines,
        expected,
        chrome,
        trailing,
        n - 1,
    );
    if n > 0 && j < before.len() {
        lemma_reflow_candidate_at_answers(s, runs, lines, expected, chrome, trailing, n - 1, j)
    } else {
        n - 1
    }
}

proof fn lemma_reflow_candidate_answers(
    s: Seq<char>,
    runs: Seq<StyleRun>,
    lines: Seq<LineRange>,
    expected: Seq<char>,
    chrome: native_final::ChromeView,
    n: int,
    j: int,
) -> (block: (int, int))
    requires
        n <= lines.len(),
        0 <= j < native_final::reflow_candidates(s, runs, lines, expected, chrome, n).len(),
    ensures
        captured::answered_at(s, lines, expected, chrome, block.0, block.1),
        native_final::reflow_candidates(s, runs, lines, expected, chrome, n)[j].composer == block.1
            + 1,
    decreases n,
{
    let before = native_final::reflow_candidates(s, runs, lines, expected, chrome, n - 1);
    if n > 0 && j < before.len() {
        lemma_reflow_candidate_answers(s, runs, lines, expected, chrome, n - 1, j)
    } else {
        let first = lemma_reflow_candidate_at_answers(
            s,
            runs,
            lines,
            expected,
            chrome,
            n - 1,
            n - 1,
            j - before.len(),
        );
        (first, n - 1)
    }
}

/// An answer is taken only from the tail of a pane: it reads as the transcript does, a
/// boundary and the composer stand right below it, and below those nothing but the agent's
/// own chrome.
pub proof fn lemma_answer_stands_at_the_tail(
    captured: style::StyledView,
    expected: Seq<char>,
    chrome: native_final::ChromeView,
)
    requires
        text::byte_len(expected) <= usize::MAX,
    ensures
        native_final::native_final(captured, expected, chrome) is Some ==> expected.len() > 0
            && !expected.contains('\r') && exists|first: int, last: int|
            #[trigger] captured::answered_at(
                captured.text,
                text::line_pieces(captured.text),
                expected,
                chrome,
                first,
                last,
            ) && tail_is_chrome(
                captured.text,
                text::line_pieces(captured.text),
                chrome,
                last + 1,
            ),
{
    let s = captured.text;
    let runs = captured.runs;
    let lines = text::line_pieces(s);
    let n = lines.len() as int;
    text::lemma_byte_at_ends(expected);
    text::lemma_byte_at_monotone(expected, 0, expected.len() as int);
    if native_final::native_final(captured, expected, chrome) is Some {
        let strict = native_final::strict_candidates(s, runs, lines, expected, chrome, n);
        let (first, last) = if strict.len() == 1 {
            lemma_strict_candidate_answers(s, runs, lines, expected, chrome, n, 0)
        } else {
            lemma_reflow_candidate_answers(s, runs, lines, expected, chrome, n, 0)
        };
        lemma_chrome_only_is_the_tail(s, lines, chrome, last + 1);
        assert(captured::answered_at(s, lines, expected, chrome, first, last));
        assert(tail_is_chrome(s, lines, chrome, last + 1));
    }
}

/// An answer that a pane shows line for line in one place, with nothing but the agent's own
/// chrome below its composer, is taken from there.
pub proof fn lemma_answer_shown_once_is_taken(
    captured: style::StyledView,
    expected: Seq<char>,
    chrome: native_final::ChromeView,
    b: int,
)
    requires
        expected.len() > 0,
        !expected.contains('\r'),
        0 <= b < text::line_pieces(captured.text).len(),
        native_final::strict_at(
            captured.text,
            text::line_pieces(captured.text),
            expected,
            chrome,
            b,
        ),
        forall|k: int|
            0 <= k < text::line_pieces(captured.text).len() && k != b
                ==> !#[trigger] native_final::strict_at(
                captured.text,
                text::line_pieces(captured.text),
                expected,
                chrome,
                k,
            ),
        tail_is_chrome(
            captured.text,
            text::line_pieces(captured.text),
            chrome,
            b + 2 + text::pieces(expected, '\n').len(),
        ),
    ensures
        native_final::native_final(captured, expected, chrome) is Some,
{
    let s = captured.text;
    let lines = text::line_pieces(s);
    let n = lines.len() as int;
    lemma_one_block_one_candidate(s, captured.runs, lines, expected, chrome, n, b);
    lemma_chrome_only_is_the_tail(
        s,
        lines,
        chrome,
        b + 2 + text::pieces(expected, '\n').len(),
    );
}

/// What frames an answer. A rule of eight glyphs ends an answer of the one agent, one of
/// sixteen an answer of the other; a composer opens with the marker of its agent.
pub proof fn lemma_frames_of_the_agents(n: nat, rest: Seq<char>)
    ensures
        ({
            let rule = Seq::new(n, |i: int| '─');
            let codex = native_final::chrome_of(AgentKind::Codex);
            let other = native_final::chrome_of(AgentKind::Claude);
            &&& n >= 8 ==> native_final::trailing_boundary(rule, codex)
            &&& native_final::trailing_boundary(rule, other) <==> n >= 16
            &&& native_chrome::pure_separator(rule, codex.separator_min_width) <==> n >= 8
            &&& native_chrome::pure_separator(rule, other.separator_min_width) <==> n >= 16
            &&& native_final::composer_line(seq!['›', ' '] + rest, codex)
            &&& native_final::composer_line(seq!['❯', ' '] + rest, other)
            &&& !native_final::composer_line(seq!['❯', ' '] + rest, codex)
            &&& !native_final::composer_line(seq!['›', ' '] + rest, other)
            &&& codex.trailing is KnownFooter
            &&& other.trailing is AgentFree
        }),
{
    native_chrome::lemma_rules_are_recognized(n, 8, Seq::empty());
    native_chrome::lemma_rules_are_recognized(n, 16, Seq::empty());
    native_chrome::lemma_content_follows_the_marker('›', ' ', rest);
    native_chrome::lemma_content_follows_the_marker('❯', ' ', rest);
    let a = seq!['›', ' '] + rest;
    let b = seq!['❯', ' '] + rest;
    assert(a[0] == '›' && b[0] == '❯');
}

// ---------------------------------------------------------------------------
// With more line breaks
// ---------------------------------------------------------------------------

/// Whether the lines from `first` up to `last` show the answer with line breaks of their own:
/// they open like something that the agent said, read as the answer does, and stand right
/// above a boundary and the composer.
pub open spec fn reflowed_at(
    captured: style::StyledView,
    expected: Seq<char>,
    chrome: native_final::ChromeView,
    first: int,
    last: int,
) -> bool {
    let s = captured.text;
    let lines = text::line_pieces(s);
    &&& 0 <= first < last
    &&& last + 1 < lines.len()
    &&& native_final::trailing_boundary(lines[last].of(s), chrome)
    &&& native_final::composer_line(lines[last + 1].of(s), chrome)
    &&& native_chrome::opens_with_any(lines[first].of(s), chrome.role_prefixes)
    &&& native_final::reflowed_runs(
        s,
        captured.runs,
        lines,
        expected,
        chrome,
        first,
        last,
    ) is Some
}

proof fn lemma_starts_listed(
    captured: style::StyledView,
    expected: Seq<char>,
    chrome: native_final::ChromeView,
    a: int,
    b: int,
    last: int,
    n: int,
)
    requires
        reflowed_at(captured, expected, chrome, a, last),
        reflowed_at(captured, expected, chrome, b, last),
        a <= b < n,
    ensures
        native_final::reflow_candidates_at(
            captured.text,
            captured.runs,
            text::line_pieces(captured.text),
            expected,
            chrome,
            last,
            n,
        ).len() >= (if a < b {
            2int
        } else {
            1
        }),
    decreases n,
{
    if b < n - 1 {
        lemma_starts_listed(captured, expected, chrome, a, b, last, n - 1);
    } else if a < b {
        lemma_starts_listed(captured, expected, chrome, a, a, last, n - 1);
    }
}

proof fn lemma_ends_listed(
    captured: style::StyledView,
    expected: Seq<char>,
    chrome: native_final::ChromeView,
    a: int,
    x: int,
    b: int,
    y: int,
    n: int,
)
    requires
        reflowed_at(captured, expected, chrome, a, x),
        reflowed_at(captured, expected, chrome, b, y),
        x <= y < n <= text::line_pieces(captured.text).len(),
    ensures
        native_final::reflow_candidates(
            captured.text,
            captured.runs,
            text::line_pieces(captured.text),
            expected,
            chrome,
            n,
        ).len() >= (if a != b || x != y {
            2int
        } else {
            1
        }),
    decreases n,
{
    if y < n - 1 {
        lemma_ends_listed(captured, expected, chrome, a, x, b, y, n - 1);
    } else if x < y {
        lemma_ends_listed(captured, expected, chrome, a, x, a, x, n - 1);
        lemma_starts_listed(captured, expected, chrome, b, b, y, y);
    } else if a <= b {
        lemma_starts_listed(captured, expected, chrome, a, b, y, y);
    } else {
        lemma_starts_listed(captured, expected, chrome, b, a, y, y);
    }
}

/// An answer that a pane shows in two places with line breaks of its own, and nowhere line
/// for line, is not taken from either.
pub proof fn lemma_reflowed_twice_is_not_taken(
    captured: style::StyledView,
    expected: Seq<char>,
    chrome: native_final::ChromeView,
    a: int,
    x: int,
    b: int,
    y: int,
)
    requires
        reflowed_at(captured, expected, chrome, a, x),
        reflowed_at(captured, expected, chrome, b, y),
        a != b || x != y,
        forall|k: int|
            0 <= k < text::line_pieces(captured.text).len() ==> !#[trigger] native_final::strict_at(
                captured.text,
                text::line_pieces(captured.text),
                expected,
                chrome,
                k,
            ),
    ensures
        native_final::native_final(captured, expected, chrome) is None,
{
    let lines = text::line_pieces(captured.text);
    let n = lines.len() as int;
    lemma_no_block_no_candidate(captured.text, captured.runs, lines, expected, chrome, n);
    if x <= y {
        lemma_ends_listed(captured, expected, chrome, a, x, b, y, n);
    } else {
        lemma_ends_listed(captured, expected, chrome, b, y, a, x, n);
    }
}

proof fn lemma_no_block_no_candidate(
    s: Seq<char>,
    runs: Seq<StyleRun>,
    lines: Seq<LineRange>,
    expected: Seq<char>,
    chrome: native_final::ChromeView,
    n: int,
)
    requires
        n <= lines.len(),
        forall|k: int|
            0 <= k < lines.len() ==> !#[trigger] native_final::strict_at(
                s,
                lines,
                expected,
                chrome,
                k,
            ),
    ensures
        native_final::strict_candidates(s, runs, lines, expected, chrome, n).len() == 0,
    decreases n,
{
    if n > 0 {
        lemma_no_block_no_candidate(s, runs, lines, expected, chrome, n - 1);
    }
}


// ---------------------------------------------------------------------------
// What a line of the frame says
// ---------------------------------------------------------------------------

/// Whether a word is a duration: digits, and whether they count hours, minutes or seconds.
pub open spec fn lasts(w: Seq<char>) -> bool {
    &&& w.len() > 1
    &&& w[w.len() - 1] == 'h' || w[w.len() - 1] == 'm' || w[w.len() - 1] == 's'
    &&& forall|k: int| 0 <= k < w.len() - 1 ==> '0' <= #[trigger] w[k] <= '9'
}

proof fn lemma_lasts(w: Seq<char>)
    ensures
        native_chrome::elapsed_word(w) <==> lasts(w),
{
    if w.len() > 1 {
        let digits = w.drop_last();
        assert(w.last() == w[w.len() - 1]);
        if lasts(w) {
            assert forall|i: int| 0 <= i < digits.len() implies text::ascii_digit(
                #[trigger] digits[i],
            ) by {
                assert('0' <= w[i] <= '9');
            }
        }
        if native_chrome::elapsed_word(w) {
            assert forall|k: int| 0 <= k < w.len() - 1 implies '0' <= #[trigger] w[k] <= '9' by {
                assert(digits[k] == w[k]);
                assert(text::ascii_digit(digits[k]));
                text::lemma_kinds_of_characters(w[k]);
            }
        }
    }
}

/// A rule that says how long was worked for closes an answer of Codex exactly where it says
/// so in durations; the rule goes on behind them. It never closes one of the other agent.
pub proof fn lemma_worked_for_closes_an_answer(a: Seq<char>, b: Seq<char>, n: nat)
    requires
        footers::is_word(a),
        footers::is_word(b),
        n > 0,
        a.len() + b.len() + n + 20 <= usize::MAX,
    ensures
        ({
            let rule = Seq::new(n, |i: int| '─');
            let codex = native_final::chrome_of(AgentKind::Codex);
            let other = native_final::chrome_of(AgentKind::Claude);
            let short = "─ Worked for "@ + a + seq![' '] + rule;
            let long = "─ Worked for "@ + a + seq![' '] + b + seq![' '] + rule;
            &&& native_final::trailing_boundary(short, codex) <==> lasts(a)
            &&& native_final::trailing_boundary(long, codex) <==> lasts(a) && lasts(b)
            &&& !native_final::trailing_boundary(short, other)
            &&& !native_final::trailing_boundary(long, other)
        }),
{
    reveal_strlit("─ Worked for ");
    let rule = Seq::new(n, |i: int| '─');
    let codex = native_final::chrome_of(AgentKind::Codex);
    let other = native_final::chrome_of(AgentKind::Claude);
    let start = "─ Worked for "@;
    let none = Seq::<char>::empty();
    let both = a + seq![' '] + b;
    lemma_lasts(a);
    lemma_lasts(b);
    assert(a + seq![' '] =~= a.push(' '));
    text::lemma_one_more_word(none, ' ', a);
    text::lemma_one_more_word(a, ' ', b);
    text::lemma_one_more_word(none, ' ', b);
    assert(text::words(a)[0].of(a) =~= a);
    assert(text::words(both)[0].of(both) =~= a);
    assert(text::words(both)[1].of(both) =~= b);
    assert(native_chrome::elapsed_label(a) <==> lasts(a));
    assert(native_chrome::elapsed_label(both) <==> lasts(a) && lasts(b)) by {
        if native_chrome::elapsed_label(both) {
            assert(native_chrome::elapsed_word(text::words(both)[0].of(both)));
            assert(native_chrome::elapsed_word(text::words(both)[1].of(both)));
        }
    }
    let short = start + a + seq![' '] + rule;
    let long = start + a + seq![' '] + b + seq![' '] + rule;
    lemma_labelled_rule(start, a, n, codex);
    lemma_labelled_rule(start, both, n, codex);
    assert(long =~= start + both + seq![' '] + rule);
    assert(short[1] == ' ' && long[1] == ' ');
    native_chrome::lemma_rules_are_recognized(0, 16, short);
    native_chrome::lemma_rules_are_recognized(0, 16, long);
    native_chrome::lemma_rules_are_recognized(0, 8, short);
    native_chrome::lemma_rules_are_recognized(0, 8, long);
    assert(codex.trailing_boundary_prefixes[0] == start);
}

proof fn lemma_labelled_rule(
    start: Seq<char>,
    label: Seq<char>,
    n: nat,
    chrome: native_final::ChromeView,
)
    requires
        n > 0,
        start.len() >= chrome.separator_min_width,
        label.len() > 0,
        !text::ascii_white_space(label.last()),
    ensures
        native_final::decorated_boundary(
            start + label + seq![' '] + Seq::new(n, |i: int| '─'),
            start,
            chrome.separator_min_width,
        ) <==> native_chrome::elapsed_label(label),
{
    let rule = Seq::new(n, |i: int| '─');
    let line = start + label + seq![' '] + rule;
    let rest = line.skip(start.len() as int);
    let at = label.len() as int;
    assert(rest =~= label + seq![' '] + rule);
    assert(start.is_prefix_of(line));
    assert(rest.take(at) =~= label);
    assert(rest.skip(at + 1) =~= rule);
    assert(rest[at] == ' ');
    if native_chrome::elapsed_label(label) {
        assert(native_final::labelled_at(rest, at));
    }
    assert forall|k: int| native_final::labelled_at(rest, k) implies k == at by {
        if k < at {
            assert(rest.skip(k + 1)[at - k - 1] == ' ');
        } else if k > at {
            assert(rest[k] == rule[k - at - 1]);
        }
    }
}

/// The first line of an answer is drawn behind a bullet of its agent, the others are
/// indented by two columns, and an empty one is left empty. No line shows an answer
/// without that.
pub proof fn lemma_how_an_answer_is_indented(line: Seq<char>, said: Seq<char>, k: int)
    requires
        k > 0,
    ensures
        ({
            let codex = native_final::chrome_of(AgentKind::Codex);
            let other = native_final::chrome_of(AgentKind::Claude);
            let none = line.len() == 0 && said.len() == 0;
            &&& native_final::shows(line, said, native_final::prefixes_at(codex, 0)) <==> none
                || line == "• "@ + said
            &&& native_final::shows(line, said, native_final::prefixes_at(other, 0)) <==> none
                || line == "\u{23fa} "@ + said || line == "\u{25cf} "@ + said
            &&& native_final::shows(line, said, native_final::prefixes_at(codex, k)) <==> none
                || line == "  "@ + said
            &&& native_final::shows(line, said, native_final::prefixes_at(other, k)) <==> none
                || line == "  "@ + said
        }),
{
    reveal_strlit("• ");
    reveal_strlit("\u{23fa} ");
    reveal_strlit("\u{25cf} ");
    reveal_strlit("  ");
    let bullets = seq!["\u{23fa} "@, "\u{25cf} "@];
    assert(bullets.skip(1) =~= seq!["\u{25cf} "@]);
    lemma_shown_behind(line, said, "• "@);
    lemma_shown_behind(line, said, "  "@);
    lemma_shown_behind(line, said, "\u{23fa} "@);
    lemma_shown_behind(line, said, "\u{25cf} "@);
    lemma_opening_of_one(line, "• "@);
    lemma_opening_of_one(line, "  "@);
    lemma_opening_of_one(line, "\u{25cf} "@);
    let codex = native_final::chrome_of(AgentKind::Codex);
    let other = native_final::chrome_of(AgentKind::Claude);
    assert(native_final::prefixes_at(codex, 0) == seq!["• "@]);
    assert(native_final::prefixes_at(other, 0) == bullets);
    assert(native_final::prefixes_at(codex, k) == seq!["  "@]);
    assert(native_final::prefixes_at(other, k) == seq!["  "@]);
    let first = "\u{23fa} "@;
    let second = "\u{25cf} "@;
    assert(native_final::opening(line, bullets) == (if first.is_prefix_of(line) {
        Some(first.len())
    } else {
        native_final::opening(line, bullets.skip(1))
    }));
    if line.len() == 0 && said.len() == 0 {
        assert(line.skip(0) =~= said);
    }
    if first.is_prefix_of(line) {
        assert(line[0] == first[0]);
        assert((second + said)[0] == second[0]);
    }
}

proof fn lemma_shown_behind(line: Seq<char>, said: Seq<char>, prefix: Seq<char>)
    ensures
        prefix.is_prefix_of(line) && line.skip(prefix.len() as int) == said <==> line == prefix
            + said,
{
    if prefix.is_prefix_of(line) && line.skip(prefix.len() as int) == said {
        assert(line =~= prefix + said);
    }
    if line == prefix + said {
        assert(prefix.is_prefix_of(line));
        assert(line.skip(prefix.len() as int) =~= said);
    }
}

proof fn lemma_opening_of_one(line: Seq<char>, prefix: Seq<char>)
    ensures
        native_final::opening(line, seq![prefix]) == (if prefix.is_prefix_of(line) {
            Some(prefix.len())
        } else {
            None
        }),
{
    let rest = seq![prefix].skip(1);
    assert(rest.len() == 0);
    assert(native_final::opening(line, rest) is None);
}

}
