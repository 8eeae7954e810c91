//! Every character of an answer that was found in a pane is drawn as it was
//! there.

use super::captured;
use super::native_final;
use super::native_final::Mapping;
use crate::style;
use crate::style::{StyleRun, StyleState};
use crate::text;
use crate::text::LineRange;
use vstd::prelude::*;

verus! {

// ---------------------------------------------------------------------------
// Where a byte comes from
// ---------------------------------------------------------------------------

/// Whether a byte of the answer is one that a mapping moves something to.
pub open spec fn reaches(m: Mapping, byte: int) -> bool {
    m.destination <= byte < captured::destination_end(m)
}

/// The byte of the pane that a mapping moves to a byte of the answer.
pub open spec fn origin(m: Mapping, byte: int) -> int {
    byte - m.destination + m.start
}

proof fn lemma_moved_looks(
    runs: Seq<StyleRun>,
    m: Mapping,
    n: int,
    before: Seq<StyleRun>,
    byte: int,
    look: StyleState,
)
    requires
        0 <= n <= runs.len(),
        native_final::mapping_fits(m),
        style::none_is_empty(before),
    ensures
        style::none_is_empty(native_final::moved_runs(runs, m, n, before)),
        style::drawn_in(native_final::moved_runs(runs, m, n, before), byte, look) <==> style::drawn_in(
            before,
            byte,
            look,
        ) || (reaches(m, byte) && style::drawn_in(runs.take(n), origin(m, byte), look)),
    decreases n,
{
    if n > 0 {
        lemma_moved_looks(runs, m, n - 1, before, byte, look);
        let run = runs[n - 1];
        let from = origin(m, byte);
        assert(runs.take(n) =~= runs.take(n - 1).push(run));
        assert(style::drawn_in(runs.take(n), from, look) <==> style::drawn_in(runs.take(n - 1), from, look)
            || style::run_draws(run, from, look)) by {
            lemma_one_more_look(runs.take(n - 1), run, from, look);
        }
        let upto = native_final::moved_runs(runs, m, n - 1, before);
        if let Some(moved) = native_final::moved_run(run, m) {
            style::lemma_merged_looks(upto, moved, byte, look);
        }
    } else {
        assert(!style::drawn_in(runs.take(0), origin(m, byte), look));
    }
}

proof fn lemma_one_more_look(runs: Seq<StyleRun>, run: StyleRun, byte: int, look: StyleState)
    ensures
        style::drawn_in(runs.push(run), byte, look) <==> style::drawn_in(runs, byte, look) || style::run_draws(
            run,
            byte,
            look,
        ),
{
    let all = runs.push(run);
    if style::drawn_in(all, byte, look) {
        let i = choose|i: int|
            0 <= i < all.len() && (#[trigger] all[i]).start_byte <= byte < all[i].end_byte
                && all[i].foreground == look.foreground && all[i].background == look.background
                && all[i].modifiers == look.modifiers;
        if i < runs.len() {
            assert(runs[i] == all[i]);
        }
    }
    if style::drawn_in(runs, byte, look) {
        let i = choose|i: int|
            0 <= i < runs.len() && (#[trigger] runs[i]).start_byte <= byte < runs[i].end_byte
                && runs[i].foreground == look.foreground && runs[i].background == look.background
                && runs[i].modifiers == look.modifiers;
        assert(all[i] == runs[i]);
    }
    if style::run_draws(run, byte, look) {
        assert(all[runs.len() as int] == run);
    }
}

spec fn all_fit(mappings: Seq<Mapping>) -> bool {
    forall|i: int| 0 <= i < mappings.len() ==> native_final::mapping_fits(#[trigger] mappings[i])
}

proof fn lemma_sliced_looks(
    runs: Seq<StyleRun>,
    mappings: Seq<Mapping>,
    n: int,
    byte: int,
    look: StyleState,
)
    requires
        0 <= n <= mappings.len(),
        all_fit(mappings),
    ensures
        style::none_is_empty(native_final::sliced_runs(runs, mappings, n)),
        style::drawn_in(native_final::sliced_runs(runs, mappings, n), byte, look) <==> exists|j: int|
            0 <= j < n && reaches(#[trigger] mappings[j], byte) && style::drawn_in(
                runs,
                origin(mappings[j], byte),
                look,
            ),
    decreases n,
{
    if n > 0 {
        lemma_sliced_looks(runs, mappings, n - 1, byte, look);
        let m = mappings[n - 1];
        let before = native_final::sliced_runs(runs, mappings, n - 1);
        lemma_moved_looks(runs, m, runs.len() as int, before, byte, look);
        assert(runs.take(runs.len() as int) =~= runs);
        if style::drawn_in(before, byte, look) {
            let j = choose|j: int|
                0 <= j < n - 1 && reaches(#[trigger] mappings[j], byte) && style::drawn_in(
                    runs,
                    origin(mappings[j], byte),
                    look,
                );
            assert(reaches(mappings[j], byte));
        }
    }
}

proof fn lemma_mappings_apart(mappings: Seq<Mapping>, i: int, j: int)
    requires
        captured::in_order(mappings),
        all_fit(mappings),
        0 <= i < j < mappings.len(),
    ensures
        captured::destination_end(mappings[i]) <= mappings[j].destination,
    decreases j - i,
{
    assert(captured::destination_end(mappings[j - 1]) <= mappings[j].destination);
    if i < j - 1 {
        lemma_mappings_apart(mappings, i, j - 1);
        assert(native_final::mapping_fits(mappings[j - 1]));
    }
}

/// Whether mappings can be followed: each of them fits, and none overlaps another.
#[verifier::opaque]
spec fn usable(mappings: Seq<Mapping>) -> bool {
    captured::in_order(mappings) && all_fit(mappings)
}

proof fn lemma_usable_looks(
    runs: Seq<StyleRun>,
    mappings: Seq<Mapping>,
    byte: int,
    look: StyleState,
)
    requires
        usable(mappings),
        forall|j: int| 0 <= j < mappings.len() ==> !reaches(#[trigger] mappings[j], byte),
    ensures
        !style::drawn_in(
            native_final::sliced_runs(runs, mappings, mappings.len() as int),
            byte,
            look,
        ),
{
    reveal(usable);
    lemma_sliced_looks(runs, mappings, mappings.len() as int, byte, look);
}

/// Where mappings do not overlap, a byte is drawn as the one byte it comes from.
proof fn lemma_look_of_the_origin(
    runs: Seq<StyleRun>,
    mappings: Seq<Mapping>,
    k: int,
    byte: int,
    look: StyleState,
)
    requires
        usable(mappings),
        0 <= k < mappings.len(),
        reaches(mappings[k], byte),
    ensures
        style::drawn_in(
            native_final::sliced_runs(runs, mappings, mappings.len() as int),
            byte,
            look,
        ) <==> style::drawn_in(runs, origin(mappings[k], byte), look),
{
    reveal(usable);
    lemma_sliced_looks(runs, mappings, mappings.len() as int, byte, look);
    assert forall|j: int| 0 <= j < mappings.len() && reaches(#[trigger] mappings[j], byte) implies j
        == k by {
        if j < k {
            lemma_mappings_apart(mappings, j, k);
        } else if k < j {
            lemma_mappings_apart(mappings, k, j);
        }
    }
    if style::drawn_in(runs, origin(mappings[k], byte), look) {
        assert(reaches(mappings[k], byte));
    }
}

// ---------------------------------------------------------------------------
// Following characters
// ---------------------------------------------------------------------------

/// Whether an answer can be followed through a pane, character by character: each
/// of its characters stands at its place there, or where a line was broken at a
/// space the line feed does; and the places go on from one to the next, except
/// that a line goes on behind what it opens with.
pub open spec fn followed(s: Seq<char>, expected: Seq<char>, at: Seq<int>) -> bool {
    &&& at.len() == expected.len()
    &&& forall|i: int|
        0 <= i < at.len() ==> 0 <= #[trigger] at[i] < s.len() && (s[at[i]] == expected[i] || (
        s[at[i]] == '\n' && expected[i] == ' '))
    &&& forall|i: int|
        0 < i < at.len() ==> at[i - 1] < #[trigger] at[i] && (at[i] == at[i - 1] + 1 || s[at[i - 1]]
            == '\n')
}

/// Whether the character at `i` of an answer is drawn as the one at `place` of the
/// pane is: in every respect, and not at all where that one is not.
pub open spec fn drawn_alike(
    captured: style::StyledView,
    styled: style::StyledView,
    place: int,
    i: int,
) -> bool {
    forall|look: StyleState|
        style::drawn_in(styled.runs, text::byte_at(styled.text, i) as int, look) <==> #[trigger] style::drawn_in(
            captured.runs,
            text::byte_at(captured.text, place) as int,
            look,
        )
}

// ---------------------------------------------------------------------------
// Line for line
// ---------------------------------------------------------------------------

spec fn line_mapping(
    s: Seq<char>,
    lines: Seq<LineRange>,
    expected: Seq<char>,
    chrome: native_final::ChromeView,
    first: int,
    k: int,
) -> Mapping {
    let part = text::pieces(expected, '\n')[k];
    let drawn = lines[first + k];
    let start = native_final::content_at(
        drawn.of(s),
        part.of(expected),
        native_final::prefixes_at(chrome, k),
    ).unwrap();
    native_final::mapping(
        text::byte_at(s, drawn.start + start),
        text::byte_at(s, drawn.end as int),
        text::byte_at(expected, part.start as int),
    )
}

spec fn feed_mapping(
    s: Seq<char>,
    lines: Seq<LineRange>,
    expected: Seq<char>,
    first: int,
    k: int,
) -> Mapping {
    let drawn = lines[first + k];
    native_final::mapping(
        text::byte_at(s, drawn.end as int),
        text::byte_at(s, drawn.end + 1),
        text::byte_at(expected, text::pieces(expected, '\n')[k].end as int),
    )
}

proof fn lemma_each_line_is_mapped(
    s: Seq<char>,
    lines: Seq<LineRange>,
    expected: Seq<char>,
    chrome: native_final::ChromeView,
    first: int,
    n: int,
    k: int,
)
    requires
        0 <= k < n <= text::pieces(expected, '\n').len(),
    ensures
        native_final::line_mappings(s, lines, expected, chrome, first, n).contains(
            line_mapping(s, lines, expected, chrome, first, k),
        ),
        k + 1 < text::pieces(expected, '\n').len() ==> native_final::line_mappings(
            s,
            lines,
            expected,
            chrome,
            first,
            n,
        ).contains(feed_mapping(s, lines, expected, first, k)),
    decreases n,
{
    let all = native_final::line_mappings(s, lines, expected, chrome, first, n);
    let before = native_final::line_mappings(s, lines, expected, chrome, first, n - 1);
    let line = line_mapping(s, lines, expected, chrome, first, k);
    let feed = feed_mapping(s, lines, expected, first, k);
    if k < n - 1 {
        lemma_each_line_is_mapped(s, lines, expected, chrome, first, n - 1, k);
        let i = choose|i: int| 0 <= i < before.len() && before[i] == line;
        assert(all[i] == line);
        let j = choose|j: int| 0 <= j < before.len() && before[j] == feed;
        assert(all[j] == feed);
    } else {
        assert(first + n - 1 == first + k);
        assert(all[before.len() as int] == line);
        if k + 1 < text::pieces(expected, '\n').len() {
            assert(all[before.len() as int + 1] == feed);
        }
    }
}

/// Whether the character at `i` stands in the line at `k` of a text, the line feed
/// that ends it counted in.
spec fn in_line(t: Seq<char>, i: int, k: int) -> bool {
    let parts = text::pieces(t, '\n');
    0 <= k < parts.len() && parts[k].start <= i <= parts[k].end
}

/// What is known of one line of a text.
proof fn lemma_line_at(t: Seq<char>, k: int)
    requires
        t.len() <= usize::MAX,
        0 <= k < text::pieces(t, '\n').len(),
    ensures
        ({
            let parts = text::pieces(t, '\n');
            &&& parts[k].start <= parts[k].end <= t.len()
            &&& k == 0 ==> parts[k].start == 0
            &&& k + 1 == parts.len() ==> parts[k].end == t.len()
            &&& k + 1 < parts.len() ==> parts[k].end < t.len() && t[parts[k].end as int] == '\n'
                && parts[k + 1].start == parts[k].end + 1
            &&& k > 0 ==> parts[k].start == parts[k - 1].end + 1
        }),
{
    text::lemma_pieces_make_up_the_text(t, '\n');
    let parts = text::pieces(t, '\n');
    if k + 1 < parts.len() {
        assert(parts[k + 1].start == parts[k + 1 - 1].end + 1);
        assert(parts[k + 1].start <= parts[k + 1].end <= t.len());
    }
    assert(parts[k].start <= parts[k].end);
}

proof fn lemma_some_line(t: Seq<char>, i: int, n: int) -> (k: int)
    requires
        t.len() <= usize::MAX,
        0 < n <= text::pieces(t, '\n').len(),
        0 <= i <= text::pieces(t, '\n')[n - 1].end,
    ensures
        in_line(t, i, k),
        k < n,
    decreases n,
{
    lemma_line_at(t, n - 1);
    if text::pieces(t, '\n')[n - 1].start <= i {
        n - 1
    } else {
        lemma_some_line(t, i, n - 1)
    }
}

proof fn lemma_lines_apart(t: Seq<char>, j: int, k: int)
    requires
        t.len() <= usize::MAX,
        0 <= j < k < text::pieces(t, '\n').len(),
    ensures
        text::pieces(t, '\n')[j].end < text::pieces(t, '\n')[k].start,
    decreases k - j,
{
    lemma_line_at(t, k);
    lemma_line_at(t, k - 1);
    if j < k - 1 {
        lemma_lines_apart(t, j, k - 1);
    }
}

/// Where the character at `i` of an answer stands in a pane that shows it line for
/// line from `first` on.
spec fn strict_place(
    s: Seq<char>,
    lines: Seq<LineRange>,
    expected: Seq<char>,
    chrome: native_final::ChromeView,
    first: int,
    i: int,
) -> int {
    let k = choose|k: int| in_line(expected, i, k);
    line_place(s, lines, expected, chrome, first, i, k)
}

spec fn line_place(
    s: Seq<char>,
    lines: Seq<LineRange>,
    expected: Seq<char>,
    chrome: native_final::ChromeView,
    first: int,
    i: int,
    k: int,
) -> int {
    let part = text::pieces(expected, '\n')[k];
    let drawn = lines[first + k];
    let start = native_final::content_at(
        drawn.of(s),
        part.of(expected),
        native_final::prefixes_at(chrome, k),
    ).unwrap();
    drawn.start + start + (i - part.start)
}

/// What is known of one line of an answer that stands line for line.
proof fn lemma_shown_line(
    s: Seq<char>,
    expected: Seq<char>,
    chrome: native_final::ChromeView,
    b: int,
    k: int,
)
    requires
        0 <= b,
        native_final::strict_at(s, text::line_pieces(s), expected, chrome, b),
        s.len() <= usize::MAX,
        expected.len() <= usize::MAX,
        0 <= k < text::pieces(expected, '\n').len(),
    ensures
        ({
            let part = text::pieces(expected, '\n')[k];
            let drawn = text::line_pieces(s)[b + 1 + k];
            let from = line_place(
                s,
                text::line_pieces(s),
                expected,
                chrome,
                b + 1,
                part.start as int,
                k,
            );
            &&& drawn.start <= from <= drawn.end <= s.len()
            &&& drawn.end - from == part.end - part.start
            &&& s.subrange(from, drawn.end as int) == expected.subrange(
                part.start as int,
                part.end as int,
            )
            &&& drawn.end < s.len()
            &&& s[drawn.end as int] == '\n'
            &&& text::line_pieces(s)[b + 1 + k + 1].start == drawn.end + 1
        }),
{
    let lines = text::line_pieces(s);
    let parts = text::pieces(expected, '\n');
    let part = parts[k];
    let drawn = lines[b + 1 + k];
    assert(native_final::shows(
        lines[b + 1 + k].of(s),
        parts[k].of(expected),
        native_final::prefixes_at(chrome, k),
    ));
    lemma_line_at(s, b + 1 + k);
    lemma_line_at(expected, k);
    captured::lemma_opening_within(drawn.of(s), native_final::prefixes_at(chrome, k));
    let start = native_final::content_at(
        drawn.of(s),
        part.of(expected),
        native_final::prefixes_at(chrome, k),
    ).unwrap();
    assert(drawn.of(s).skip(start as int) =~= s.subrange(drawn.start + start, drawn.end as int));
}

/// What is known of the place of one character.
proof fn lemma_strict_place(
    s: Seq<char>,
    expected: Seq<char>,
    chrome: native_final::ChromeView,
    b: int,
    i: int,
    k: int,
)
    requires
        0 <= b,
        native_final::strict_at(s, text::line_pieces(s), expected, chrome, b),
        s.len() <= usize::MAX,
        expected.len() <= usize::MAX,
        0 <= i < expected.len(),
        in_line(expected, i, k),
    ensures
        ({
            let lines = text::line_pieces(s);
            let part = text::pieces(expected, '\n')[k];
            let place = line_place(s, lines, expected, chrome, b + 1, i, k);
            &&& strict_place(s, lines, expected, chrome, b + 1, i) == place
            &&& 0 <= place < s.len()
            &&& s[place] == expected[i]
            &&& lines[b + 1 + k].start <= place
            &&& lines[b + 1 + k].end - place == part.end - i
            &&& i == part.end ==> s[place] == '\n' && k + 1 < text::pieces(expected, '\n').len()
        }),
{
    let parts = text::pieces(expected, '\n');
    let chosen = choose|k: int| in_line(expected, i, k);
    assert(in_line(expected, i, chosen));
    if chosen < k {
        lemma_lines_apart(expected, chosen, k);
    } else if k < chosen {
        lemma_lines_apart(expected, k, chosen);
    }
    lemma_shown_line(s, expected, chrome, b, k);
    lemma_line_at(expected, k);
    let lines = text::line_pieces(s);
    let part = parts[k];
    let drawn = lines[b + 1 + k];
    let from = line_place(s, lines, expected, chrome, b + 1, part.start as int, k);
    if i < part.end {
        assert(s.subrange(from, drawn.end as int)[i - part.start] == expected.subrange(
            part.start as int,
            part.end as int,
        )[i - part.start]);
    }
}

proof fn lemma_strict_mappings_usable(
    s: Seq<char>,
    expected: Seq<char>,
    chrome: native_final::ChromeView,
    b: int,
)
    requires
        0 <= b,
        native_final::strict_at(s, text::line_pieces(s), expected, chrome, b),
        text::byte_len(s) <= usize::MAX,
        text::byte_len(expected) <= usize::MAX,
        s.len() <= usize::MAX,
        expected.len() <= usize::MAX,
    ensures
        usable(
            native_final::line_mappings(
                s,
                text::line_pieces(s),
                expected,
                chrome,
                b + 1,
                text::pieces(expected, '\n').len() as int,
            ),
        ),
{
    let lines = text::line_pieces(s);
    let count = text::pieces(expected, '\n').len() as int;
    let mappings = native_final::line_mappings(s, lines, expected, chrome, b + 1, count);
    text::lemma_pieces_within(expected, '\n');
    captured::lemma_line_mappings(s, lines, expected, chrome, b, count);
    lemma_faithful_mappings_fit(s, expected, mappings);
    reveal(usable);
}

proof fn lemma_strict_mapping_of(
    s: Seq<char>,
    expected: Seq<char>,
    chrome: native_final::ChromeView,
    b: int,
    i: int,
) -> (j: int)
    requires
        0 <= b,
        native_final::strict_at(s, text::line_pieces(s), expected, chrome, b),
        text::byte_len(s) <= usize::MAX,
        text::byte_len(expected) <= usize::MAX,
        s.len() <= usize::MAX,
        expected.len() <= usize::MAX,
        0 <= i < expected.len(),
    ensures
        ({
            let lines = text::line_pieces(s);
            let count = text::pieces(expected, '\n').len() as int;
            let mappings = native_final::line_mappings(s, lines, expected, chrome, b + 1, count);
            let byte = text::byte_at(expected, i) as int;
            &&& 0 <= j < mappings.len()
            &&& reaches(mappings[j], byte)
            &&& origin(mappings[j], byte) == text::byte_at(
                s,
                strict_place(s, lines, expected, chrome, b + 1, i),
            )
        }),
{
    let lines = text::line_pieces(s);
    let parts = text::pieces(expected, '\n');
    let count = parts.len() as int;
    let mappings = native_final::line_mappings(s, lines, expected, chrome, b + 1, count);
    lemma_line_at(expected, count - 1);
    let k = lemma_some_line(expected, i, count);
    lemma_line_at(expected, k);
    lemma_strict_place(s, expected, chrome, b, i, k);
    lemma_shown_line(s, expected, chrome, b, k);
    lemma_each_line_is_mapped(s, lines, expected, chrome, b + 1, count, k);
    let place = line_place(s, lines, expected, chrome, b + 1, i, k);
    let part = parts[k];
    let drawn = lines[b + 1 + k];
    if i < part.end {
        let from = line_place(s, lines, expected, chrome, b + 1, part.start as int, k);
        let m = line_mapping(s, lines, expected, chrome, b + 1, k);
        lemma_byte_comes_from(s, expected, m, from, drawn.end as int, part.start as int, i);
        assert(from + (i - part.start) == place);
        choose|j: int| 0 <= j < mappings.len() && mappings[j] == m
    } else {
        let m = feed_mapping(s, lines, expected, b + 1, k);
        assert(s.subrange(place, place + 1) =~= expected.subrange(i, i + 1));
        lemma_byte_comes_from(s, expected, m, place, place + 1, i, i);
        choose|j: int| 0 <= j < mappings.len() && mappings[j] == m
    }
}

proof fn lemma_strict_look(
    s: Seq<char>,
    runs: Seq<StyleRun>,
    expected: Seq<char>,
    chrome: native_final::ChromeView,
    b: int,
    i: int,
    look: StyleState,
)
    requires
        0 <= b,
        native_final::strict_at(s, text::line_pieces(s), expected, chrome, b),
        text::byte_len(s) <= usize::MAX,
        text::byte_len(expected) <= usize::MAX,
        s.len() <= usize::MAX,
        expected.len() <= usize::MAX,
        0 <= i < expected.len(),
    ensures
        ({
            let lines = text::line_pieces(s);
            let count = text::pieces(expected, '\n').len() as int;
            let mappings = native_final::line_mappings(s, lines, expected, chrome, b + 1, count);
            style::drawn_in(
                native_final::sliced_runs(runs, mappings, mappings.len() as int),
                text::byte_at(expected, i) as int,
                look,
            ) <==> style::drawn_in(
                runs,
                text::byte_at(s, strict_place(s, lines, expected, chrome, b + 1, i)) as int,
                look,
            )
        }),
{
    let lines = text::line_pieces(s);
    let count = text::pieces(expected, '\n').len() as int;
    let mappings = native_final::line_mappings(s, lines, expected, chrome, b + 1, count);
    lemma_strict_mappings_usable(s, expected, chrome, b);
    let j = lemma_strict_mapping_of(s, expected, chrome, b, i);
    lemma_look_of_the_origin(runs, mappings, j, text::byte_at(expected, i) as int, look);
}

proof fn lemma_byte_comes_from(
    s: Seq<char>,
    t: Seq<char>,
    m: Mapping,
    a: int,
    b: int,
    c: int,
    i: int,
)
    requires
        0 <= a < b <= s.len(),
        0 <= c <= i < c + (b - a) <= t.len(),
        s.subrange(a, b) == t.subrange(c, c + (b - a)),
        text::byte_len(s) <= usize::MAX,
        text::byte_len(t) <= usize::MAX,
        m == native_final::mapping(text::byte_at(s, a), text::byte_at(s, b), text::byte_at(t, c)),
    ensures
        reaches(m, text::byte_at(t, i) as int),
        origin(m, text::byte_at(t, i) as int) == text::byte_at(s, a + (i - c)),
{
    text::lemma_byte_at_monotone(s, a, b);
    text::lemma_byte_at_monotone(t, c, t.len() as int);
    assert(captured::moves(s, t, m, a, b, c));
    captured::lemma_moved_offset(s, t, m, a, b, c, b);
    captured::lemma_moved_offset(s, t, m, a, b, c, a + (i - c));
    text::lemma_byte_at_monotone(t, c, i);
    text::lemma_byte_at_monotone(t, i, c + (b - a));
}

proof fn lemma_faithful_mappings_fit(s: Seq<char>, t: Seq<char>, mappings: Seq<Mapping>)
    requires
        captured::all_faithful(s, t, mappings),
        text::byte_len(t) <= usize::MAX,
    ensures
        all_fit(mappings),
{
    assert forall|i: int| 0 <= i < mappings.len() implies native_final::mapping_fits(
        #[trigger] mappings[i],
    ) by {
        let m = mappings[i];
        let (a, b, c) = choose|a: int, b: int, c: int| captured::moves(s, t, m, a, b, c);
        captured::lemma_moved_offset(s, t, m, a, b, c, b);
        text::lemma_byte_at_monotone(t, c + (b - a), t.len() as int);
    }
}

proof fn lemma_strict_places_are_followed(
    s: Seq<char>,
    expected: Seq<char>,
    chrome: native_final::ChromeView,
    b: int,
)
    requires
        0 <= b,
        native_final::strict_at(s, text::line_pieces(s), expected, chrome, b),
        s.len() <= usize::MAX,
        expected.len() <= usize::MAX,
    ensures
        followed(
            s,
            expected,
            Seq::new(
                expected.len(),
                |i: int| strict_place(s, text::line_pieces(s), expected, chrome, b + 1, i),
            ),
        ),
{
    let lines = text::line_pieces(s);
    let parts = text::pieces(expected, '\n');
    let count = parts.len() as int;
    let at = Seq::new(
        expected.len(),
        |i: int| strict_place(s, lines, expected, chrome, b + 1, i),
    );
    text::lemma_pieces_within(expected, '\n');
    lemma_line_at(expected, count - 1);
    assert forall|i: int| 0 <= i < at.len() implies 0 <= #[trigger] at[i] < s.len() && s[at[i]]
        == expected[i] by {
        let k = lemma_some_line(expected, i, count);
        lemma_strict_place(s, expected, chrome, b, i, k);
    }
    assert forall|i: int| 0 < i < at.len() implies at[i - 1] < #[trigger] at[i] && (at[i] == at[i
        - 1] + 1 || s[at[i - 1]] == '\n') by {
        let k = lemma_some_line(expected, i - 1, count);
        lemma_strict_place(s, expected, chrome, b, i - 1, k);
        lemma_line_at(expected, k);
        if i <= parts[k].end {
            lemma_strict_place(s, expected, chrome, b, i, k);
        } else {
            lemma_line_at(expected, k + 1);
            assert(in_line(expected, i, k + 1));
            lemma_strict_place(s, expected, chrome, b, i, k + 1);
            lemma_shown_line(s, expected, chrome, b, k);
        }
    }
}

// ---------------------------------------------------------------------------
// With more line breaks
// ---------------------------------------------------------------------------

/// Where the characters stand that some lines show of an answer.
spec fn drawn_places(
    s: Seq<char>,
    lines: Seq<LineRange>,
    chrome: native_final::ChromeView,
    first: int,
    n: int,
) -> Seq<int>
    decreases n - first,
{
    if n <= first {
        Seq::empty()
    } else {
        let line = lines[n - 1];
        let shown = native_final::line_content(
            line.of(s),
            native_final::prefixes_at(chrome, n - 1 - first),
        );
        let here = Seq::new(shown.len(), |i: int| line.end - shown.len() + i);
        if n - 1 == first {
            here
        } else {
            drawn_places(s, lines, chrome, first, n - 1).push(lines[n - 2].end as int) + here
        }
    }
}

/// Whether places go on from one to the next, and end where a line does.
#[verifier::opaque]
spec fn go_on(s: Seq<char>, places: Seq<int>, end: int) -> bool {
    &&& forall|i: int| 0 <= i < places.len() ==> 0 <= #[trigger] places[i] < end
    &&& forall|i: int|
        0 < i < places.len() ==> places[i - 1] < #[trigger] places[i] && (places[i] == places[i - 1]
            + 1 || s[places[i - 1]] == '\n')
    &&& places.len() > 0 ==> places.last() + 1 == end || s[places.last()] == '\n'
}

proof fn lemma_places_go_on_behind_a_feed(
    s: Seq<char>,
    before: Seq<int>,
    feed: int,
    here: Seq<int>,
    from: int,
    end: int,
)
    requires
        go_on(s, before, feed),
        0 <= feed < from <= end <= s.len(),
        s[feed] == '\n',
        here == Seq::new((end - from) as nat, |i: int| from + i),
    ensures
        go_on(s, before.push(feed) + here, end),
{
    reveal(go_on);
    let all = before.push(feed) + here;
    let n = before.len() as int;
    assert forall|i: int| 0 <= i < all.len() implies 0 <= #[trigger] all[i] < end by {
        if i < n {
            assert(all[i] == before[i]);
        } else if i > n {
            assert(all[i] == here[i - n - 1]);
        }
    }
    assert forall|i: int| 0 < i < all.len() implies all[i - 1] < #[trigger] all[i] && (all[i]
        == all[i - 1] + 1 || s[all[i - 1]] == '\n') by {
        if i < n {
            assert(all[i] == before[i] && all[i - 1] == before[i - 1]);
        } else if i == n {
            assert(all[i - 1] == before.last());
        } else {
            assert(all[i] == here[i - n - 1]);
            if i > n + 1 {
                assert(all[i - 1] == here[i - n - 2]);
            }
        }
    }
    if here.len() > 0 {
        assert(all.last() == here.last());
    } else {
        assert(all.last() == feed);
    }
}

proof fn lemma_places_of_a_line(s: Seq<char>, from: int, end: int)
    requires
        0 <= from <= end <= s.len(),
    ensures
        go_on(s, Seq::new((end - from) as nat, |i: int| from + i), end),
{
    reveal(go_on);
}

proof fn lemma_place_is_inside(s: Seq<char>, places: Seq<int>, end: int, i: int)
    requires
        go_on(s, places, end),
        0 <= i < places.len(),
    ensures
        0 <= places[i] < end,
        i > 0 ==> places[i - 1] < places[i] && (places[i] == places[i - 1] + 1 || s[places[i - 1]]
            == '\n'),
{
    reveal(go_on);
}

proof fn lemma_line_shows(
    s: Seq<char>,
    line: LineRange,
    prefixes: Seq<Seq<char>>,
) -> (from: int)
    requires
        line.within(s),
    ensures
        line.start <= from <= line.end,
        native_final::line_content(line.of(s), prefixes) == s.subrange(from, line.end as int),
        native_final::line_content(line.of(s), prefixes).len() == line.end - from,
        native_final::opening(line.of(s), prefixes) matches Some(n) ==> from == line.start + n,
{
    captured::lemma_opening_within(line.of(s), prefixes);
    match native_final::opening(line.of(s), prefixes) {
        Some(n) => {
            assert(line.of(s).skip(n as int) =~= s.subrange(line.start + n, line.end as int));
            line.start + n
        },
        None => {
            assert(s.subrange(line.end as int, line.end as int) =~= Seq::<char>::empty());
            line.end as int
        },
    }
}

proof fn lemma_drawn_places(
    s: Seq<char>,
    chrome: native_final::ChromeView,
    first: int,
    n: int,
)
    requires
        s.len() <= usize::MAX,
        0 <= first < n <= text::line_pieces(s).len(),
    ensures
        ({
            let lines = text::line_pieces(s);
            let places = drawn_places(s, lines, chrome, first, n);
            let shown = native_final::drawn_text(s, lines, chrome, first, n);
            &&& places.len() == shown.len()
            &&& go_on(s, places, lines[n - 1].end as int)
            &&& forall|i: int| 0 <= i < places.len() ==> s[#[trigger] places[i]] == shown[i]
        }),
    decreases n - first,
{
    let lines = text::line_pieces(s);
    let places = drawn_places(s, lines, chrome, first, n);
    let shown = native_final::drawn_text(s, lines, chrome, first, n);
    let line = lines[n - 1];
    lemma_line_at(s, n - 1);
    let from = lemma_line_shows(s, line, native_final::prefixes_at(chrome, n - 1 - first));
    let end = line.end as int;
    let here = Seq::new((end - from) as nat, |i: int| from + i);
    lemma_places_of_a_line(s, from, end);
    if n - 1 == first {
        assert(places =~= here);
        assert forall|i: int| 0 <= i < places.len() implies s[#[trigger] places[i]] == shown[i] by {
            assert(shown[i] == s.subrange(from, end)[i]);
        }
    } else {
        lemma_drawn_places(s, chrome, first, n - 1);
        lemma_line_at(s, n - 2);
        let before = drawn_places(s, lines, chrome, first, n - 1);
        let feed = lines[n - 2].end as int;
        assert(places =~= before.push(feed) + here);
        lemma_places_go_on_behind_a_feed(s, before, feed, here, from, end);
        let earlier = native_final::drawn_text(s, lines, chrome, first, n - 1);
        assert forall|i: int| 0 <= i < places.len() implies s[#[trigger] places[i]] == shown[i] by {
            if i < before.len() {
                assert(places[i] == before[i]);
                assert(shown[i] == earlier[i]);
            } else if i == before.len() {
                assert(shown[i] == '\n');
            } else {
                let j = i - before.len() - 1;
                assert(places[i] == here[j]);
                assert(shown[i] == s.subrange(from, end)[j]);
            }
        }
    }
}

/// The places of the characters among the first `m` that are no white space.
spec fn picked(t: Seq<char>, places: Seq<int>, m: int) -> Seq<int>
    decreases m,
{
    if m <= 0 {
        Seq::empty()
    } else if text::white_space(t[m - 1]) {
        picked(t, places, m - 1)
    } else {
        picked(t, places, m - 1).push(places[m - 1])
    }
}

proof fn lemma_picked_of_prefix(
    t: Seq<char>,
    places: Seq<int>,
    u: Seq<char>,
    others: Seq<int>,
    m: int,
)
    requires
        0 <= m <= t.len(),
        m <= u.len(),
        forall|k: int| 0 <= k < m ==> #[trigger] t[k] == u[k],
        forall|k: int| 0 <= k < m ==> #[trigger] places[k] == others[k],
    ensures
        picked(t, places, m) == picked(u, others, m),
    decreases m,
{
    if m > 0 {
        lemma_picked_of_prefix(t, places, u, others, m - 1);
        assert(t[m - 1] == u[m - 1]);
        assert(places[m - 1] == others[m - 1]);
    }
}

proof fn lemma_picked_goes_on(
    s: Seq<char>,
    t: Seq<char>,
    places: Seq<int>,
    base: int,
    from: int,
    m: int,
)
    requires
        0 <= base,
        0 <= m,
        base + m <= t.len(),
        0 <= from,
        from + m <= s.len(),
        forall|k: int|
            base <= k < base + m ==> #[trigger] places[k] == from + (k - base) && t[k] == s[from + (k
                - base)],
    ensures
        picked(t, places, base + m) == picked(t, places, base) + native_final::solid(
            s,
            from,
            from + m,
        ),
    decreases m,
{
    if m > 0 {
        lemma_picked_goes_on(s, t, places, base, from, m - 1);
        assert(places[base + m - 1] == from + (m - 1));
        assert(t[base + m - 1] == s[from + m - 1]);
        let before = picked(t, places, base);
        let some = native_final::solid(s, from, from + m - 1);
        assert(picked(t, places, base + m) =~= before + native_final::solid(s, from, from + m));
    } else {
        assert(picked(t, places, base) =~= picked(t, places, base) + Seq::<int>::empty());
    }
}

proof fn lemma_solids_are_picked(
    s: Seq<char>,
    chrome: native_final::ChromeView,
    first: int,
    n: int,
)
    requires
        s.len() <= usize::MAX,
        0 <= first < n <= text::line_pieces(s).len(),
    ensures
        ({
            let lines = text::line_pieces(s);
            let places = drawn_places(s, lines, chrome, first, n);
            let shown = native_final::drawn_text(s, lines, chrome, first, n);
            native_final::solid_lines(s, lines, chrome, first, n) matches Some(found) ==> found
                == picked(shown, places, shown.len() as int)
        }),
    decreases n - first,
{
    let lines = text::line_pieces(s);
    let places = drawn_places(s, lines, chrome, first, n);
    let shown = native_final::drawn_text(s, lines, chrome, first, n);
    let line = lines[n - 1];
    let prefixes = native_final::prefixes_at(chrome, n - 1 - first);
    lemma_line_at(s, n - 1);
    let from = lemma_line_shows(s, line, prefixes);
    let end = line.end as int;
    let here = Seq::new((end - from) as nat, |i: int| from + i);
    let part = s.subrange(from, end);
    if let Some(found) = native_final::solid_lines(s, lines, chrome, first, n) {
        let rest = native_final::solid_lines(s, lines, chrome, first, n - 1).unwrap();
        assert(found == rest + native_final::solid(s, from, end)) by {
            if line.of(s).len() == 0 {
                assert(rest + native_final::solid(s, from, end) =~= rest);
            }
        }
        if n - 1 == first {
            assert(places =~= here);
            assert(rest =~= Seq::<int>::empty());
            assert forall|k: int| 0 <= k < 0 + (end - from) implies #[trigger] places[k] == from + (k
                - 0) && shown[k] == s[from + (k - 0)] by {
                assert(shown[k] == part[k]);
            }
            lemma_picked_goes_on(s, shown, places, 0, from, end - from);
            assert(picked(shown, places, 0) =~= Seq::<int>::empty());
            assert(found =~= picked(shown, places, shown.len() as int));
        } else {
            lemma_solids_are_picked(s, chrome, first, n - 1);
            lemma_drawn_places(s, chrome, first, n - 1);
            let before = drawn_places(s, lines, chrome, first, n - 1);
            let earlier = native_final::drawn_text(s, lines, chrome, first, n - 1);
            let b = before.len() as int;
            assert(places =~= before.push(lines[n - 2].end as int) + here);
            assert(shown =~= earlier.push('\n') + part);
            lemma_picked_of_prefix(shown, places, earlier, before, b);
            assert(shown[b] == '\n');
            assert(picked(shown, places, b + 1) == picked(shown, places, b));
            assert forall|k: int| b + 1 <= k < b + 1 + (end - from) implies #[trigger] places[k]
                == from + (k - (b + 1)) && shown[k] == s[from + (k - (b + 1))] by {
                assert(places[k] == here[k - b - 1]);
                assert(shown[k] == part[k - b - 1]);
            }
            lemma_picked_goes_on(s, shown, places, b + 1, from, end - from);
        }
    }
}

proof fn lemma_picked_stands_for_the_answer(
    t: Seq<char>,
    places: Seq<int>,
    expected: Seq<char>,
    m: int,
)
    requires
        native_final::reads_as(t, expected),
        places.len() == t.len(),
        0 <= m <= t.len(),
    ensures
        m <= expected.len() ==> {
            let target = native_final::solid(expected, 0, m);
            &&& picked(t, places, m).len() == target.len()
            &&& forall|j: int|
                0 <= j < target.len() ==> picked(t, places, m)[j] == places[#[trigger] target[j]]
            &&& forall|j: int| 0 <= j < target.len() ==> 0 <= #[trigger] target[j] < m
        },
        m > expected.len() ==> picked(t, places, m) == picked(t, places, expected.len() as int),
    decreases m,
{
    if m > 0 {
        lemma_picked_stands_for_the_answer(t, places, expected, m - 1);
        if m <= expected.len() {
            assert(native_final::stands_for(t[m - 1], expected[m - 1]));
            assert(text::white_space(t[m - 1]) == text::white_space(expected[m - 1]));
            let before = native_final::solid(expected, 0, m - 1);
            let target = native_final::solid(expected, 0, m);
            assert forall|j: int| 0 <= j < target.len() implies picked(t, places, m)[j]
                == places[#[trigger] target[j]] && 0 <= target[j] < m by {
                if j < before.len() {
                    assert(target[j] == before[j]);
                }
            }
        } else {
            assert(t[m - 1] == '\n');
        }
    }
}

proof fn lemma_every_solid_is_listed(t: Seq<char>, n: int, i: int) -> (j: int)
    requires
        0 <= i < n <= t.len(),
        !text::white_space(t[i]),
    ensures
        0 <= j < native_final::solid(t, 0, n).len(),
        native_final::solid(t, 0, n)[j] == i,
    decreases n,
{
    if i == n - 1 {
        native_final::solid(t, 0, n).len() - 1
    } else {
        lemma_every_solid_is_listed(t, n - 1, i)
    }
}

spec fn solid_mappings(
    s: Seq<char>,
    source: Seq<int>,
    expected: Seq<char>,
    target: Seq<int>,
) -> Seq<Mapping> {
    Seq::new(
        source.len(),
        |i: int|
            native_final::mapping(
                text::byte_at(s, source[i]),
                text::byte_at(s, source[i] + 1),
                text::byte_at(expected, target[i]),
            ),
    )
}

proof fn lemma_solid_mapping(
    s: Seq<char>,
    source: Seq<int>,
    expected: Seq<char>,
    target: Seq<int>,
    j: int,
)
    requires
        text::byte_len(s) <= usize::MAX,
        text::byte_len(expected) <= usize::MAX,
        0 <= j < source.len(),
        0 <= source[j] < s.len(),
        0 <= target[j] < expected.len(),
        s[source[j]] == expected[target[j]],
    ensures
        ({
            let m = solid_mappings(s, source, expected, target)[j];
            &&& native_final::mapping_fits(m)
            &&& m.destination == text::byte_at(expected, target[j])
            &&& m.start == text::byte_at(s, source[j])
            &&& captured::destination_end(m) == text::byte_at(expected, target[j] + 1)
            &&& m.destination < captured::destination_end(m)
        }),
{
    assert(s.subrange(source[j], source[j] + 1) =~= expected.subrange(target[j], target[j] + 1));
    captured::lemma_faithful(s, expected, source[j], source[j] + 1, target[j]);
    text::lemma_byte_at_monotone(expected, target[j] + 1, expected.len() as int);
    text::lemma_byte_at_monotone(expected, target[j], target[j] + 1);
    text::lemma_byte_at_monotone(s, source[j], s.len() as int);
}

/// What is known of the characters that are followed through a pane with more
/// line breaks.
proof fn lemma_solids_followed(
    s: Seq<char>,
    expected: Seq<char>,
    chrome: native_final::ChromeView,
    first: int,
    trailing: int,
    j: int,
)
    requires
        s.len() <= usize::MAX,
        0 <= first < trailing <= text::line_pieces(s).len(),
        native_final::solid_lines(s, text::line_pieces(s), chrome, first, trailing) is Some,
        native_final::reads_as(
            native_final::drawn_text(s, text::line_pieces(s), chrome, first, trailing),
            expected,
        ),
    ensures
        ({
            let lines = text::line_pieces(s);
            let source = native_final::solid_lines(s, lines, chrome, first, trailing).unwrap();
            let target = native_final::solid(expected, 0, expected.len() as int);
            let places = drawn_places(s, lines, chrome, first, trailing);
            &&& source.len() == target.len()
            &&& expected.len() <= places.len()
            &&& 0 <= j < target.len() ==> 0 <= target[j] < expected.len() && source[j]
                == places[target[j]] && 0 <= source[j] < s.len() && s[source[j]]
                == expected[target[j]]
        }),
{
    let lines = text::line_pieces(s);
    let n = expected.len() as int;
    let target = native_final::solid(expected, 0, n);
    let shown = native_final::drawn_text(s, lines, chrome, first, trailing);
    let places = drawn_places(s, lines, chrome, first, trailing);
    lemma_drawn_places(s, chrome, first, trailing);
    lemma_line_at(s, trailing - 1);
    lemma_solids_are_picked(s, chrome, first, trailing);
    lemma_picked_stands_for_the_answer(shown, places, expected, shown.len() as int);
    lemma_picked_stands_for_the_answer(shown, places, expected, n);
    if 0 <= j < target.len() {
        let i = target[j];
        lemma_place_is_inside(s, places, lines[trailing - 1].end as int, i);
        lemma_listed_is_solid(expected, n, j);
        assert(s[places[i]] == shown[i]);
        assert(native_final::stands_for(shown[i], expected[i]));
    }
}

proof fn lemma_solid_mappings_in_order(
    s: Seq<char>,
    expected: Seq<char>,
    chrome: native_final::ChromeView,
    first: int,
    trailing: int,
)
    requires
        text::byte_len(s) <= usize::MAX,
        text::byte_len(expected) <= usize::MAX,
        s.len() <= usize::MAX,
        0 <= first < trailing <= text::line_pieces(s).len(),
        native_final::solid_lines(s, text::line_pieces(s), chrome, first, trailing) is Some,
        native_final::reads_as(
            native_final::drawn_text(s, text::line_pieces(s), chrome, first, trailing),
            expected,
        ),
    ensures
        ({
            let mappings = solid_mappings(
                s,
                native_final::solid_lines(s, text::line_pieces(s), chrome, first, trailing).unwrap(),
                expected,
                native_final::solid(expected, 0, expected.len() as int),
            );
            usable(mappings)
        }),
{
    reveal(usable);
    let source = native_final::solid_lines(
        s,
        text::line_pieces(s),
        chrome,
        first,
        trailing,
    ).unwrap();
    let target = native_final::solid(expected, 0, expected.len() as int);
    let mappings = solid_mappings(s, source, expected, target);
    captured::lemma_solid_grows(expected, 0, expected.len() as int);
    assert forall|j: int| 0 <= j < mappings.len() implies native_final::mapping_fits(
        #[trigger] mappings[j],
    ) by {
        lemma_solids_followed(s, expected, chrome, first, trailing, j);
        lemma_solid_mapping(s, source, expected, target, j);
    }
    assert forall|k: int| 0 < k < mappings.len() implies captured::destination_end(mappings[k - 1])
        <= (#[trigger] mappings[k]).destination by {
        lemma_solids_followed(s, expected, chrome, first, trailing, k);
        lemma_solids_followed(s, expected, chrome, first, trailing, k - 1);
        lemma_solid_mapping(s, source, expected, target, k);
        lemma_solid_mapping(s, source, expected, target, k - 1);
        assert(target[k - 1] < target[k]);
        text::lemma_byte_at_monotone(expected, target[k - 1] + 1, target[k]);
    }
}

/// How an answer with more line breaks is drawn: as in the pane, and its white
/// space plainly.
proof fn lemma_reflowed_look(
    s: Seq<char>,
    runs: Seq<StyleRun>,
    expected: Seq<char>,
    chrome: native_final::ChromeView,
    first: int,
    trailing: int,
    i: int,
    look: StyleState,
)
    requires
        text::byte_len(s) <= usize::MAX,
        text::byte_len(expected) <= usize::MAX,
        s.len() <= usize::MAX,
        0 <= first < trailing <= text::line_pieces(s).len(),
        native_final::reflowed_runs(
            s,
            runs,
            text::line_pieces(s),
            expected,
            chrome,
            first,
            trailing,
        ) is Some,
        0 <= i < expected.len(),
    ensures
        ({
            let lines = text::line_pieces(s);
            let found = native_final::reflowed_runs(
                s,
                runs,
                lines,
                expected,
                chrome,
                first,
                trailing,
            ).unwrap();
            let byte = text::byte_at(expected, i) as int;
            &&& !text::white_space(expected[i]) ==> (style::drawn_in(found, byte, look) <==> style::drawn_in(
                runs,
                text::byte_at(s, drawn_places(s, lines, chrome, first, trailing)[i]) as int,
                look,
            ))
            &&& text::white_space(expected[i]) ==> !style::drawn_in(found, byte, look)
        }),
{
    let lines = text::line_pieces(s);
    let n = expected.len() as int;
    let source = native_final::solid_lines(s, lines, chrome, first, trailing).unwrap();
    let target = native_final::solid(expected, 0, n);
    let mappings = solid_mappings(s, source, expected, target);
    lemma_solid_mappings_in_order(s, expected, chrome, first, trailing);
    let found = native_final::reflowed_runs(
        s,
        runs,
        lines,
        expected,
        chrome,
        first,
        trailing,
    ).unwrap();
    assert(found == native_final::sliced_runs(runs, mappings, mappings.len() as int));
    let byte = text::byte_at(expected, i) as int;
    if text::white_space(expected[i]) {
        assert forall|j: int| 0 <= j < mappings.len() implies !reaches(
            #[trigger] mappings[j],
            byte,
        ) by {
            lemma_solids_followed(s, expected, chrome, first, trailing, j);
            lemma_solid_mapping(s, source, expected, target, j);
            lemma_listed_is_solid(expected, n, j);
            if target[j] < i {
                text::lemma_byte_at_monotone(expected, target[j] + 1, i);
            } else {
                text::lemma_byte_at_monotone(expected, i + 1, target[j]);
                text::lemma_byte_at_monotone(expected, i, i + 1);
            }
        }
        lemma_usable_looks(runs, mappings, byte, look);
    } else {
        let j = lemma_every_solid_is_listed(expected, n, i);
        lemma_solids_followed(s, expected, chrome, first, trailing, j);
        lemma_solid_mapping(s, source, expected, target, j);
        lemma_look_of_the_origin(runs, mappings, j, byte, look);
    }
}

proof fn lemma_listed_is_solid(t: Seq<char>, n: int, j: int)
    requires
        0 <= n <= t.len(),
        0 <= j < native_final::solid(t, 0, n).len(),
    ensures
        !text::white_space(t[native_final::solid(t, 0, n)[j]]),
    decreases n,
{
    if n > 0 {
        let before = native_final::solid(t, 0, n - 1);
        if j < before.len() {
            lemma_listed_is_solid(t, n - 1, j);
        }
    }
}

// ---------------------------------------------------------------------------
// The answer that is handed out
// ---------------------------------------------------------------------------

proof fn lemma_strict_candidate(
    s: Seq<char>,
    runs: Seq<StyleRun>,
    lines: Seq<LineRange>,
    expected: Seq<char>,
    chrome: native_final::ChromeView,
    n: int,
    j: int,
) -> (b: int)
    requires
        0 <= j < native_final::strict_candidates(s, runs, lines, expected, chrome, n).len(),
    ensures
        0 <= b < n,
        native_final::strict_at(s, lines, expected, chrome, b),
        native_final::strict_candidates(s, runs, lines, expected, chrome, n)[j].runs == ({
            let mappings = native_final::line_mappings(
                s,
                lines,
                expected,
                chrome,
                b + 1,
                text::pieces(expected, '\n').len() as int,
            );
            native_final::sliced_runs(runs, mappings, mappings.len() as int)
        }),
    decreases n,
{
    let before = native_final::strict_candidates(s, runs, lines, expected, chrome, n - 1);
    if n > 0 && j < before.len() {
        lemma_strict_candidate(s, runs, lines, expected, chrome, n - 1, j)
    } else {
        assert(n - 1 + 1 == n);
        n - 1
    }
}

proof fn lemma_strict_block_is_listed(
    s: Seq<char>,
    runs: Seq<StyleRun>,
    lines: Seq<LineRange>,
    expected: Seq<char>,
    chrome: native_final::ChromeView,
    n: int,
    b: int,
)
    requires
        0 <= b < n,
        native_final::strict_at(s, lines, expected, chrome, b),
    ensures
        native_final::strict_candidates(s, runs, lines, expected, chrome, n).len() > 0,
    decreases n,
{
    if b < n - 1 {
        lemma_strict_block_is_listed(s, runs, lines, expected, chrome, n - 1, b);
    }
}

proof fn lemma_reflow_candidate_at(
    s: Seq<char>,
    runs: Seq<StyleRun>,
    lines: Seq<LineRange>,
    expected: Seq<char>,
    chrome: native_final::ChromeView,
    trailing: int,
    n: int,
    j: int,
) -> (first: int)
    requires
        0 <= j < native_final::reflow_candidates_at(
            s,
            runs,
            lines,
            expected,
            chrome,
            trailing,
            n,
        ).len(),
    ensures
        0 <= first < n,
        native_final::reflowed_runs(s, runs, lines, expected, chrome, first, trailing) == Some(
            native_final::reflow_candidates_at(
                s,
                runs,
                lines,
                expected,
                chrome,
                trailing,
                n,
            )[j].runs,
        ),
    decreases n,
{
    let before = native_final::reflow_candidates_at(
        s,
        runs,
        lines,
        expected,
        chrome,
        trailing,
        n - 1,
    );
    if n > 0 && j < before.len() {
        lemma_reflow_candidate_at(s, runs, lines, expected, chrome, trailing, n - 1, j)
    } else {
        n - 1
    }
}

proof fn lemma_reflow_candidate(
    s: Seq<char>,
    runs: Seq<StyleRun>,
    lines: Seq<LineRange>,
    expected: Seq<char>,
    chrome: native_final::ChromeView,
    n: int,
    j: int,
) -> (block: (int, int))
    requires
        0 <= j < native_final::reflow_candidates(s, runs, lines, expected, chrome, n).len(),
    ensures
        0 <= block.0 < block.1 < n,
        native_final::reflowed_runs(s, runs, lines, expected, chrome, block.0, block.1) == Some(
            native_final::reflow_candidates(s, runs, lines, expected, chrome, n)[j].runs,
        ),
    decreases n,
{
    let before = native_final::reflow_candidates(s, runs, lines, expected, chrome, n - 1);
    if n > 0 && j < before.len() {
        lemma_reflow_candidate(s, runs, lines, expected, chrome, n - 1, j)
    } else {
        let first = lemma_reflow_candidate_at(
            s,
            runs,
            lines,
            expected,
            chrome,
            n - 1,
            n - 1,
            j - before.len(),
        );
        (first, n - 1)
    }
}

proof fn lemma_reflowed_places_are_followed(
    s: Seq<char>,
    expected: Seq<char>,
    chrome: native_final::ChromeView,
    first: int,
    trailing: int,
)
    requires
        s.len() <= usize::MAX,
        0 <= first < trailing <= text::line_pieces(s).len(),
        native_final::reads_as(
            native_final::drawn_text(s, text::line_pieces(s), chrome, first, trailing),
            expected,
        ),
    ensures
        followed(
            s,
            expected,
            drawn_places(s, text::line_pieces(s), chrome, first, trailing).take(
                expected.len() as int,
            ),
        ),
{
    let lines = text::line_pieces(s);
    let shown = native_final::drawn_text(s, lines, chrome, first, trailing);
    let places = drawn_places(s, lines, chrome, first, trailing);
    let at = places.take(expected.len() as int);
    lemma_drawn_places(s, chrome, first, trailing);
    lemma_line_at(s, trailing - 1);
    let end = lines[trailing - 1].end as int;
    assert forall|i: int| 0 <= i < at.len() implies 0 <= #[trigger] at[i] < s.len() && (s[at[i]]
        == expected[i] || (s[at[i]] == '\n' && expected[i] == ' ')) by {
        lemma_place_is_inside(s, places, end, i);
        assert(s[places[i]] == shown[i]);
        assert(native_final::stands_for(shown[i], expected[i]));
    }
    assert forall|i: int| 0 < i < at.len() implies at[i - 1] < #[trigger] at[i] && (at[i] == at[i
        - 1] + 1 || s[at[i - 1]] == '\n') by {
        lemma_place_is_inside(s, places, end, i);
    }
}

/// Whether an answer was followed to these places of a pane and is drawn as the
/// pane is there.
pub open spec fn drawn_as_found(
    captured: style::StyledView,
    styled: style::StyledView,
    at: Seq<int>,
) -> bool {
    &&& followed(captured.text, styled.text, at)
    &&& forall|i: int|
        0 <= i < at.len() && !text::white_space(#[trigger] styled.text[i]) ==> drawn_alike(
            captured,
            styled,
            at[i],
            i,
        )
}

/// Whether the white space of an answer, too, is drawn as the pane is.
pub open spec fn gaps_drawn_as_found(
    captured: style::StyledView,
    styled: style::StyledView,
    at: Seq<int>,
) -> bool {
    forall|i: int|
        0 <= i < at.len() && text::white_space(#[trigger] styled.text[i]) ==> drawn_alike(
            captured,
            styled,
            at[i],
            i,
        )
}

/// Whether the white space of an answer has no style.
pub open spec fn gaps_drawn_plainly(styled: style::StyledView) -> bool {
    forall|i: int, look: StyleState|
        0 <= i < styled.text.len() && text::white_space(styled.text[i]) ==> !#[trigger] style::drawn_in(
            styled.runs,
            text::byte_at(styled.text, i) as int,
            look,
        )
}

/// Whether a pane shows an answer line for line.
pub open spec fn line_for_line(
    s: Seq<char>,
    expected: Seq<char>,
    chrome: native_final::ChromeView,
) -> bool {
    exists|b: int|
        0 <= b < text::line_pieces(s).len() && #[trigger] native_final::strict_at(
            s,
            text::line_pieces(s),
            expected,
            chrome,
            b,
        )
}

/// An answer is handed out as the pane draws it. Each of its characters has exactly
/// the style of the one that it was matched with: the foreground, the background and
/// every modifier, and none where that one has none. White space has it too where the
/// pane shows the answer line for line; where it breaks more lines, white space is
/// left plain.
pub proof fn lemma_answer_is_drawn_as_in_the_pane(
    captured: style::StyledView,
    expected: Seq<char>,
    chrome: native_final::ChromeView,
)
    requires
        text::byte_len(captured.text) <= usize::MAX,
        text::byte_len(expected) <= usize::MAX,
    ensures
        native_final::native_final(captured, expected, chrome) matches Some(styled)
            ==> styled.text == expected && exists|at: Seq<int>|
            {
                &&& #[trigger] drawn_as_found(captured, styled, at)
                &&& line_for_line(captured.text, expected, chrome) ==> gaps_drawn_as_found(
                    captured,
                    styled,
                    at,
                )
                &&& !line_for_line(captured.text, expected, chrome) ==> gaps_drawn_plainly(styled)
            },
{
    let s = captured.text;
    let runs = captured.runs;
    let lines = text::line_pieces(s);
    let n = lines.len() as int;
    text::lemma_byte_at_ends(s);
    text::lemma_byte_at_ends(expected);
    text::lemma_byte_at_monotone(s, 0, s.len() as int);
    text::lemma_byte_at_monotone(expected, 0, expected.len() as int);
    if native_final::native_final(captured, expected, chrome) is Some {
        let styled = native_final::native_final(captured, expected, chrome).unwrap();
        let strict = native_final::strict_candidates(s, runs, lines, expected, chrome, n);
        if strict.len() == 1 {
            let b = lemma_strict_candidate(s, runs, lines, expected, chrome, n, 0);
            let at = Seq::new(
                expected.len(),
                |i: int| strict_place(s, lines, expected, chrome, b + 1, i),
            );
            lemma_strict_places_are_followed(s, expected, chrome, b);
            assert forall|i: int| 0 <= i < at.len() implies #[trigger] drawn_alike(
                captured,
                styled,
                at[i],
                i,
            ) by {
                assert forall|look: StyleState|
                    style::drawn_in(styled.runs, text::byte_at(styled.text, i) as int, look)
                        <==> #[trigger] style::drawn_in(
                        captured.runs,
                        text::byte_at(captured.text, at[i]) as int,
                        look,
                    ) by {
                    lemma_strict_look(s, runs, expected, chrome, b, i, look);
                }
            }
            assert(drawn_as_found(captured, styled, at));
            assert(gaps_drawn_as_found(captured, styled, at));
            assert(line_for_line(s, expected, chrome));
        } else {
            let (first, trailing) = lemma_reflow_candidate(
                s,
                runs,
                lines,
                expected,
                chrome,
                n,
                0,
            );
            let at = drawn_places(s, lines, chrome, first, trailing).take(expected.len() as int);
            lemma_reflowed_places_are_followed(s, expected, chrome, first, trailing);
            lemma_drawn_places(s, chrome, first, trailing);
            assert forall|i: int|
                0 <= i < at.len() && !text::white_space(
                    #[trigger] styled.text[i],
                ) implies drawn_alike(captured, styled, at[i], i) by {
                assert forall|look: StyleState|
                    style::drawn_in(styled.runs, text::byte_at(styled.text, i) as int, look)
                        <==> #[trigger] style::drawn_in(
                        captured.runs,
                        text::byte_at(captured.text, at[i]) as int,
                        look,
                    ) by {
                    lemma_reflowed_look(
                        s,
                        runs,
                        expected,
                        chrome,
                        first,
                        trailing,
                        i,
                        look,
                    );
                }
            }
            assert forall|i: int, look: StyleState|
                0 <= i < styled.text.len() && text::white_space(
                    styled.text[i],
                ) implies !#[trigger] style::drawn_in(
                styled.runs,
                text::byte_at(styled.text, i) as int,
                look,
            ) by {
                lemma_reflowed_look(s, runs, expected, chrome, first, trailing, i, look);
            }
            assert(drawn_as_found(captured, styled, at));
            if line_for_line(s, expected, chrome) {
                let b = choose|b: int|
                    0 <= b < lines.len() && #[trigger] native_final::strict_at(
                        s,
                        lines,
                        expected,
                        chrome,
                        b,
                    );
                lemma_strict_block_is_listed(s, runs, lines, expected, chrome, n, b);
            }
        }
    }
}

}
