//! What was found in a pane is the answer, and its runs describe the answer.

use super::native_final;
use super::native_final::Mapping;
use crate::style;
use crate::style::StyleRun;
use crate::text;
use crate::text::LineRange;
use vstd::prelude::*;

verus! {

// ---------------------------------------------------------------------------
// One mapping
// ---------------------------------------------------------------------------

/// Whether a mapping moves the characters from `a` up to `b` of one text to the
/// same characters of another, which start at `c`.
pub open spec fn moves(
    s: Seq<char>,
    t: Seq<char>,
    m: Mapping,
    a: int,
    b: int,
    c: int,
) -> bool {
    &&& 0 <= a <= b <= s.len()
    &&& 0 <= c
    &&& c + (b - a) <= t.len()
    &&& m.start == text::byte_at(s, a)
    &&& m.end == text::byte_at(s, b)
    &&& m.destination == text::byte_at(t, c)
    &&& s.subrange(a, b) == t.subrange(c, c + (b - a))
}

/// Whether a mapping moves characters of one text to the same characters of
/// another.
pub open spec fn faithful(s: Seq<char>, t: Seq<char>, m: Mapping) -> bool {
    exists|a: int, b: int, c: int| moves(s, t, m, a, b, c)
}

/// Where a mapping ends in the text it moves to.
pub open spec fn destination_end(m: Mapping) -> int {
    m.destination + (m.end - m.start)
}

/// Inside a mapping, offsets keep their distance from its start.
pub(super) proof fn lemma_moved_offset(s: Seq<char>, t: Seq<char>, m: Mapping, a: int, b: int, c: int, i: int)
    requires
        moves(s, t, m, a, b, c),
        a <= i <= b,
    ensures
        text::byte_at(t, c + (i - a)) == m.destination + (text::byte_at(s, i) - m.start),
{
    assert(s.subrange(a, i) =~= s.subrange(a, b).subrange(0, i - a));
    assert(t.subrange(c, c + (i - a)) =~= t.subrange(c, c + (b - a)).subrange(0, i - a));
    text::lemma_byte_len_subrange(s, a, i);
    text::lemma_byte_len_subrange(t, c, c + (i - a));
}

/// An offset between those of two characters is that of a character between
/// them.
proof fn lemma_offset_between(s: Seq<char>, a: int, b: int, byte: int) -> (i: int)
    requires
        0 <= a <= b <= s.len(),
        style::on_boundary(s, byte),
        text::byte_at(s, a) <= byte <= text::byte_at(s, b),
    ensures
        a <= i <= b,
        text::byte_at(s, i) == byte,
{
    let i = choose|i: int| 0 <= i <= s.len() && #[trigger] text::byte_at(s, i) == byte;
    if i < a {
        text::lemma_byte_at_monotone(s, i, a);
    }
    if i > b {
        text::lemma_byte_at_monotone(s, b, i);
    }
    i
}

/// What a mapping moves of a run fits the text it is moved to.
proof fn lemma_moved_run_fits(s: Seq<char>, t: Seq<char>, m: Mapping, run: StyleRun)
    requires
        faithful(s, t, m),
        style::run_fits(s, run),
        text::byte_len(s) <= usize::MAX,
        text::byte_len(t) <= usize::MAX,
    ensures
        native_final::moved_run(run, m) matches Some(moved) ==> {
            &&& style::run_fits(t, moved)
            &&& moved.start_byte == m.destination + (native_final::moved_start(run, m) - m.start)
            &&& moved.end_byte == m.destination + (native_final::moved_end(run, m) - m.start)
        },
{
    if native_final::moved_run(run, m) is Some {
        let moved = native_final::moved_run(run, m).unwrap();
        let (a, b, c) = choose|a: int, b: int, c: int| moves(s, t, m, a, b, c);
        let start = native_final::moved_start(run, m);
        let end = native_final::moved_end(run, m);
        assert(style::on_boundary(s, m.start as int)) by {
            assert(text::byte_at(s, a) == m.start);
        }
        assert(style::on_boundary(s, m.end as int)) by {
            assert(text::byte_at(s, b) == m.end);
        }
        let i = lemma_offset_between(s, a, b, start);
        let j = lemma_offset_between(s, a, b, end);
        lemma_moved_offset(s, t, m, a, b, c, i);
        lemma_moved_offset(s, t, m, a, b, c, j);
        text::lemma_byte_at_monotone(t, c + (i - a), t.len() as int);
        text::lemma_byte_at_monotone(t, c + (j - a), t.len() as int);
        assert(style::on_boundary(t, moved.start_byte as int)) by {
            assert(text::byte_at(t, c + (i - a)) == moved.start_byte);
        }
        assert(style::on_boundary(t, moved.end_byte as int)) by {
            assert(text::byte_at(t, c + (j - a)) == moved.end_byte);
        }
    }
}

// ---------------------------------------------------------------------------
// All of them
// ---------------------------------------------------------------------------

/// Whether runs describe a text and all end by this byte.
pub open spec fn valid_upto(t: Seq<char>, runs: Seq<StyleRun>, limit: int) -> bool {
    &&& style::runs_valid(t, runs)
    &&& forall|i: int| 0 <= i < runs.len() ==> (#[trigger] runs[i]).end_byte <= limit
}

proof fn lemma_merge_keeps_valid(t: Seq<char>, runs: Seq<StyleRun>, run: StyleRun, limit: int)
    requires
        valid_upto(t, runs, limit),
        style::run_fits(t, run),
        limit <= run.start_byte,
    ensures
        valid_upto(t, style::merge_run(runs, run), run.end_byte as int),
{
    let merged = style::merge_run(runs, run);
    if merged.len() == runs.len() {
        let n = runs.len() - 1;
        assert forall|i: int| 0 <= i < merged.len() implies style::run_fits(t, #[trigger] merged[i])
            && merged[i].end_byte <= run.end_byte by {
            if i < n {
                assert(merged[i] == runs[i]);
            } else {
                assert(style::run_fits(t, runs[n]));
            }
        }
        assert forall|i: int, j: int| 0 <= i < j < merged.len() implies (
        #[trigger] merged[i]).end_byte <= (#[trigger] merged[j]).start_byte by {
            assert(merged[i] == runs[i]);
            assert(runs[i].end_byte <= runs[j].start_byte);
        }
    } else {
        assert forall|i: int| 0 <= i < merged.len() implies style::run_fits(t, #[trigger] merged[i])
            && merged[i].end_byte <= run.end_byte by {
            if i < runs.len() {
                assert(merged[i] == runs[i]);
            }
        }
        assert forall|i: int, j: int| 0 <= i < j < merged.len() implies (
        #[trigger] merged[i]).end_byte <= (#[trigger] merged[j]).start_byte by {
            assert(merged[i] == runs[i]);
            if j < runs.len() {
                assert(merged[j] == runs[j]);
            }
        }
    }
}

/// How far into a mapping the first `n` runs reach.
pub open spec fn reach(runs: Seq<StyleRun>, m: Mapping, n: int) -> int {
    if n <= 0 || runs[n - 1].end_byte < m.start {
        m.start as int
    } else if runs[n - 1].end_byte > m.end {
        m.end as int
    } else {
        runs[n - 1].end_byte as int
    }
}

proof fn lemma_moved_runs_valid(
    s: Seq<char>,
    t: Seq<char>,
    runs: Seq<StyleRun>,
    m: Mapping,
    n: int,
    before: Seq<StyleRun>,
)
    requires
        0 <= n <= runs.len(),
        style::runs_valid(s, runs),
        faithful(s, t, m),
        m.start <= m.end,
        valid_upto(t, before, m.destination as int),
        text::byte_len(s) <= usize::MAX,
        text::byte_len(t) <= usize::MAX,
    ensures
        valid_upto(
            t,
            native_final::moved_runs(runs, m, n, before),
            m.destination + (reach(runs, m, n) - m.start),
        ),
    decreases n,
{
    if n > 0 {
        lemma_moved_runs_valid(s, t, runs, m, n - 1, before);
        let run = runs[n - 1];
        assert(style::run_fits(s, run));
        lemma_moved_run_fits(s, t, m, run);
        let upto = native_final::moved_runs(runs, m, n - 1, before);
        let limit = m.destination + (reach(runs, m, n - 1) - m.start);
        if n > 1 {
            assert(runs[n - 2].end_byte <= runs[n - 1].start_byte);
            assert(style::run_fits(s, runs[n - 2]));
        }
        match native_final::moved_run(run, m) {
            None => {
                assert(reach(runs, m, n - 1) <= reach(runs, m, n));
            },
            Some(moved) => {
                lemma_merge_keeps_valid(t, upto, moved, limit);
            },
        }
    }
}

/// Whether mappings move to one place behind the other.
pub open spec fn in_order(mappings: Seq<Mapping>) -> bool {
    forall|i: int|
        0 < i < mappings.len() ==> destination_end(mappings[i - 1]) <= (
        #[trigger] mappings[i]).destination
}

/// Whether every mapping is faithful.
pub open spec fn all_faithful(s: Seq<char>, t: Seq<char>, mappings: Seq<Mapping>) -> bool {
    forall|i: int|
        0 <= i < mappings.len() ==> faithful(s, t, #[trigger] mappings[i]) && mappings[i].start
            <= mappings[i].end
}

proof fn lemma_sliced_runs_valid(
    s: Seq<char>,
    t: Seq<char>,
    runs: Seq<StyleRun>,
    mappings: Seq<Mapping>,
    n: int,
)
    requires
        0 <= n <= mappings.len(),
        style::runs_valid(s, runs),
        all_faithful(s, t, mappings),
        in_order(mappings),
        text::byte_len(s) <= usize::MAX,
        text::byte_len(t) <= usize::MAX,
    ensures
        valid_upto(
            t,
            native_final::sliced_runs(runs, mappings, n),
            if n > 0 {
                destination_end(mappings[n - 1])
            } else {
                0
            },
        ),
    decreases n,
{
    if n > 0 {
        lemma_sliced_runs_valid(s, t, runs, mappings, n - 1);
        let before = native_final::sliced_runs(runs, mappings, n - 1);
        let m = mappings[n - 1];
        assert(faithful(s, t, m));
        if n > 1 {
            assert(destination_end(mappings[n - 2]) <= mappings[n - 1].destination);
        }
        assert(valid_upto(t, before, m.destination as int));
        lemma_moved_runs_valid(s, t, runs, m, runs.len() as int, before);
    }
}

// ---------------------------------------------------------------------------
// An answer that stands line for line
// ---------------------------------------------------------------------------

pub(super) proof fn lemma_faithful(s: Seq<char>, t: Seq<char>, a: int, b: int, c: int)
    requires
        0 <= a <= b <= s.len(),
        0 <= c,
        c + (b - a) <= t.len(),
        s.subrange(a, b) == t.subrange(c, c + (b - a)),
        text::byte_len(s) <= usize::MAX,
        text::byte_len(t) <= usize::MAX,
    ensures
        ({
            let m = native_final::mapping(
                text::byte_at(s, a),
                text::byte_at(s, b),
                text::byte_at(t, c),
            );
            &&& faithful(s, t, m)
            &&& m.start <= m.end
            &&& m.destination == text::byte_at(t, c)
            &&& destination_end(m) == text::byte_at(t, c + (b - a))
        }),
{
    let m = native_final::mapping(text::byte_at(s, a), text::byte_at(s, b), text::byte_at(t, c));
    text::lemma_byte_at_monotone(s, a, b);
    text::lemma_byte_at_monotone(t, c, t.len() as int);
    assert(moves(s, t, m, a, b, c));
    lemma_moved_offset(s, t, m, a, b, c, b);
}

pub(super) proof fn lemma_opening_within(line: Seq<char>, prefixes: Seq<Seq<char>>)
    ensures
        native_final::opening(line, prefixes) matches Some(n) ==> n <= line.len(),
    decreases prefixes.len(),
{
    if prefixes.len() > 0 && !prefixes[0].is_prefix_of(line) {
        lemma_opening_within(line, prefixes.skip(1));
    }
}

/// One more mapping, to a place behind the others.
proof fn lemma_one_more_mapping(s: Seq<char>, t: Seq<char>, mappings: Seq<Mapping>, m: Mapping)
    requires
        all_faithful(s, t, mappings),
        in_order(mappings),
        faithful(s, t, m),
        m.start <= m.end,
        mappings.len() > 0 ==> destination_end(mappings.last()) <= m.destination,
    ensures
        all_faithful(s, t, mappings.push(m)),
        in_order(mappings.push(m)),
{
    let all = mappings.push(m);
    assert forall|i: int| 0 <= i < all.len() implies faithful(s, t, #[trigger] all[i])
        && all[i].start <= all[i].end by {
        if i < mappings.len() {
            assert(all[i] == mappings[i]);
        }
    }
    assert forall|i: int| 0 < i < all.len() implies destination_end(all[i - 1]) <= (
    #[trigger] all[i]).destination by {
        assert(all[i - 1] == mappings[i - 1]);
        if i < mappings.len() {
            assert(all[i] == mappings[i]);
        }
    }
}

/// What a line of an answer moves, and what the line feed behind it moves.
proof fn lemma_one_line(
    s: Seq<char>,
    drawn: LineRange,
    expected: Seq<char>,
    part: LineRange,
    prefixes: Seq<Seq<char>>,
)
    requires
        drawn.within(s),
        part.within(expected),
        native_final::shows(drawn.of(s), part.of(expected), prefixes),
        text::byte_len(s) <= usize::MAX,
        text::byte_len(expected) <= usize::MAX,
    ensures
        ({
            let start = native_final::content_at(
                drawn.of(s),
                part.of(expected),
                prefixes,
            ).unwrap();
            let m = native_final::mapping(
                text::byte_at(s, drawn.start + start),
                text::byte_at(s, drawn.end as int),
                text::byte_at(expected, part.start as int),
            );
            &&& faithful(s, expected, m)
            &&& m.start <= m.end
            &&& m.destination == text::byte_at(expected, part.start as int)
            &&& destination_end(m) == text::byte_at(expected, part.end as int)
        }),
{
    let start = native_final::content_at(drawn.of(s), part.of(expected), prefixes).unwrap();
    lemma_opening_within(drawn.of(s), prefixes);
    let shown = s.subrange(drawn.start + start, drawn.end as int);
    assert(shown =~= drawn.of(s).skip(start as int));
    assert(part.of(expected).len() == part.end - part.start);
    lemma_faithful(s, expected, drawn.start + start, drawn.end as int, part.start as int);
}

/// Whether the mappings of the first `n` lines of an answer are in order, and
/// leave what follows alone.
pub open spec fn lines_moved(
    s: Seq<char>,
    expected: Seq<char>,
    mappings: Seq<Mapping>,
    parts: Seq<LineRange>,
    n: int,
) -> bool {
    &&& all_faithful(s, expected, mappings)
    &&& in_order(mappings)
    &&& mappings.len() > 0 && n < parts.len() ==> destination_end(mappings.last())
        <= text::byte_at(expected, parts[n].start as int)
}

/// What is known of one line among the lines of a text.
pub(super) proof fn lemma_piece_at(s: Seq<char>, i: int)
    requires
        s.len() <= usize::MAX,
        0 <= i < text::pieces(s, '\n').len(),
    ensures
        text::pieces(s, '\n')[i].within(s),
        i + 1 < text::pieces(s, '\n').len() ==> {
            &&& text::pieces(s, '\n')[i].end < s.len()
            &&& s[text::pieces(s, '\n')[i].end as int] == '\n'
            &&& text::pieces(s, '\n')[i + 1].start == text::pieces(s, '\n')[i].end + 1
        },
{
    text::lemma_pieces_within(s, '\n');
    text::lemma_pieces_follow(s, '\n');
    if i + 1 < text::pieces(s, '\n').len() {
        assert(text::pieces(s, '\n')[i + 1].start == text::pieces(s, '\n')[i].end + 1);
    }
}

/// The line feed behind a line of an answer, moved like any other character.
proof fn lemma_line_feed(s: Seq<char>, at: int, expected: Seq<char>, to: int)
    requires
        0 <= at < s.len(),
        0 <= to < expected.len(),
        s[at] == '\n',
        expected[to] == '\n',
        text::byte_len(s) <= usize::MAX,
        text::byte_len(expected) <= usize::MAX,
    ensures
        ({
            let m = native_final::mapping(
                text::byte_at(s, at),
                text::byte_at(s, at + 1),
                text::byte_at(expected, to),
            );
            &&& faithful(s, expected, m)
            &&& m.start <= m.end
            &&& m.destination == text::byte_at(expected, to)
            &&& destination_end(m) == text::byte_at(expected, to + 1)
        }),
{
    assert(s.subrange(at, at + 1) =~= expected.subrange(to, to + 1));
    lemma_faithful(s, expected, at, at + 1, to);
}

/// One more line of an answer.
proof fn lemma_one_more_line(
    s: Seq<char>,
    drawn: LineRange,
    expected: Seq<char>,
    parts: Seq<LineRange>,
    prefixes: Seq<Seq<char>>,
    before: Seq<Mapping>,
    n: int,
)
    requires
        0 < n <= parts.len(),
        drawn.within(s),
        parts[n - 1].within(expected),
        native_final::shows(drawn.of(s), parts[n - 1].of(expected), prefixes),
        lines_moved(s, expected, before, parts, n - 1),
        n < parts.len() ==> {
            &&& drawn.end < s.len()
            &&& s[drawn.end as int] == '\n'
            &&& parts[n - 1].end < expected.len()
            &&& expected[parts[n - 1].end as int] == '\n'
            &&& parts[n].start == parts[n - 1].end + 1
        },
        text::byte_len(s) <= usize::MAX,
        text::byte_len(expected) <= usize::MAX,
    ensures
        ({
            let part = parts[n - 1];
            let start = native_final::content_at(
                drawn.of(s),
                part.of(expected),
                prefixes,
            ).unwrap();
            let upto = before.push(
                native_final::mapping(
                    text::byte_at(s, drawn.start + start),
                    text::byte_at(s, drawn.end as int),
                    text::byte_at(expected, part.start as int),
                ),
            );
            let all = if n < parts.len() {
                upto.push(
                    native_final::mapping(
                        text::byte_at(s, drawn.end as int),
                        text::byte_at(s, drawn.end + 1),
                        text::byte_at(expected, part.end as int),
                    ),
                )
            } else {
                upto
            };
            lines_moved(s, expected, all, parts, n)
        }),
{
    let part = parts[n - 1];
    let start = native_final::content_at(drawn.of(s), part.of(expected), prefixes).unwrap();
    let here = native_final::mapping(
        text::byte_at(s, drawn.start + start),
        text::byte_at(s, drawn.end as int),
        text::byte_at(expected, part.start as int),
    );
    lemma_one_line(s, drawn, expected, part, prefixes);
    lemma_one_more_mapping(s, expected, before, here);
    if n < parts.len() {
        let feed = native_final::mapping(
            text::byte_at(s, drawn.end as int),
            text::byte_at(s, drawn.end + 1),
            text::byte_at(expected, part.end as int),
        );
        lemma_line_feed(s, drawn.end as int, expected, part.end as int);
        lemma_one_more_mapping(s, expected, before.push(here), feed);
    }
}

pub(super) proof fn lemma_line_mappings(
    s: Seq<char>,
    lines: Seq<LineRange>,
    expected: Seq<char>,
    chrome: native_final::ChromeView,
    b: int,
    n: int,
)
    requires
        0 <= b,
        0 <= n <= text::pieces(expected, '\n').len(),
        lines == text::line_pieces(s),
        native_final::strict_at(s, lines, expected, chrome, b),
        text::byte_len(s) <= usize::MAX,
        text::byte_len(expected) <= usize::MAX,
        s.len() <= usize::MAX,
        expected.len() <= usize::MAX,
    ensures
        lines_moved(
            s,
            expected,
            native_final::line_mappings(s, lines, expected, chrome, b + 1, n),
            text::pieces(expected, '\n'),
            n,
        ),
    decreases n,
{
    if n > 0 {
        lemma_line_mappings(s, lines, expected, chrome, b, n - 1);
        let parts = text::pieces(expected, '\n');
        let k = n - 1;
        assert(native_final::shows(
            lines[b + 1 + k].of(s),
            parts[k].of(expected),
            native_final::prefixes_at(chrome, k),
        ));
        lemma_piece_at(s, b + n);
        lemma_piece_at(expected, n - 1);
        lemma_one_more_line(
            s,
            lines[b + n],
            expected,
            parts,
            native_final::prefixes_at(chrome, n - 1),
            native_final::line_mappings(s, lines, expected, chrome, b + 1, n - 1),
            n,
        );
    }
}

// ---------------------------------------------------------------------------
// An answer with line breaks of its own
// ---------------------------------------------------------------------------

/// Whether indices grow.
pub open spec fn growing(v: Seq<int>) -> bool {
    forall|i: int| 0 < i < v.len() ==> v[i - 1] < #[trigger] v[i]
}

pub(super) proof fn lemma_solid_grows(s: Seq<char>, from: int, to: int)
    requires
        0 <= from <= to <= s.len(),
    ensures
        growing(native_final::solid(s, from, to)),
        forall|i: int|
            0 <= i < native_final::solid(s, from, to).len() ==> from
                <= #[trigger] native_final::solid(s, from, to)[i] < to,
    decreases to - from,
{
    if from < to {
        lemma_solid_grows(s, from, to - 1);
        let before = native_final::solid(s, from, to - 1);
        let here = native_final::solid(s, from, to);
        assert forall|i: int| 0 <= i < here.len() implies from <= #[trigger] here[i] < to by {
            if i < before.len() {
                assert(here[i] == before[i]);
            }
        }
        assert forall|i: int| 0 < i < here.len() implies here[i - 1] < #[trigger] here[i] by {
            assert(here[i - 1] == before[i - 1]);
            if i < before.len() {
                assert(here[i] == before[i]);
            }
        }
    }
}

pub(super) proof fn lemma_solid_lines_within(
    s: Seq<char>,
    lines: Seq<LineRange>,
    chrome: native_final::ChromeView,
    first: int,
    n: int,
)
    requires
        0 <= first,
        n <= lines.len(),
        forall|i: int| 0 <= i < lines.len() ==> (#[trigger] lines[i]).within(s),
    ensures
        native_final::solid_lines(s, lines, chrome, first, n) matches Some(found) ==> forall|i: int|
            0 <= i < found.len() ==> 0 <= #[trigger] found[i] < s.len(),
    decreases n - first,
{
    if n > first {
        lemma_solid_lines_within(s, lines, chrome, first, n - 1);
        let line = lines[n - 1];
        assert(line.within(s));
        let prefixes = native_final::prefixes_at(chrome, n - 1 - first);
        lemma_opening_within(line.of(s), prefixes);
        match native_final::opening(line.of(s), prefixes) {
            None => {},
            Some(start) => {
                lemma_solid_grows(s, line.start + start, line.end as int);
            },
        }
    }
}

proof fn lemma_reflowed_runs_valid(
    s: Seq<char>,
    runs: Seq<StyleRun>,
    lines: Seq<LineRange>,
    expected: Seq<char>,
    chrome: native_final::ChromeView,
    first: int,
    trailing: int,
)
    requires
        0 <= first,
        trailing <= lines.len(),
        forall|i: int| 0 <= i < lines.len() ==> (#[trigger] lines[i]).within(s),
        style::runs_valid(s, runs),
        text::byte_len(s) <= usize::MAX,
        text::byte_len(expected) <= usize::MAX,
    ensures
        native_final::reflowed_runs(s, runs, lines, expected, chrome, first, trailing) matches Some(
            found,
        ) ==> style::runs_valid(expected, found),
{
    match native_final::solid_lines(s, lines, chrome, first, trailing) {
        None => {},
        Some(source) => {
            let target = native_final::solid(expected, 0, expected.len() as int);
            if target.len() > 0 && native_final::same_solids(s, source, expected, target) {
                lemma_solid_lines_within(s, lines, chrome, first, trailing);
                lemma_solid_grows(expected, 0, expected.len() as int);
                let mappings = Seq::new(
                    source.len(),
                    |i: int|
                        native_final::mapping(
                            text::byte_at(s, source[i]),
                            text::byte_at(s, source[i] + 1),
                            text::byte_at(expected, target[i]),
                        ),
                );
                assert forall|i: int| 0 <= i < mappings.len() implies faithful(
                    s,
                    expected,
                    #[trigger] mappings[i],
                ) && mappings[i].start <= mappings[i].end && mappings[i].destination
                    == text::byte_at(expected, target[i]) && destination_end(mappings[i])
                    == text::byte_at(expected, target[i] + 1) by {
                    assert(0 <= source[i] < s.len() && 0 <= target[i] < expected.len());
                    assert(s.subrange(source[i], source[i] + 1) =~= expected.subrange(
                        target[i],
                        target[i] + 1,
                    ));
                    lemma_faithful(s, expected, source[i], source[i] + 1, target[i]);
                }
                assert forall|i: int| 0 < i < mappings.len() implies destination_end(
                    mappings[i - 1],
                ) <= (#[trigger] mappings[i]).destination by {
                    assert(faithful(s, expected, mappings[i - 1]));
                    assert(target[i - 1] < target[i]);
                    text::lemma_byte_at_monotone(expected, target[i - 1] + 1, target[i]);
                }
                lemma_sliced_runs_valid(s, expected, runs, mappings, mappings.len() as int);
            }
        },
    }
}

// ---------------------------------------------------------------------------
// Every candidate
// ---------------------------------------------------------------------------

/// Whether the runs of every candidate describe the answer.
pub open spec fn all_valid(expected: Seq<char>, found: Seq<native_final::Candidate>) -> bool {
    forall|i: int| 0 <= i < found.len() ==> style::runs_valid(expected, (#[trigger] found[i]).runs)
}

proof fn lemma_strict_candidates_valid(
    s: Seq<char>,
    runs: Seq<StyleRun>,
    lines: Seq<LineRange>,
    expected: Seq<char>,
    chrome: native_final::ChromeView,
    n: int,
)
    requires
        n <= lines.len(),
        lines == text::line_pieces(s),
        style::runs_valid(s, runs),
        text::byte_len(s) <= usize::MAX,
        text::byte_len(expected) <= usize::MAX,
        s.len() <= usize::MAX,
        expected.len() <= usize::MAX,
    ensures
        all_valid(
            expected,
            native_final::strict_candidates(s, runs, lines, expected, chrome, n),
        ),
    decreases n,
{
    if n > 0 {
        lemma_strict_candidates_valid(s, runs, lines, expected, chrome, n - 1);
        if native_final::strict_at(s, lines, expected, chrome, n - 1) {
            let count = text::pieces(expected, '\n').len() as int;
            let mappings = native_final::line_mappings(s, lines, expected, chrome, n, count);
            lemma_line_mappings(s, lines, expected, chrome, n - 1, count);
            lemma_sliced_runs_valid(s, expected, runs, mappings, mappings.len() as int);
        }
    }
}

proof fn lemma_reflow_candidates_at_valid(
    s: Seq<char>,
    runs: Seq<StyleRun>,
    lines: Seq<LineRange>,
    expected: Seq<char>,
    chrome: native_final::ChromeView,
    trailing: int,
    n: int,
)
    requires
        trailing <= lines.len(),
        forall|i: int| 0 <= i < lines.len() ==> (#[trigger] lines[i]).within(s),
        style::runs_valid(s, runs),
        text::byte_len(s) <= usize::MAX,
        text::byte_len(expected) <= usize::MAX,
    ensures
        all_valid(
            expected,
            native_final::reflow_candidates_at(s, runs, lines, expected, chrome, trailing, n),
        ),
    decreases n,
{
    if n > 0 {
        lemma_reflow_candidates_at_valid(s, runs, lines, expected, chrome, trailing, n - 1);
        lemma_reflowed_runs_valid(s, runs, lines, expected, chrome, n - 1, trailing);
    }
}

proof fn lemma_reflow_candidates_valid(
    s: Seq<char>,
    runs: Seq<StyleRun>,
    lines: Seq<LineRange>,
    expected: Seq<char>,
    chrome: native_final::ChromeView,
    n: int,
)
    requires
        n <= lines.len(),
        forall|i: int| 0 <= i < lines.len() ==> (#[trigger] lines[i]).within(s),
        style::runs_valid(s, runs),
        text::byte_len(s) <= usize::MAX,
        text::byte_len(expected) <= usize::MAX,
    ensures
        all_valid(
            expected,
            native_final::reflow_candidates(s, runs, lines, expected, chrome, n),
        ),
    decreases n,
{
    if n > 0 {
        lemma_reflow_candidates_valid(s, runs, lines, expected, chrome, n - 1);
        lemma_reflow_candidates_at_valid(s, runs, lines, expected, chrome, n - 1, n - 1);
        let before = native_final::reflow_candidates(s, runs, lines, expected, chrome, n - 1);
        let more = native_final::reflow_candidates_at(
            s,
            runs,
            lines,
            expected,
            chrome,
            n - 1,
            n - 1,
        );
        let both = before + more;
        assert forall|i: int| 0 <= i < both.len() implies style::runs_valid(
            expected,
            (#[trigger] both[i]).runs,
        ) by {
            if i < before.len() {
                assert(both[i] == before[i]);
            } else {
                assert(both[i] == more[i - before.len()]);
            }
        }
    }
}

/// An answer that is found in a pane reads as the transcript has it, and its
/// native styles describe that text: they cover whole characters of it, one
/// after the other.
pub proof fn lemma_captured_styles_describe_the_answer(
    captured: style::StyledView,
    expected: Seq<char>,
    chrome: native_final::ChromeView,
)
    requires
        style::runs_valid(captured.text, captured.runs),
        text::byte_len(captured.text) <= usize::MAX,
        text::byte_len(expected) <= usize::MAX,
    ensures
        native_final::native_final(captured, expected, chrome) matches Some(styled) ==> styled.text
            == expected && style::runs_valid(expected, styled.runs),
{
    let s = captured.text;
    let lines = text::line_pieces(s);
    let n = lines.len() as int;
    text::lemma_byte_at_ends(s);
    text::lemma_byte_at_ends(expected);
    text::lemma_byte_at_monotone(s, 0, s.len() as int);
    text::lemma_byte_at_monotone(expected, 0, expected.len() as int);
    text::lemma_pieces_within(s, '\n');
    lemma_strict_candidates_valid(s, captured.runs, lines, expected, chrome, n);
    lemma_reflow_candidates_valid(s, captured.runs, lines, expected, chrome, n);
}

// ---------------------------------------------------------------------------
// What an accepted block shows
// ---------------------------------------------------------------------------

/// Whether the lines from `first` up to `last` show the answer, right above a
/// trailing boundary and the composer.
pub open spec fn answered_at(
    s: Seq<char>,
    lines: Seq<LineRange>,
    expected: Seq<char>,
    chrome: native_final::ChromeView,
    first: int,
    last: int,
) -> bool {
    &&& 0 <= first < last
    &&& last + 1 < lines.len()
    &&& native_final::trailing_boundary(lines[last].of(s), chrome)
    &&& native_final::composer_line(lines[last + 1].of(s), chrome)
    &&& native_final::reads_as(
        native_final::drawn_text(s, lines, chrome, first, last),
        expected,
    )
}

proof fn lemma_line_shows_its_part(line: Seq<char>, part: Seq<char>, prefixes: Seq<Seq<char>>)
    requires
        native_final::shows(line, part, prefixes),
    ensures
        native_final::line_content(line, prefixes) == part,
{
    lemma_opening_within(line, prefixes);
    if line.len() == 0 && part.len() == 0 {
        assert(native_final::line_content(line, prefixes) =~= part);
    }
}

proof fn lemma_first_piece_starts_the_text(s: Seq<char>, n: int)
    requires
        0 <= n <= s.len(),
        s.len() <= usize::MAX,
    ensures
        text::closed_pieces(s, '\n', n).len() > 0 ==> text::closed_pieces(s, '\n', n)[0].start == 0,
        text::closed_pieces(s, '\n', n).len() == 0 ==> text::piece_start(s, '\n', n) == 0,
    decreases n,
{
    if n > 0 {
        lemma_first_piece_starts_the_text(s, n - 1);
    }
}

pub(super) proof fn lemma_strict_lines_read_as_the_answer(
    s: Seq<char>,
    lines: Seq<LineRange>,
    expected: Seq<char>,
    chrome: native_final::ChromeView,
    b: int,
    n: int,
)
    requires
        expected.len() <= usize::MAX,
        native_final::strict_at(s, lines, expected, chrome, b),
        0 < n <= text::pieces(expected, '\n').len(),
    ensures
        native_final::drawn_text(s, lines, chrome, b + 1, b + 1 + n) == expected.take(
            text::pieces(expected, '\n')[n - 1].end as int,
        ),
    decreases n,
{
    let parts = text::pieces(expected, '\n');
    let part = parts[n - 1];
    lemma_piece_at(expected, n - 1);
    assert(native_final::shows(
        lines[b + 1 + (n - 1)].of(s),
        part.of(expected),
        native_final::prefixes_at(chrome, n - 1),
    ));
    lemma_line_shows_its_part(
        lines[b + 1 + (n - 1)].of(s),
        part.of(expected),
        native_final::prefixes_at(chrome, n - 1),
    );
    assert(b + 1 + n - 1 == b + 1 + (n - 1));
    let here = native_final::drawn_text(s, lines, chrome, b + 1, b + 1 + n);
    if n == 1 {
        lemma_first_piece_starts_the_text(expected, expected.len() as int);
        assert(part.start == 0);
        assert(here =~= expected.take(part.end as int));
    } else {
        lemma_strict_lines_read_as_the_answer(s, lines, expected, chrome, b, n - 1);
        lemma_piece_at(expected, n - 2);
        assert(here =~= expected.take(part.end as int));
    }
}

proof fn lemma_strict_candidates_are_answers(
    s: Seq<char>,
    runs: Seq<StyleRun>,
    lines: Seq<LineRange>,
    expected: Seq<char>,
    chrome: native_final::ChromeView,
    n: int,
)
    requires
        expected.len() <= usize::MAX,
        native_final::strict_candidates(s, runs, lines, expected, chrome, n).len() > 0,
    ensures
        exists|first: int, last: int| #[trigger]
            answered_at(s, lines, expected, chrome, first, last),
    decreases n,
{
    if n > 0 {
        if native_final::strict_at(s, lines, expected, chrome, n - 1) {
            let parts = text::pieces(expected, '\n');
            let count = parts.len() as int;
            text::lemma_pieces_within(expected, '\n');
            lemma_strict_lines_read_as_the_answer(s, lines, expected, chrome, n - 1, count);
            assert(expected.take(expected.len() as int) =~= expected);
            assert(n - 1 + 1 == n && n - 1 + 1 + count == n + count);
            assert(answered_at(s, lines, expected, chrome, n, n + count));
        } else {
            lemma_strict_candidates_are_answers(s, runs, lines, expected, chrome, n - 1);
        }
    }
}

proof fn lemma_reflow_candidates_at_are_answers(
    s: Seq<char>,
    runs: Seq<StyleRun>,
    lines: Seq<LineRange>,
    expected: Seq<char>,
    chrome: native_final::ChromeView,
    trailing: int,
    n: int,
)
    requires
        n <= trailing,
        trailing + 1 < lines.len(),
        native_final::trailing_boundary(lines[trailing].of(s), chrome),
        native_final::composer_line(lines[trailing + 1].of(s), chrome),
        native_final::reflow_candidates_at(s, runs, lines, expected, chrome, trailing, n).len() > 0,
    ensures
        exists|first: int, last: int| #[trigger]
            answered_at(s, lines, expected, chrome, first, last),
    decreases n,
{
    if n > 0 {
        if native_final::reflow_candidates_at(s, runs, lines, expected, chrome, trailing, n - 1).len()
            > 0 {
            lemma_reflow_candidates_at_are_answers(
                s,
                runs,
                lines,
                expected,
                chrome,
                trailing,
                n - 1,
            );
        } else {
            assert(answered_at(s, lines, expected, chrome, n - 1, trailing));
        }
    }
}

proof fn lemma_reflow_candidates_are_answers(
    s: Seq<char>,
    runs: Seq<StyleRun>,
    lines: Seq<LineRange>,
    expected: Seq<char>,
    chrome: native_final::ChromeView,
    n: int,
)
    requires
        n <= lines.len(),
        native_final::reflow_candidates(s, runs, lines, expected, chrome, n).len() > 0,
    ensures
        exists|first: int, last: int| #[trigger]
            answered_at(s, lines, expected, chrome, first, last),
    decreases n,
{
    if n > 0 {
        if native_final::reflow_candidates(s, runs, lines, expected, chrome, n - 1).len() > 0 {
            lemma_reflow_candidates_are_answers(s, runs, lines, expected, chrome, n - 1);
        } else {
            lemma_reflow_candidates_at_are_answers(
                s,
                runs,
                lines,
                expected,
                chrome,
                n - 1,
                n - 1,
            );
        }
    }
}

/// A block is taken for the answer only where it shows the answer, character by
/// character: right above a trailing boundary and the composer stand lines that
/// read as the text of the transcript, with line breaks at some of its spaces at
/// most.
pub proof fn lemma_accepted_block_reads_as_the_answer(
    captured: style::StyledView,
    expected: Seq<char>,
    chrome: native_final::ChromeView,
)
    requires
        text::byte_len(expected) <= usize::MAX,
    ensures
        native_final::native_final(captured, expected, chrome) is Some ==> exists|
            first: int,
            last: int,
        | #[trigger]
            answered_at(
                captured.text,
                text::line_pieces(captured.text),
                expected,
                chrome,
                first,
                last,
            ),
{
    let s = captured.text;
    let lines = text::line_pieces(s);
    let n = lines.len() as int;
    text::lemma_byte_at_ends(expected);
    text::lemma_byte_at_monotone(expected, 0, expected.len() as int);
    if native_final::native_final(captured, expected, chrome) is Some {
        if native_final::strict_candidates(s, captured.runs, lines, expected, chrome, n).len() > 0 {
            lemma_strict_candidates_are_answers(s, captured.runs, lines, expected, chrome, n);
        } else {
            lemma_reflow_candidates_are_answers(s, captured.runs, lines, expected, chrome, n);
        }
    }
}

}
