//! What a terminal writes is read back as it was meant.

use crate::ansi;
use crate::style;
use crate::style::{AnsiColor, StyleModifiers, StyleState};
use crate::text;
use crate::width;
use vstd::prelude::*;

verus! {

// ---------------------------------------------------------------------------
// What follows is read the same wherever it stands
// ---------------------------------------------------------------------------

proof fn lemma_csi_last_behind(pre: Seq<char>, t: Seq<char>, i: int)
    requires
        0 <= i <= t.len(),
    ensures
        ansi::csi_last(pre + t, pre.len() + i) == pre.len() + ansi::csi_last(t, i),
        i <= ansi::csi_last(t, i) <= t.len(),
    decreases t.len() - i,
{
    if i < t.len() {
        assert((pre + t)[pre.len() + i] == t[i]);
        if !ansi::csi_final(t[i]) {
            lemma_csi_last_behind(pre, t, i + 1);
        }
    }
}

proof fn lemma_string_end_behind(pre: Seq<char>, t: Seq<char>, i: int, bell: bool)
    requires
        0 <= i <= t.len(),
    ensures
        ansi::string_end(pre + t, pre.len() + i, bell) == pre.len() + ansi::string_end(t, i, bell),
    decreases t.len() - i,
{
    let s = pre + t;
    if i < t.len() {
        assert(s[pre.len() + i] == t[i]);
        if i + 1 < t.len() {
            assert(s[pre.len() + i + 1] == t[i + 1]);
        }
        lemma_string_end_behind(pre, t, i + 1, bell);
    }
}

proof fn lemma_intermediates_end_behind(pre: Seq<char>, t: Seq<char>, i: int)
    requires
        0 <= i <= t.len(),
    ensures
        ansi::intermediates_end(pre + t, pre.len() + i) == pre.len() + ansi::intermediates_end(
            t,
            i,
        ),
        i <= ansi::intermediates_end(t, i) <= t.len(),
    decreases t.len() - i,
{
    if i < t.len() {
        assert((pre + t)[pre.len() + i] == t[i]);
        if ansi::intermediate(t[i]) {
            lemma_intermediates_end_behind(pre, t, i + 1);
        }
    }
}

proof fn lemma_escape_behind(pre: Seq<char>, t: Seq<char>, i: int, style: StyleState)
    requires
        0 <= i < t.len(),
    ensures
        ansi::escape_end(pre + t, pre.len() + i) == pre.len() + ansi::escape_end(t, i),
        ansi::escape_style(pre + t, pre.len() + i, style) == ansi::escape_style(t, i, style),
{
    let s = pre + t;
    let n = pre.len() as int;
    if i + 1 < t.len() {
        assert(s[n + i + 1] == t[i + 1]);
        lemma_csi_last_behind(pre, t, i + 2);
        lemma_string_end_behind(pre, t, i + 2, true);
        lemma_string_end_behind(pre, t, i + 2, false);
        lemma_intermediates_end_behind(pre, t, i + 2);
        let last = ansi::csi_last(t, i + 2);
        if last < t.len() {
            assert(s[n + last] == t[last]);
            assert(s.subrange(n + i + 2, n + last) =~= t.subrange(i + 2, last));
        }
        let end = ansi::intermediates_end(t, i + 2);
        if end < t.len() {
            assert(s[n + end] == t[end]);
        }
    }
}

/// A text is read the same whatever stands before it, as long as it starts in the same
/// column and style.
proof fn lemma_read_behind(
    pre: Seq<char>,
    t: Seq<char>,
    i: int,
    column: nat,
    style: StyleState,
)
    requires
        0 <= i <= t.len(),
    ensures
        ansi::cells_from(pre + t, pre.len() + i, column, style) == ansi::cells_from(
            t,
            i,
            column,
            style,
        ),
    decreases t.len() - i,
{
    let s = pre + t;
    let n = pre.len() as int;
    if i < t.len() {
        assert(s[n + i] == t[i]);
        if i + 1 < t.len() {
            assert(s[n + i + 1] == t[i + 1]);
        }
        if t[i] == '\x1b' {
            lemma_escape_behind(pre, t, i, style);
            ansi::lemma_escape_end(t, i);
            lemma_read_behind(
                pre,
                t,
                ansi::escape_end(t, i),
                column,
                ansi::escape_style(t, i, style),
            );
        } else if t[i] == '\r' || t[i] == '\n' {
            lemma_read_behind(pre, t, i + ansi::line_end_len(t, i), 0, style);
        } else if t[i] == '\t' {
            lemma_read_behind(pre, t, i + 1, 0, style);
        } else if text::control(t[i]) {
            lemma_read_behind(pre, t, i + 1, column, style);
        } else {
            let next = (column + width::cell_width(t[i])) % ansi::TAB_WIDTH as nat;
            lemma_read_behind(pre, t, i + 1, next, style);
        }
    }
}

// ---------------------------------------------------------------------------
// Sequences
// ---------------------------------------------------------------------------

/// A control sequence: an escape, a bracket, its parameters and the character that
/// ends it.
pub open spec fn sequence(body: Seq<char>, end: char) -> Seq<char> {
    seq!['\x1b', '['] + body + seq![end]
}

/// Whether some text can be the parameters of a control sequence: nothing in it ends
/// one.
pub open spec fn open_ended(body: Seq<char>) -> bool {
    forall|i: int| 0 <= i < body.len() ==> !(0x40 <= (#[trigger] body[i] as u32) <= 0x7e)
}

proof fn lemma_csi_last_is(s: Seq<char>, i: int, last: int)
    requires
        0 <= i <= last < s.len(),
        forall|k: int| i <= k < last ==> !ansi::csi_final(#[trigger] s[k]),
        ansi::csi_final(s[last]),
    ensures
        ansi::csi_last(s, i) == last,
    decreases last - i,
{
    if i < last {
        assert(!ansi::csi_final(s[i]));
        lemma_csi_last_is(s, i + 1, last);
    }
}

/// A control sequence shows nothing. One that ends in `m` changes the style of what
/// follows, any other changes nothing.
pub proof fn lemma_sequence_is_read(
    body: Seq<char>,
    end: char,
    rest: Seq<char>,
    column: nat,
    style: StyleState,
)
    requires
        open_ended(body),
        0x40 <= (end as u32) <= 0x7e,
    ensures
        ansi::cells_from(sequence(body, end) + rest, 0, column, style) == ansi::cells_from(
            rest,
            0,
            column,
            if end == 'm' {
                ansi::sgr_style(body, style)
            } else {
                style
            },
        ),
{
    let head = sequence(body, end);
    let s = head + rest;
    let last = 2 + body.len() as int;
    assert(s[0] == '\x1b' && s[1] == '[');
    assert forall|k: int| 2 <= k < last implies !ansi::csi_final(#[trigger] s[k]) by {
        assert(s[k] == body[k - 2]);
    }
    assert(s[last] == end);
    lemma_csi_last_is(s, 2, last);
    assert(s.subrange(2, last) =~= body);
    assert(ansi::escape_end(s, 0) == last + 1);
    lemma_read_behind(
        head,
        rest,
        0,
        column,
        ansi::escape_style(s, 0, style),
    );
    assert(head.len() == last + 1);
}

proof fn lemma_string_end_is(s: Seq<char>, i: int, at: int, bell: bool)
    requires
        0 <= i <= at < s.len(),
        forall|k: int| i <= k < at ==> #[trigger] s[k] != '\x1b' && s[k] != '\x07',
        (bell && s[at] == '\x07') || (s[at] == '\x1b' && at + 1 < s.len() && s[at + 1] == '\\'),
    ensures
        ansi::string_end(s, i, bell) == (if s[at] == '\x07' {
            at + 1
        } else {
            at + 2
        }),
    decreases at - i,
{
    if i < at {
        assert(s[i] != '\x1b' && s[i] != '\x07');
        lemma_string_end_is(s, i + 1, at, bell);
    }
}

/// A string that a program sends to the terminal, such as the title of its window,
/// shows nothing and changes nothing, up to and with what ends it.
pub proof fn lemma_string_is_skipped(
    kind: char,
    body: Seq<char>,
    by_bell: bool,
    rest: Seq<char>,
    column: nat,
    style: StyleState,
)
    requires
        kind == ']' || kind == 'P' || kind == '_' || kind == '^',
        by_bell ==> kind == ']',
        forall|k: int| 0 <= k < body.len() ==> #[trigger] body[k] != '\x1b' && body[k] != '\x07',
    ensures
        ({
            let end = if by_bell {
                seq!['\x07']
            } else {
                seq!['\x1b', '\\']
            };
            ansi::cells_from(seq!['\x1b', kind] + body + end + rest, 0, column, style)
                == ansi::cells_from(rest, 0, column, style)
        }),
{
    let end = if by_bell {
        seq!['\x07']
    } else {
        seq!['\x1b', '\\']
    };
    let head = seq!['\x1b', kind] + body + end;
    let s = head + rest;
    let at = 2 + body.len() as int;
    assert(s[0] == '\x1b' && s[1] == kind);
    assert forall|k: int| 2 <= k < at implies #[trigger] s[k] != '\x1b' && s[k] != '\x07' by {
        assert(s[k] == body[k - 2]);
    }
    assert(s[at] == end[0]);
    if !by_bell {
        assert(s[at + 1] == end[1]);
    }
    lemma_string_end_is(s, 2, at, kind == ']');
    assert(ansi::escape_end(s, 0) == head.len());
    lemma_read_behind(head, rest, 0, column, style);
}

/// A carriage return and the line feed behind it are one line end, as either is by
/// itself.
pub proof fn lemma_line_ends_are_alike(rest: Seq<char>, column: nat, style: StyleState)
    ensures
        ansi::cells_from(seq!['\r', '\n'] + rest, 0, column, style) == seq![('\n', style)]
            + ansi::cells_from(rest, 0, 0, style),
        ansi::cells_from(seq!['\n'] + rest, 0, column, style) == seq![('\n', style)]
            + ansi::cells_from(rest, 0, 0, style),
        rest.len() > 0 && rest[0] != '\n' ==> ansi::cells_from(
            seq!['\r'] + rest,
            0,
            column,
            style,
        ) == seq![('\n', style)] + ansi::cells_from(rest, 0, 0, style),
{
    let both = seq!['\r', '\n'] + rest;
    assert(both[0] == '\r' && both[1] == '\n');
    lemma_read_behind(seq!['\r', '\n'], rest, 0, 0, style);
    let feed = seq!['\n'] + rest;
    assert(feed[0] == '\n');
    lemma_read_behind(seq!['\n'], rest, 0, 0, style);
    let back = seq!['\r'] + rest;
    assert(back[0] == '\r');
    if rest.len() > 0 {
        assert(back[1] == rest[0]);
    }
    lemma_read_behind(seq!['\r'], rest, 0, 0, style);
}

/// A tab shows spaces in its style up to the next column that is a multiple of eight,
/// one at least.
pub proof fn lemma_tab_reaches_the_next_stop(rest: Seq<char>, column: nat, style: StyleState)
    requires
        column < 8,
    ensures
        ({
            let n = (8 - column) as nat;
            &&& 1 <= n <= 8
            &&& (column + n) % 8 == 0
            &&& ansi::cells_from(seq!['\t'] + rest, 0, column, style) == Seq::new(
                n,
                |k: int| (' ', style),
            ) + ansi::cells_from(rest, 0, 0, style)
        }),
{
    let s = seq!['\t'] + rest;
    assert(s[0] == '\t');
    lemma_read_behind(seq!['\t'], rest, 0, 0, style);
    assert(ansi::cells_from(s, 0, column, style) =~= Seq::new(
        (8 - column) as nat,
        |k: int| (' ', style),
    ) + ansi::cells_from(rest, 0, 0, style));
}

/// A character that is no control character is shown in the style that holds there, and
/// the column moves on by what it takes.
pub proof fn lemma_character_is_shown(
    c: char,
    rest: Seq<char>,
    column: nat,
    style: StyleState,
)
    requires
        !text::control(c),
    ensures
        ansi::cells_from(seq![c] + rest, 0, column, style) == seq![(c, style)] + ansi::cells_from(
            rest,
            0,
            (column + width::cell_width(c)) % 8,
            style,
        ),
{
    let s = seq![c] + rest;
    assert(s[0] == c);
    lemma_read_behind(seq![c], rest, 0, (column + width::cell_width(c)) % 8, style);
}

// ---------------------------------------------------------------------------
// Parameters
// ---------------------------------------------------------------------------

/// Parameters as they are written: in decimal, with a semicolon between two.
pub open spec fn parameter_text(p: Seq<u16>) -> Seq<char>
    decreases p.len(),
{
    if p.len() == 0 {
        Seq::empty()
    } else if p.len() == 1 {
        text::decimal_text(p[0] as nat)
    } else {
        parameter_text(p.drop_last()).push(';') + text::decimal_text(p.last() as nat)
    }
}

proof fn lemma_short_number(n: nat)
    ensures
        text::decimal_text(n).len() <= n + 1,
    decreases n,
{
    if n >= 10 {
        lemma_short_number(n / 10);
    }
}

proof fn lemma_parameters_read_back(p: Seq<u16>)
    requires
        0 < p.len() <= 100,
    ensures
        ({
            let s = parameter_text(p);
            let parts = text::pieces(s, ';');
            &&& 0 < s.len() <= p.len() * 65537
            &&& open_ended(s)
            &&& parts.len() == p.len()
            &&& forall|i: int|
                0 <= i < p.len() ==> (#[trigger] parts[i]).start <= parts[i].end <= s.len()
                    && parts[i].of(s) == text::decimal_text(p[i] as nat)
        }),
    decreases p.len(),
{
    let s = parameter_text(p);
    let last = text::decimal_text(p.last() as nat);
    text::lemma_decimal_text_reads_back(p.last() as nat);
    lemma_short_number(p.last() as nat);
    assert forall|k: int| 0 <= k < last.len() implies #[trigger] last[k] != ';' by {
        assert(text::ascii_digit(last[k]));
    }
    if p.len() == 1 {
        text::lemma_one_more_piece(Seq::empty(), ';', last);
        assert(text::pieces(s, ';') =~= seq![text::range(0, last.len() as int)]);
        assert(text::pieces(s, ';')[0].of(s) =~= last);
        assert forall|i: int| 0 <= i < s.len() implies !(0x40 <= (#[trigger] s[i] as u32)
            <= 0x7e) by {
            assert(text::ascii_digit(last[i]));
        }
    } else {
        let before = parameter_text(p.drop_last());
        lemma_parameters_read_back(p.drop_last());
        text::lemma_one_more_piece(before, ';', last);
        let earlier = text::pieces(before, ';');
        let parts = text::pieces(s, ';');
        let added = text::range(before.len() as int + 1, before.len() as int + 1 + last.len());
        assert(parts == earlier.push(added));
        assert(p.len() * 65537 == (p.len() - 1) * 65537 + 65537) by (nonlinear_arith);
        assert forall|i: int| 0 <= i < p.len() implies (#[trigger] parts[i]).start <= parts[i].end
            <= s.len() && parts[i].of(s) == text::decimal_text(p[i] as nat) by {
            if i < p.len() - 1 {
                assert(parts[i] == earlier[i]);
                assert(parts[i].of(s) =~= earlier[i].of(before));
                assert(p.drop_last()[i] == p[i]);
            } else {
                assert(parts[i].of(s) =~= last);
            }
        }
        assert forall|i: int| 0 <= i < s.len() implies !(0x40 <= (#[trigger] s[i] as u32)
            <= 0x7e) by {
            if i < before.len() {
                assert(s[i] == before[i]);
            } else if i > before.len() {
                assert(s[i] == last[i - before.len() - 1]);
                assert(text::ascii_digit(last[i - before.len() - 1]));
            }
        }
    }
}

/// Parameters are read as they are written.
pub proof fn lemma_written_parameters_apply(p: Seq<u16>, style: StyleState)
    requires
        0 < p.len() <= 100,
    ensures
        open_ended(parameter_text(p)),
        ansi::sgr_style(parameter_text(p), style) == ansi::sgr_from(p, 0, style),
        ansi::sgr_style(Seq::empty(), style) == style::plain_style(),
{
    let s = parameter_text(p);
    lemma_parameters_read_back(p);
    assert forall|i: int| 0 <= i < text::pieces(s, ';').len() implies ansi::parameter(
        #[trigger] text::pieces(s, ';')[i].of(s),
    ) by {
        let part = text::pieces(s, ';')[i];
        assert(part.of(s) == text::decimal_text(p[i] as nat));
        text::lemma_decimal_text_reads_back(p[i] as nat);
    }
    assert forall|i: int| 0 <= i < p.len() implies #[trigger] ansi::parameters(s)[i] == p[i] by {
        let part = text::pieces(s, ';')[i];
        assert(part.of(s) == text::decimal_text(p[i] as nat));
        text::lemma_decimal_text_reads_back(p[i] as nat);
    }
    assert(ansi::parameters(s) =~= p);
    let none = Seq::<char>::empty();
    assert(ansi::parameters(none) =~= seq![0u16]);
    reveal_with_fuel(ansi::sgr_from, 2);
}

// ---------------------------------------------------------------------------
// Styles
// ---------------------------------------------------------------------------

proof fn lemma_step_behind(pre: Seq<u16>, q: Seq<u16>, k: int, style: StyleState)
    requires
        0 <= k < q.len(),
    ensures
        ansi::sgr_step(pre + q, pre.len() + k, style) == ansi::sgr_step(q, k, style),
        ansi::sgr_len(pre + q, pre.len() + k) == ansi::sgr_len(q, k),
        1 <= ansi::sgr_len(q, k) <= q.len() - k,
{
    let p = pre + q;
    let n = pre.len() as int;
    assert forall|j: int| 0 <= j < q.len() implies p[n + j] == #[trigger] q[j] by {}
    assert(p[n + k] == q[k]);
    if k + 1 < q.len() {
        assert(p[n + k + 1] == q[k + 1]);
    }
    if k + 2 < q.len() {
        assert(p[n + k + 2] == q[k + 2]);
    }
    if k + 3 < q.len() {
        assert(p[n + k + 3] == q[k + 3]);
    }
    if k + 4 < q.len() {
        assert(p[n + k + 4] == q[k + 4]);
    }
}

proof fn lemma_parameters_behind(pre: Seq<u16>, q: Seq<u16>, k: int, style: StyleState)
    requires
        0 <= k <= q.len(),
    ensures
        ansi::sgr_from(pre + q, pre.len() + k, style) == ansi::sgr_from(q, k, style),
    decreases q.len() - k,
{
    if k < q.len() {
        lemma_step_behind(pre, q, k, style);
        lemma_parameters_behind(
            pre,
            q,
            k + ansi::sgr_len(q, k),
            ansi::sgr_step(q, k, style),
        );
    }
}

/// What one parameter by itself does to a style: it sets or clears what it names and
/// leaves the rest alone. A parameter that names nothing changes nothing.
pub open spec fn single(code: u16, style: StyleState) -> StyleState {
    let m = style.modifiers;
    let changed = match code {
        1 => StyleModifiers { bold: true, ..m },
        2 => StyleModifiers { dim: true, ..m },
        3 => StyleModifiers { italic: true, ..m },
        4 => StyleModifiers { underline: true, ..m },
        7 => StyleModifiers { reverse: true, ..m },
        22 => StyleModifiers { bold: false, dim: false, ..m },
        23 => StyleModifiers { italic: false, ..m },
        24 => StyleModifiers { underline: false, ..m },
        27 => StyleModifiers { reverse: false, ..m },
        _ => m,
    };
    match code {
        0 => StyleState { foreground: None, background: None, modifiers: style::no_modifiers() },
        39 => StyleState { foreground: None, ..style },
        49 => StyleState { background: None, ..style },
        _ => StyleState { modifiers: changed, ..style },
    }
}

/// Whether a parameter names a color, or opens one of several parameters.
pub open spec fn colorful(code: u16) -> bool {
    ||| 30 <= code <= 38
    ||| 40 <= code <= 48
    ||| 90 <= code <= 97
    ||| 100 <= code <= 107
    ||| code == 58
}

/// A parameter that names no color does what it does, and what follows is read behind
/// it.
pub proof fn lemma_single_parameter(code: u16, q: Seq<u16>, style: StyleState)
    requires
        !colorful(code),
    ensures
        ansi::sgr_from(seq![code] + q, 0, style) == ansi::sgr_from(q, 0, single(code, style)),
{
    let p = seq![code] + q;
    assert(p[0] == code);
    assert(ansi::sgr_step(p, 0, style) == single(code, style));
    lemma_parameters_behind(seq![code], q, 0, single(code, style));
}

/// The parameters that name a color: of the text, or of what is behind it.
pub open spec fn color_codes(color: AnsiColor, behind: bool) -> Seq<u16> {
    let more: int = if behind {
        10
    } else {
        0
    };
    match color {
        AnsiColor::Black => seq![(30 + more) as u16],
        AnsiColor::Red => seq![(31 + more) as u16],
        AnsiColor::Green => seq![(32 + more) as u16],
        AnsiColor::Yellow => seq![(33 + more) as u16],
        AnsiColor::Blue => seq![(34 + more) as u16],
        AnsiColor::Magenta => seq![(35 + more) as u16],
        AnsiColor::Cyan => seq![(36 + more) as u16],
        AnsiColor::White => seq![(37 + more) as u16],
        AnsiColor::BrightBlack => seq![(90 + more) as u16],
        AnsiColor::BrightRed => seq![(91 + more) as u16],
        AnsiColor::BrightGreen => seq![(92 + more) as u16],
        AnsiColor::BrightYellow => seq![(93 + more) as u16],
        AnsiColor::BrightBlue => seq![(94 + more) as u16],
        AnsiColor::BrightMagenta => seq![(95 + more) as u16],
        AnsiColor::BrightCyan => seq![(96 + more) as u16],
        AnsiColor::BrightWhite => seq![(97 + more) as u16],
        AnsiColor::Indexed(n) => seq![(38 + more) as u16, 5u16, n as u16],
        AnsiColor::Rgb(r, g, b) => seq![(38 + more) as u16, 2u16, r as u16, g as u16, b as u16],
    }
}

/// The parameters of a color set it, of the text or of what is behind it, and nothing
/// else; and what follows is read behind them.
pub proof fn lemma_color_parameters(
    color: AnsiColor,
    behind: bool,
    q: Seq<u16>,
    style: StyleState,
)
    ensures
        ansi::sgr_from(color_codes(color, behind) + q, 0, style) == ansi::sgr_from(
            q,
            0,
            if behind {
                StyleState { background: Some(color), ..style }
            } else {
                StyleState { foreground: Some(color), ..style }
            },
        ),
{
    let codes = color_codes(color, behind);
    let p = codes + q;
    let next = if behind {
        StyleState { background: Some(color), ..style }
    } else {
        StyleState { foreground: Some(color), ..style }
    };
    assert forall|j: int| 0 <= j < codes.len() implies #[trigger] p[j] == codes[j] by {}
    assert(p[0] == codes[0]);
    if codes.len() > 1 {
        assert(p[1] == codes[1] && p[2] == codes[2]);
    }
    if codes.len() > 3 {
        assert(p[3] == codes[3] && p[4] == codes[4]);
    }
    assert(ansi::sgr_len(p, 0) == codes.len());
    assert(ansi::sgr_step(p, 0, style) == next);
    lemma_parameters_behind(codes, q, 0, next);
}

/// The color of an underline is read over, and a color out of range changes nothing.
pub proof fn lemma_colors_without_effect(
    code: u16,
    n: u16,
    r: u16,
    g: u16,
    b: u16,
    q: Seq<u16>,
    style: StyleState,
)
    ensures
        code == 58 || (n > 255 && (code == 38 || code == 48)) ==> ansi::sgr_from(
            seq![code, 5u16, n] + q,
            0,
            style,
        ) == ansi::sgr_from(q, 0, style),
        code == 58 || ((r > 255 || g > 255 || b > 255) && (code == 38 || code == 48))
            ==> ansi::sgr_from(seq![code, 2u16, r, g, b] + q, 0, style) == ansi::sgr_from(
            q,
            0,
            style,
        ),
{
    let short = seq![code, 5u16, n] + q;
    assert(short[0] == code && short[1] == 5 && short[2] == n);
    lemma_parameters_behind(seq![code, 5u16, n], q, 0, style);
    let long = seq![code, 2u16, r, g, b] + q;
    assert(long[0] == code && long[1] == 2 && long[2] == r && long[3] == g && long[4] == b);
    lemma_parameters_behind(seq![code, 2u16, r, g, b], q, 0, style);
}

/// The parameters that a modifier takes where it is on.
pub open spec fn where_on(on: bool, code: u16) -> Seq<u16> {
    if on {
        seq![code]
    } else {
        Seq::empty()
    }
}

/// The parameters that a color takes where there is one.
pub open spec fn where_colored(color: Option<AnsiColor>, behind: bool) -> Seq<u16> {
    match color {
        Some(c) => color_codes(c, behind),
        None => Seq::empty(),
    }
}

/// The parameters that write a style: a reset, then what it has.
pub open spec fn style_codes(style: StyleState) -> Seq<u16> {
    let m = style.modifiers;
    seq![0u16] + (where_on(m.bold, 1) + (where_on(m.dim, 2) + (where_on(m.italic, 3) + (where_on(
        m.underline,
        4,
    ) + (where_on(m.reverse, 7) + (where_colored(style.foreground, false) + where_colored(
        style.background,
        true,
    )))))))
}

proof fn lemma_where_on(on: bool, code: u16, q: Seq<u16>, style: StyleState)
    requires
        !colorful(code),
    ensures
        ansi::sgr_from(where_on(on, code) + q, 0, style) == ansi::sgr_from(
            q,
            0,
            if on {
                single(code, style)
            } else {
                style
            },
        ),
{
    if on {
        lemma_single_parameter(code, q, style);
    } else {
        assert(where_on(on, code) + q =~= q);
    }
}

proof fn lemma_where_colored(
    color: Option<AnsiColor>,
    behind: bool,
    q: Seq<u16>,
    style: StyleState,
)
    ensures
        ansi::sgr_from(where_colored(color, behind) + q, 0, style) == ansi::sgr_from(
            q,
            0,
            match color {
                Some(c) => if behind {
                    StyleState { background: Some(c), ..style }
                } else {
                    StyleState { foreground: Some(c), ..style }
                },
                None => style,
            },
        ),
{
    match color {
        Some(c) => {
            lemma_color_parameters(c, behind, q, style);
        },
        None => {
            assert(where_colored(color, behind) + q =~= q);
        },
    }
}

/// A style is read back from the parameters that write it, whatever held before them.
pub proof fn lemma_style_reads_back(style: StyleState, before: StyleState)
    ensures
        ansi::sgr_from(style_codes(style), 0, before) == style,
        0 < style_codes(style).len() <= 16,
{
    let m = style.modifiers;
    let none = Seq::<u16>::empty();
    let q8 = where_colored(style.background, true);
    let q7 = where_colored(style.foreground, false) + q8;
    let q6 = where_on(m.reverse, 7) + q7;
    let q5 = where_on(m.underline, 4) + q6;
    let q4 = where_on(m.italic, 3) + q5;
    let q3 = where_on(m.dim, 2) + q4;
    let q2 = where_on(m.bold, 1) + q3;
    let s1 = style::plain_style();
    lemma_single_parameter(0, q2, before);
    assert(single(0, before) == s1);
    let s2 = StyleState { modifiers: StyleModifiers { bold: m.bold, ..s1.modifiers }, ..s1 };
    lemma_where_on(m.bold, 1, q3, s1);
    let s3 = StyleState { modifiers: StyleModifiers { dim: m.dim, ..s2.modifiers }, ..s2 };
    lemma_where_on(m.dim, 2, q4, s2);
    let s4 = StyleState { modifiers: StyleModifiers { italic: m.italic, ..s3.modifiers }, ..s3 };
    lemma_where_on(m.italic, 3, q5, s3);
    let s5 = StyleState {
        modifiers: StyleModifiers { underline: m.underline, ..s4.modifiers },
        ..s4
    };
    lemma_where_on(m.underline, 4, q6, s4);
    let s6 = StyleState { modifiers: StyleModifiers { reverse: m.reverse, ..s5.modifiers }, ..s5 };
    lemma_where_on(m.reverse, 7, q7, s5);
    let s7 = StyleState { foreground: style.foreground, ..s6 };
    lemma_where_colored(style.foreground, false, q8, s6);
    assert(q8 + none =~= q8);
    lemma_where_colored(style.background, true, none, s7);
    assert(StyleState { background: style.background, ..s7 } == style);
}

// ---------------------------------------------------------------------------
// Whole texts
// ---------------------------------------------------------------------------

/// Styled characters as they are written to a terminal: each behind a sequence that
/// sets its style.
pub open spec fn written(v: Seq<(char, StyleState)>) -> Seq<char>
    decreases v.len(),
{
    if v.len() == 0 {
        Seq::empty()
    } else {
        sequence(parameter_text(style_codes(v[0].1)), 'm') + (seq![v[0].0] + written(v.skip(1)))
    }
}

/// Whether all of these characters can be seen, or end a line.
pub open spec fn all_shown(v: Seq<(char, StyleState)>) -> bool {
    forall|i: int| 0 <= i < v.len() ==> (#[trigger] v[i]).0 == '\n' || !text::control(v[i].0)
}

proof fn lemma_written_reads_back(v: Seq<(char, StyleState)>, column: nat, before: StyleState)
    requires
        all_shown(v),
    ensures
        ansi::cells_from(written(v), 0, column, before) == v,
    decreases v.len(),
{
    if v.len() == 0 {
        assert(ansi::cells_from(written(v), 0, column, before) =~= v);
    } else {
        let (c, style) = v[0];
        let p = style_codes(style);
        let rest = written(v.skip(1));
        lemma_style_reads_back(style, before);
        lemma_written_parameters_apply(p, before);
        lemma_sequence_is_read(parameter_text(p), 'm', seq![c] + rest, column, before);
        let next: nat = if c == '\n' {
            0
        } else {
            (column + width::cell_width(c)) % 8
        };
        assert forall|i: int| 0 <= i < v.skip(1).len() implies (#[trigger] v.skip(1)[i]).0 == '\n'
            || !text::control(v.skip(1)[i].0) by {
            assert(v.skip(1)[i] == v[i + 1]);
        }
        lemma_written_reads_back(v.skip(1), next, style);
        if c == '\n' {
            lemma_line_ends_are_alike(rest, column, style);
        } else {
            lemma_character_is_shown(c, rest, column, style);
        }
        assert(ansi::cells_from(written(v), 0, column, before) =~= seq![(c, style)] + v.skip(1));
        assert(seq![(c, style)] + v.skip(1) =~= v);
    }
}

/// Styled text that is written to a terminal is read back as it was: the same characters,
/// each in its own style, in color, background and every modifier.
pub proof fn lemma_styled_text_reads_back(v: Seq<(char, StyleState)>)
    requires
        all_shown(v),
        text::byte_len(ansi::sanitized(written(v)).text) <= usize::MAX,
    ensures
        ansi::sanitized(written(v)).text.len() == v.len(),
        forall|i: int|
            0 <= i < v.len() ==> (#[trigger] ansi::sanitized(written(v)).text[i]) == v[i].0
                && style::look_at(
                ansi::sanitized(written(v)).runs,
                text::byte_at(ansi::sanitized(written(v)).text, i) as int,
                v[i].1,
            ),
{
    lemma_written_reads_back(v, 0, style::plain_style());
    let s = written(v);
    let shown = ansi::sanitized(s);
    assert(ansi::cells(s) == v);
    assert forall|i: int| 0 <= i < v.len() implies (#[trigger] shown.text[i]) == v[i].0
        && style::look_at(shown.runs, text::byte_at(shown.text, i) as int, v[i].1) by {
        lemma_read_text_is_drawn(s, i);
    }
}

/// Every character that is read out of a captured text is drawn in the style that held
/// where it stood, and in no other.
pub proof fn lemma_read_text_is_drawn(s: Seq<char>, i: int)
    requires
        text::byte_len(ansi::sanitized(s).text) <= usize::MAX,
        0 <= i < ansi::cells(s).len(),
    ensures
        ansi::sanitized(s).text.len() == ansi::cells(s).len(),
        ansi::sanitized(s).text[i] == ansi::cells(s)[i].0,
        style::look_at(
            ansi::sanitized(s).runs,
            text::byte_at(ansi::sanitized(s).text, i) as int,
            ansi::cells(s)[i].1,
        ),
{
    let shown = ansi::sanitized(s);
    let states = ansi::visible_styles(s);
    let look = ansi::cells(s)[i].1;
    let byte = text::byte_at(shown.text, i) as int;
    style::lemma_runs_draw_every_style(shown.text, states, shown.text.len() as int, i, look);
    if look == style::plain_style() {
        assert forall|other: StyleState| !#[trigger] style::drawn_in(shown.runs, byte, other) by {
            style::lemma_runs_draw_every_style(
                shown.text,
                states,
                shown.text.len() as int,
                i,
                other,
            );
        }
    }
}

// ---------------------------------------------------------------------------
// Everything else that shows nothing
// ---------------------------------------------------------------------------

/// A control character that is none of the line ends, the tab or the escape shows nothing
/// and changes nothing.
pub proof fn lemma_control_is_dropped(
    c: char,
    rest: Seq<char>,
    column: nat,
    style: StyleState,
)
    requires
        text::control(c),
        c != '\x1b' && c != '\r' && c != '\n' && c != '\t',
    ensures
        ansi::cells_from(seq![c] + rest, 0, column, style) == ansi::cells_from(
            rest,
            0,
            column,
            style,
        ),
{
    let s = seq![c] + rest;
    assert(s[0] == c);
    lemma_read_behind(seq![c], rest, 0, column, style);
}

proof fn lemma_intermediates_end_is(s: Seq<char>, i: int, end: int)
    requires
        0 <= i <= end < s.len(),
        forall|k: int| i <= k < end ==> ansi::intermediate(#[trigger] s[k]),
        !ansi::intermediate(s[end]),
    ensures
        ansi::intermediates_end(s, i) == end,
    decreases end - i,
{
    if i < end {
        assert(ansi::intermediate(s[i]));
        lemma_intermediates_end_is(s, i + 1, end);
    }
}

/// A short sequence, such as the choice of a character set, shows nothing and changes
/// nothing. An escape before a character outside ASCII leaves that character alone.
pub proof fn lemma_short_sequence_is_skipped(
    between: Seq<char>,
    end: char,
    rest: Seq<char>,
    column: nat,
    style: StyleState,
)
    requires
        forall|k: int| 0 <= k < between.len() ==> 0x20 <= (#[trigger] between[k] as u32) <= 0x2f,
        !(0x20 <= (end as u32) <= 0x2f),
        between.len() == 0 ==> end != '[' && end != ']' && end != 'P' && end != '_' && end != '^',
    ensures
        (end as u32) < 0x80 ==> ansi::cells_from(
            seq!['\x1b'] + between + seq![end] + rest,
            0,
            column,
            style,
        ) == ansi::cells_from(rest, 0, column, style),
        (end as u32) >= 0x80 ==> ansi::cells_from(
            seq!['\x1b'] + between + seq![end] + rest,
            0,
            column,
            style,
        ) == ansi::cells_from(seq![end] + rest, 0, column, style),
{
    let head = seq!['\x1b'] + between;
    let s = head + seq![end] + rest;
    let at = 1 + between.len() as int;
    assert(s[0] == '\x1b');
    assert(s[at] == end);
    assert forall|k: int| 1 <= k < at implies ansi::intermediate(#[trigger] s[k]) by {
        assert(s[k] == between[k - 1]);
    }
    if between.len() > 0 {
        assert(ansi::intermediate(s[1]));
        lemma_intermediates_end_is(s, 2, at);
    }
    assert(ansi::escape_end(s, 0) == (if (end as u32) < 0x80 {
        at + 1
    } else {
        at
    }));
    assert(ansi::escape_style(s, 0, style) == style);
    let whole = head + seq![end];
    lemma_read_behind(whole, rest, 0, column, style);
    assert(s =~= head + (seq![end] + rest));
    lemma_read_behind(head, seq![end] + rest, 0, column, style);
}

/// A control sequence that breaks off takes everything behind it along.
pub proof fn lemma_broken_sequence_shows_nothing(
    body: Seq<char>,
    column: nat,
    style: StyleState,
)
    requires
        open_ended(body),
    ensures
        ansi::cells_from(seq!['\x1b', '['] + body, 0, column, style).len() == 0,
{
    let s = seq!['\x1b', '['] + body;
    assert(s[0] == '\x1b' && s[1] == '[');
    assert forall|k: int| 2 <= k < s.len() implies !ansi::csi_final(#[trigger] s[k]) by {
        assert(s[k] == body[k - 2]);
    }
    lemma_csi_never_ends(s, 2);
    assert(ansi::cells_from(s, s.len() as int, column, style).len() == 0);
}

proof fn lemma_csi_never_ends(s: Seq<char>, i: int)
    requires
        0 <= i <= s.len(),
        forall|k: int| i <= k < s.len() ==> !ansi::csi_final(#[trigger] s[k]),
    ensures
        ansi::csi_last(s, i) == s.len(),
    decreases s.len() - i,
{
    if i < s.len() {
        assert(!ansi::csi_final(s[i]));
        lemma_csi_never_ends(s, i + 1);
    }
}

}
