//! Captured terminal text: what of it is visible, and in which style.
//!
//! A pane is captured with its escape sequences. They are read here, once, into
//! plain text and the runs that style it. Anything that is neither visible nor
//! a style is dropped.

use crate::style;
use crate::style::{AnsiColor, StyleModifiers, StyleRun, StyleState, StyledText};
use crate::text;
use crate::text::LineRange;
use crate::width;
use vstd::prelude::*;

pub mod captured;
pub mod native_final;
pub mod tail;
pub mod traced;
pub mod written;

pub use native_final::extract_native_final;

verus! {

pub const TAB_WIDTH: usize = 8;

// ---------------------------------------------------------------------------
// Escape sequences
// ---------------------------------------------------------------------------

/// The character that ends a control sequence.
pub open spec fn csi_final(c: char) -> bool {
    0x40 <= (c as u32) <= 0x7e
}

/// A character between the escape and the end of a short sequence.
pub open spec fn intermediate(c: char) -> bool {
    0x20 <= (c as u32) <= 0x2f
}

/// Where the control sequence whose parameters start at `i` has its last
/// character; the length of the text where it has none.
pub open spec fn csi_last(s: Seq<char>, i: int) -> int
    decreases s.len() - i,
{
    if i >= s.len() || csi_final(s[i]) {
        i
    } else {
        csi_last(s, i + 1)
    }
}

/// Whether a string terminator, an escape and a backslash, stands at `i`.
pub open spec fn st_at(s: Seq<char>, i: int) -> bool {
    s[i] == '\x1b' && i + 1 < s.len() && s[i + 1] == '\\'
}

/// Where a string whose body starts at `i` ends, terminator and all. An
/// operating system command may also end with a bell.
pub open spec fn string_end(s: Seq<char>, i: int, bell: bool) -> int
    decreases s.len() - i,
{
    if i >= s.len() {
        s.len() as int
    } else if bell && s[i] == '\x07' {
        i + 1
    } else if st_at(s, i) {
        i + 2
    } else {
        string_end(s, i + 1, bell)
    }
}

/// Where the intermediate characters from `i` on end.
pub open spec fn intermediates_end(s: Seq<char>, i: int) -> int
    decreases s.len() - i,
{
    if i < s.len() && intermediate(s[i]) {
        intermediates_end(s, i + 1)
    } else {
        i
    }
}

/// Where the escape sequence that starts at `i` ends. One that breaks off
/// before a character outside ASCII leaves that character alone.
pub open spec fn escape_end(s: Seq<char>, i: int) -> int {
    if i + 1 >= s.len() {
        s.len() as int
    } else {
        let kind = s[i + 1];
        if kind == '[' {
            let last = csi_last(s, i + 2);
            if last < s.len() {
                last + 1
            } else {
                s.len() as int
            }
        } else if kind == ']' {
            string_end(s, i + 2, true)
        } else if kind == 'P' || kind == '_' || kind == '^' {
            string_end(s, i + 2, false)
        } else if intermediate(kind) {
            let end = intermediates_end(s, i + 2);
            if end < s.len() && (s[end] as u32) < 0x80 {
                end + 1
            } else {
                end
            }
        } else if (kind as u32) < 0x80 {
            i + 2
        } else {
            i + 1
        }
    }
}

/// The style after the escape sequence that starts at `i`. Only a control
/// sequence that ends in `m` changes it.
pub open spec fn escape_style(s: Seq<char>, i: int, style: StyleState) -> StyleState {
    if i + 1 < s.len() && s[i + 1] == '[' {
        let last = csi_last(s, i + 2);
        if last < s.len() && s[last] == 'm' {
            sgr_style(s.subrange(i + 2, last), style)
        } else {
            style
        }
    } else {
        style
    }
}

proof fn lemma_csi_last(s: Seq<char>, i: int)
    requires
        0 <= i <= s.len(),
    ensures
        i <= csi_last(s, i) <= s.len(),
    decreases s.len() - i,
{
    if i < s.len() && !csi_final(s[i]) {
        lemma_csi_last(s, i + 1);
    }
}

proof fn lemma_string_end(s: Seq<char>, i: int, bell: bool)
    requires
        0 <= i <= s.len(),
    ensures
        i <= string_end(s, i, bell) <= s.len(),
    decreases s.len() - i,
{
    if i < s.len() && !(bell && s[i] == '\x07') && !st_at(s, i) {
        lemma_string_end(s, i + 1, bell);
    }
}

proof fn lemma_intermediates_end(s: Seq<char>, i: int)
    requires
        0 <= i <= s.len(),
    ensures
        i <= intermediates_end(s, i) <= s.len(),
    decreases s.len() - i,
{
    if i < s.len() && intermediate(s[i]) {
        lemma_intermediates_end(s, i + 1);
    }
}

pub proof fn lemma_escape_end(s: Seq<char>, i: int)
    requires
        0 <= i < s.len(),
    ensures
        i < escape_end(s, i) <= s.len(),
{
    if i + 1 < s.len() {
        lemma_csi_last(s, i + 2);
        lemma_string_end(s, i + 2, true);
        lemma_string_end(s, i + 2, false);
        lemma_intermediates_end(s, i + 2);
    }
}

// ---------------------------------------------------------------------------
// Select graphic rendition
// ---------------------------------------------------------------------------

/// A parameter is a number of sixteen bits.
pub open spec fn parameter(part: Seq<char>) -> bool {
    part.len() > 0 && text::all_digits(part) && text::decimal(part) <= u16::MAX
}

/// Whether a list of parameters can be read. An empty one stands for a reset.
pub open spec fn parameters_valid(s: Seq<char>) -> bool {
    s.len() == 0 || forall|i: int|
        0 <= i < text::pieces(s, ';').len() ==> parameter(#[trigger] text::pieces(s, ';')[i].of(s))
}

/// The parameters of a control sequence.
pub open spec fn parameters(s: Seq<char>) -> Seq<u16> {
    if s.len() == 0 {
        seq![0u16]
    } else {
        Seq::new(text::pieces(s, ';').len(), |i: int| text::decimal(text::pieces(s, ';')[i].of(s)) as u16)
    }
}

/// The sixteen named colors, by the last digit of their code.
pub open spec fn base_color(digit: int, bright: bool) -> AnsiColor {
    if digit == 0 {
        if bright { AnsiColor::BrightBlack } else { AnsiColor::Black }
    } else if digit == 1 {
        if bright { AnsiColor::BrightRed } else { AnsiColor::Red }
    } else if digit == 2 {
        if bright { AnsiColor::BrightGreen } else { AnsiColor::Green }
    } else if digit == 3 {
        if bright { AnsiColor::BrightYellow } else { AnsiColor::Yellow }
    } else if digit == 4 {
        if bright { AnsiColor::BrightBlue } else { AnsiColor::Blue }
    } else if digit == 5 {
        if bright { AnsiColor::BrightMagenta } else { AnsiColor::Magenta }
    } else if digit == 6 {
        if bright { AnsiColor::BrightCyan } else { AnsiColor::Cyan }
    } else {
        if bright { AnsiColor::BrightWhite } else { AnsiColor::White }
    }
}

/// The color a code names, for the text or for what is behind it.
pub open spec fn color_named(code: u16) -> Option<AnsiColor> {
    if 30 <= code <= 37 {
        Some(base_color(code - 30, false))
    } else if 40 <= code <= 47 {
        Some(base_color(code - 40, false))
    } else if 90 <= code <= 97 {
        Some(base_color(code - 90, true))
    } else if 100 <= code <= 107 {
        Some(base_color(code - 100, true))
    } else {
        None
    }
}

/// How many parameters a color takes from `k` on, its own code among them.
pub open spec fn color_len(p: Seq<u16>, k: int) -> int {
    let rest = p.len() - k;
    if k + 1 < p.len() && p[k + 1] == 5 {
        if rest < 3 { rest } else { 3 }
    } else if k + 1 < p.len() && p[k + 1] == 2 {
        if rest < 5 { rest } else { 5 }
    } else {
        1
    }
}

/// The color out of the palette, or of three components, that `k` introduces.
pub open spec fn color_extended(p: Seq<u16>, k: int) -> Option<AnsiColor> {
    if k + 2 < p.len() && p[k + 1] == 5 {
        if p[k + 2] <= 255 {
            Some(AnsiColor::Indexed(p[k + 2] as u8))
        } else {
            None
        }
    } else if k + 4 < p.len() && p[k + 1] == 2 {
        if p[k + 2] <= 255 && p[k + 3] <= 255 && p[k + 4] <= 255 {
            Some(AnsiColor::Rgb(p[k + 2] as u8, p[k + 3] as u8, p[k + 4] as u8))
        } else {
            None
        }
    } else {
        None
    }
}

/// The style after the parameter at `k`.
pub open spec fn sgr_step(p: Seq<u16>, k: int, style: StyleState) -> StyleState {
    let code = p[k];
    let m = style.modifiers;
    if code == 0 {
        style::plain_style()
    } else if code == 1 {
        StyleState { modifiers: StyleModifiers { bold: true, ..m }, ..style }
    } else if code == 2 {
        StyleState { modifiers: StyleModifiers { dim: true, ..m }, ..style }
    } else if code == 3 {
        StyleState { modifiers: StyleModifiers { italic: true, ..m }, ..style }
    } else if code == 4 {
        StyleState { modifiers: StyleModifiers { underline: true, ..m }, ..style }
    } else if code == 7 {
        StyleState { modifiers: StyleModifiers { reverse: true, ..m }, ..style }
    } else if code == 22 {
        StyleState { modifiers: StyleModifiers { bold: false, dim: false, ..m }, ..style }
    } else if code == 23 {
        StyleState { modifiers: StyleModifiers { italic: false, ..m }, ..style }
    } else if code == 24 {
        StyleState { modifiers: StyleModifiers { underline: false, ..m }, ..style }
    } else if code == 27 {
        StyleState { modifiers: StyleModifiers { reverse: false, ..m }, ..style }
    } else if 30 <= code <= 37 || 90 <= code <= 97 {
        StyleState { foreground: color_named(code), ..style }
    } else if code == 39 {
        StyleState { foreground: None, ..style }
    } else if 40 <= code <= 47 || 100 <= code <= 107 {
        StyleState { background: color_named(code), ..style }
    } else if code == 49 {
        StyleState { background: None, ..style }
    } else if code == 38 && color_extended(p, k) is Some {
        StyleState { foreground: color_extended(p, k), ..style }
    } else if code == 48 && color_extended(p, k) is Some {
        StyleState { background: color_extended(p, k), ..style }
    } else {
        style
    }
}

/// How many parameters are read with the one at `k`. The colors of the text,
/// of its background and of its underline bring parameters of their own.
pub open spec fn sgr_len(p: Seq<u16>, k: int) -> int {
    if p[k] == 38 || p[k] == 48 || p[k] == 58 {
        color_len(p, k)
    } else {
        1
    }
}

/// The style after the parameters from `k` on.
pub open spec fn sgr_from(p: Seq<u16>, k: int, style: StyleState) -> StyleState
    decreases p.len() - k,
{
    if k >= p.len() {
        style
    } else {
        sgr_from(p, k + sgr_len(p, k), sgr_step(p, k, style))
    }
}

/// The style after a control sequence with these parameters. One that cannot be
/// read changes nothing.
pub open spec fn sgr_style(s: Seq<char>, style: StyleState) -> StyleState {
    if parameters_valid(s) {
        sgr_from(parameters(s), 0, style)
    } else {
        style
    }
}

/// The number of sixteen bits that a run of digits stands for.
fn parse_parameter(chars: &Vec<char>, start: usize, end: usize) -> (r: Option<u16>)
    requires
        start <= end <= chars@.len(),
    ensures
        r is Some == parameter(chars@.subrange(start as int, end as int)),
        r matches Some(n) ==> n == text::decimal(chars@.subrange(start as int, end as int)),
{
    if start == end || !text::is_all_digits(chars, start, end) {
        return None;
    }
    let ghost part = chars@.subrange(start as int, end as int);
    let mut value: u32 = 0;
    let mut i: usize = start;
    assert(part.take(0) =~= Seq::<char>::empty());
    while i < end
        invariant
            start <= i <= end <= chars@.len(),
            part == chars@.subrange(start as int, end as int),
            text::all_digits(part),
            value <= u16::MAX,
            value == text::decimal(part.take(i - start)),
        decreases end - i,
    {
        proof {
            text::lemma_decimal_prefix(part, i - start);
            assert(text::ascii_digit(part[i - start]));
        }
        let digit: u32 = chars[i] as u32 - 0x30;
        value = 10 * value + digit;
        if value > 65535 {
            proof {
                text::lemma_decimal_grows(part, i - start + 1);
            }
            return None;
        }
        i = i + 1;
    }
    assert(part.take(end - start) =~= part);
    Some(value as u16)
}

/// The parameters between two indices, where each can be read.
fn parse_parameters(chars: &Vec<char>) -> (r: Option<Vec<u16>>)
    ensures
        r is Some == parameters_valid(chars@),
        r matches Some(p) ==> p@ == parameters(chars@),
{
    let mut r: Vec<u16> = Vec::new();
    if chars.len() == 0 {
        r.push(0);
        assert(r@ =~= parameters(chars@));
        return Some(r);
    }
    let parts: Vec<LineRange> = text::split_ranges(chars, ';');
    let mut i: usize = 0;
    while i < parts.len()
        invariant
            chars@.len() > 0,
            parts@ == text::pieces(chars@, ';'),
            forall|k: int| 0 <= k < parts@.len() ==> (#[trigger] parts@[k]).within(chars@),
            i <= parts@.len(),
            r@.len() == i,
            forall|k: int| 0 <= k < i ==> parameter(#[trigger] parts@[k].of(chars@)),
            forall|k: int| 0 <= k < i ==> #[trigger] r@[k] == text::decimal(parts@[k].of(chars@)),
        decreases parts@.len() - i,
    {
        match parse_parameter(chars, parts[i].start, parts[i].end) {
            None => {
                assert(!parameter(text::pieces(chars@, ';')[i as int].of(chars@)));
                return None;
            },
            Some(n) => {
                r.push(n);
            },
        }
        i = i + 1;
    }
    assert(r@ =~= parameters(chars@));
    Some(r)
}

fn named_color(code: u16) -> (r: Option<AnsiColor>)
    ensures
        r == color_named(code),
{
    match code {
        30 | 40 => Some(AnsiColor::Black),
        31 | 41 => Some(AnsiColor::Red),
        32 | 42 => Some(AnsiColor::Green),
        33 | 43 => Some(AnsiColor::Yellow),
        34 | 44 => Some(AnsiColor::Blue),
        35 | 45 => Some(AnsiColor::Magenta),
        36 | 46 => Some(AnsiColor::Cyan),
        37 | 47 => Some(AnsiColor::White),
        90 | 100 => Some(AnsiColor::BrightBlack),
        91 | 101 => Some(AnsiColor::BrightRed),
        92 | 102 => Some(AnsiColor::BrightGreen),
        93 | 103 => Some(AnsiColor::BrightYellow),
        94 | 104 => Some(AnsiColor::BrightBlue),
        95 | 105 => Some(AnsiColor::BrightMagenta),
        96 | 106 => Some(AnsiColor::BrightCyan),
        97 | 107 => Some(AnsiColor::BrightWhite),
        _ => None,
    }
}

fn color_parameter_len(p: &Vec<u16>, k: usize) -> (n: usize)
    requires
        k < p@.len(),
    ensures
        n == color_len(p@, k as int),
        1 <= n <= p@.len() - k,
{
    let rest: usize = p.len() - k;
    if rest < 2 {
        return 1;
    }
    if p[k + 1] == 5 {
        if rest < 3 {
            rest
        } else {
            3
        }
    } else if p[k + 1] == 2 {
        if rest < 5 {
            rest
        } else {
            5
        }
    } else {
        1
    }
}

fn extended_color(p: &Vec<u16>, k: usize) -> (r: Option<AnsiColor>)
    requires
        k < p@.len(),
    ensures
        r == color_extended(p@, k as int),
{
    let rest: usize = p.len() - k;
    if rest > 2 && p[k + 1] == 5 {
        let value: u16 = p[k + 2];
        if value <= 255 {
            Some(AnsiColor::Indexed(value as u8))
        } else {
            None
        }
    } else if rest > 4 && p[k + 1] == 2 {
        let (red, green, blue) = (p[k + 2], p[k + 3], p[k + 4]);
        if red <= 255 && green <= 255 && blue <= 255 {
            Some(AnsiColor::Rgb(red as u8, green as u8, blue as u8))
        } else {
            None
        }
    } else {
        None
    }
}

/// The style after one parameter.
fn apply_parameter(p: &Vec<u16>, k: usize, style: StyleState) -> (r: StyleState)
    requires
        k < p@.len(),
    ensures
        r == sgr_step(p@, k as int, style),
{
    let mut next: StyleState = style;
    match p[k] {
        0 => {
            next = StyleState::default();
        },
        1 => {
            next.modifiers.bold = true;
        },
        2 => {
            next.modifiers.dim = true;
        },
        3 => {
            next.modifiers.italic = true;
        },
        4 => {
            next.modifiers.underline = true;
        },
        7 => {
            next.modifiers.reverse = true;
        },
        22 => {
            next.modifiers.bold = false;
            next.modifiers.dim = false;
        },
        23 => {
            next.modifiers.italic = false;
        },
        24 => {
            next.modifiers.underline = false;
        },
        27 => {
            next.modifiers.reverse = false;
        },
        30..=37 | 90..=97 => {
            next.foreground = named_color(p[k]);
        },
        39 => {
            next.foreground = None;
        },
        40..=47 | 100..=107 => {
            next.background = named_color(p[k]);
        },
        49 => {
            next.background = None;
        },
        38 => {
            if let Some(value) = extended_color(p, k) {
                next.foreground = Some(value);
            }
        },
        48 => {
            if let Some(value) = extended_color(p, k) {
                next.background = Some(value);
            }
        },
        _ => {},
    }
    next
}

/// Applies the parameters of a control sequence that ends in `m`.
fn apply_sgr(chars: &Vec<char>, start: usize, end: usize, style: &mut StyleState)
    requires
        start <= end <= chars@.len(),
    ensures
        *final(style) == sgr_style(chars@.subrange(start as int, end as int), *old(style)),
{
    let mut part: Vec<char> = Vec::new();
    let mut i: usize = start;
    while i < end
        invariant
            start <= i <= end <= chars@.len(),
            part@ == chars@.subrange(start as int, i as int),
        decreases end - i,
    {
        part.push(chars[i]);
        i = i + 1;
        assert(part@ =~= chars@.subrange(start as int, i as int));
    }
    let p: Vec<u16> = match parse_parameters(&part) {
        None => {
            return;
        },
        Some(p) => p,
    };
    let mut next: StyleState = *style;
    let mut index: usize = 0;
    while index < p.len()
        invariant
            index <= p@.len(),
            sgr_from(p@, index as int, next) == sgr_from(p@, 0, *old(style)),
        decreases p@.len() - index,
    {
        let code: u16 = p[index];
        let consumed: usize = if code == 38 || code == 48 || code == 58 {
            color_parameter_len(&p, index)
        } else {
            1
        };
        next = apply_parameter(&p, index, next);
        index = index + consumed;
    }
    *style = next;
}

fn consume_csi(chars: &Vec<char>, start: usize, style: &mut StyleState) -> (r: usize)
    requires
        start + 1 < chars@.len(),
        chars@[start + 1] == '[',
    ensures
        r == escape_end(chars@, start as int),
        *final(style) == escape_style(chars@, start as int, *old(style)),
{
    let total: usize = chars.len();
    assert(start + 2 <= total);
    let mut index: usize = start + 2;
    while index < chars.len()
        invariant
            start + 1 < chars@.len(),
            chars@[start + 1] == '[',
            start + 2 <= index <= chars@.len(),
            csi_last(chars@, index as int) == csi_last(chars@, start + 2),
            *style == *old(style),
        decreases chars@.len() - index,
    {
        let code: u32 = chars[index] as u32;
        if 0x40 <= code && code <= 0x7e {
            if chars[index] == 'm' {
                apply_sgr(chars, start + 2, index, style);
            }
            return index + 1;
        }
        index = index + 1;
    }
    chars.len()
}

/// Reads past a string that ends with a string terminator, or with a bell.
fn consume_string(chars: &Vec<char>, start: usize, bell: bool) -> (r: usize)
    requires
        start <= chars@.len(),
    ensures
        r == string_end(chars@, start as int, bell),
{
    let mut index: usize = start;
    while index < chars.len()
        invariant
            start <= index <= chars@.len(),
            string_end(chars@, index as int, bell) == string_end(chars@, start as int, bell),
        decreases chars@.len() - index,
    {
        if bell && chars[index] == '\x07' {
            return index + 1;
        }
        if chars[index] == '\x1b' && chars.len() - index > 1 && chars[index + 1] == '\\' {
            return index + 2;
        }
        index = index + 1;
    }
    chars.len()
}

fn consume_escape_with_intermediate(chars: &Vec<char>, start: usize) -> (r: usize)
    requires
        start + 1 < chars@.len(),
        chars@[start + 1] != '[',
        chars@[start + 1] != ']',
        intermediate(chars@[start + 1]),
    ensures
        r == escape_end(chars@, start as int),
{
    let total: usize = chars.len();
    assert(start + 2 <= total);
    let mut index: usize = start + 2;
    while index < chars.len() && 0x20 <= chars[index] as u32 && chars[index] as u32 <= 0x2f
        invariant
            start + 2 <= index <= chars@.len(),
            intermediates_end(chars@, index as int) == intermediates_end(chars@, start + 2),
        decreases chars@.len() - index,
    {
        index = index + 1;
    }
    if index < chars.len() && (chars[index] as u32) < 0x80 {
        index + 1
    } else {
        index
    }
}

/// Reads past an escape sequence and applies it to the style.
fn consume_escape(chars: &Vec<char>, start: usize, style: &mut StyleState) -> (r: usize)
    requires
        start < chars@.len(),
    ensures
        r == escape_end(chars@, start as int),
        start < r <= chars@.len(),
        *final(style) == escape_style(chars@, start as int, *old(style)),
{
    proof {
        lemma_escape_end(chars@, start as int);
    }
    if chars.len() - start < 2 {
        return chars.len();
    }
    let kind: char = chars[start + 1];
    let code: u32 = kind as u32;
    if kind == '[' {
        consume_csi(chars, start, style)
    } else if kind == ']' {
        consume_string(chars, start + 2, true)
    } else if kind == 'P' || kind == '_' || kind == '^' {
        consume_string(chars, start + 2, false)
    } else if 0x20 <= code && code <= 0x2f {
        consume_escape_with_intermediate(chars, start)
    } else if code < 0x80 {
        start + 2
    } else {
        start + 1
    }
}

// ---------------------------------------------------------------------------
// Visible text
// ---------------------------------------------------------------------------

/// How many characters a line end takes: a carriage return and the line feed
/// behind it are one.
pub open spec fn line_end_len(s: Seq<char>, i: int) -> int {
    if s[i] == '\r' && i + 1 < s.len() && s[i + 1] == '\n' {
        2
    } else {
        1
    }
}

/// The visible cells from `i` on, each a character and the style it was
/// written in. `column` is the column modulo the tab width.
pub open spec fn cells_from(s: Seq<char>, i: int, column: nat, style: StyleState) -> Seq<(char, StyleState)>
    decreases s.len() - i,
{
    if i < 0 || i >= s.len() {
        Seq::empty()
    } else if s[i] == '\x1b' {
        proof {
            lemma_escape_end(s, i);
        }
        cells_from(s, escape_end(s, i), column, escape_style(s, i, style))
    } else if s[i] == '\r' || s[i] == '\n' {
        seq![('\n', style)] + cells_from(s, i + line_end_len(s, i), 0, style)
    } else if s[i] == '\t' {
        Seq::new((TAB_WIDTH - column) as nat, |k: int| (' ', style))
            + cells_from(s, i + 1, 0, style)
    } else if text::control(s[i]) {
        cells_from(s, i + 1, column, style)
    } else {
        seq![(s[i], style)] + cells_from(
            s,
            i + 1,
            (column + width::cell_width(s[i])) % TAB_WIDTH as nat,
            style,
        )
    }
}

/// The visible cells of a captured text.
pub open spec fn cells(s: Seq<char>) -> Seq<(char, StyleState)> {
    cells_from(s, 0, 0, style::plain_style())
}

/// The visible characters of a captured text.
pub open spec fn visible(s: Seq<char>) -> Seq<char> {
    Seq::new(cells(s).len(), |i: int| cells(s)[i].0)
}

/// The style of each visible character.
pub open spec fn visible_styles(s: Seq<char>) -> Seq<StyleState> {
    Seq::new(cells(s).len(), |i: int| cells(s)[i].1)
}

/// A captured text as styled text.
pub open spec fn sanitized(s: Seq<char>) -> style::StyledView {
    style::StyledView {
        text: visible(s),
        runs: style::runs_of(visible(s), visible_styles(s), visible(s).len() as int),
    }
}

/// The cells that two lists of equal length stand for.
pub open spec fn zipped(chars: Seq<char>, styles: Seq<StyleState>) -> Seq<(char, StyleState)> {
    Seq::new(chars.len(), |i: int| (chars[i], styles[i]))
}

/// Scans a captured text into visible characters and their styles.
fn scan(source: &Vec<char>) -> (r: (Vec<char>, Vec<StyleState>))
    ensures
        r.0@ == visible(source@),
        r.1@ == visible_styles(source@),
{
    let mut chars: Vec<char> = Vec::new();
    let mut styles: Vec<StyleState> = Vec::new();
    let mut column: usize = 0;
    let mut style: StyleState = StyleState::default();
    let mut index: usize = 0;
    let ghost s = source@;
    assert(zipped(chars@, styles@) + cells(s) =~= cells(s));
    while index < source.len()
        invariant
            s == source@,
            index <= s.len(),
            column < TAB_WIDTH,
            chars@.len() == styles@.len(),
            zipped(chars@, styles@) + cells_from(s, index as int, column as nat, style) == cells(s),
        decreases s.len() - index,
    {
        let c: char = source[index];
        let ghost before = zipped(chars@, styles@);
        let ghost rest = cells_from(s, index as int, column as nat, style);
        if c == '\x1b' {
            index = consume_escape(source, index, &mut style);
        } else if c == '\r' || c == '\n' {
            let paired: bool = c == '\r' && source.len() - index > 1 && source[index + 1] == '\n';
            chars.push('\n');
            styles.push(style);
            column = 0;
            index = if paired {
                index + 2
            } else {
                index + 1
            };
            proof {
                let after = cells_from(s, index as int, 0, style);
                assert(rest == seq![('\n', style)] + after);
                assert(zipped(chars@, styles@) + after =~= before + rest);
            }
        } else if c == '\t' {
            let advance: usize = TAB_WIDTH - column;
            let mut k: usize = 0;
            while k < advance
                invariant
                    k <= advance,
                    chars@.len() == styles@.len(),
                    zipped(chars@, styles@) =~= before + Seq::new(
                        k as nat,
                        |j: int| (' ', style),
                    ),
                decreases advance - k,
            {
                let ghost so_far = zipped(chars@, styles@);
                chars.push(' ');
                styles.push(style);
                assert(zipped(chars@, styles@) =~= so_far.push((' ', style)));
                k = k + 1;
            }
            column = 0;
            index = index + 1;
            proof {
                let after = cells_from(s, index as int, 0, style);
                let spaces = Seq::new(advance as nat, |j: int| (' ', style));
                assert(rest =~= spaces + after);
                assert(zipped(chars@, styles@) + after =~= before + rest);
            }
        } else if text::is_control(c) {
            index = index + 1;
        } else {
            chars.push(c);
            styles.push(style);
            let wide: usize = width::width_of(c);
            column = (column + wide) % TAB_WIDTH;
            index = index + 1;
            proof {
                let after = cells_from(s, index as int, column as nat, style);
                assert(rest == seq![(c, style)] + after);
                assert(zipped(chars@, styles@) + after =~= before + rest);
            }
        }
    }
    proof {
        let all = zipped(chars@, styles@);
        assert(all + Seq::<(char, StyleState)>::empty() =~= all);
        assert(all == cells(s));
        assert forall|i: int| 0 <= i < chars@.len() implies #[trigger] chars@[i] == cells(
            s,
        )[i].0 && styles@[i] == cells(s)[i].1 by {
            assert(all[i] == cells(s)[i]);
        }
        assert(chars@ =~= visible(s));
        assert(styles@ =~= visible_styles(s));
    }
    (chars, styles)
}

/// The runs that give each character of a text its style.
pub fn build_runs(s: &str, chars: &Vec<char>, styles: &Vec<StyleState>) -> (r: Vec<StyleRun>)
    requires
        chars@ == s@,
        styles@.len() == chars@.len(),
    ensures
        r@ == style::runs_of(s@, styles@, s@.len() as int),
{
    let offsets: Vec<usize> = text::byte_offsets(s, chars);
    let mut runs: Vec<StyleRun> = Vec::new();
    let mut i: usize = 0;
    while i < chars.len()
        invariant
            chars@ == s@,
            styles@.len() == chars@.len(),
            i <= chars@.len(),
            offsets@.len() == s@.len() + 1,
            forall|k: int| 0 <= k <= s@.len() ==> #[trigger] offsets@[k] == text::byte_at(s@, k),
            runs@ == style::runs_of(s@, styles@, i as int),
        decreases chars@.len() - i,
    {
        let here: StyleState = styles[i];
        if here != StyleState::default() {
            let run = StyleRun {
                start_byte: offsets[i],
                end_byte: offsets[i + 1],
                foreground: here.foreground,
                background: here.background,
                modifiers: here.modifiers,
            };
            assert(run == style::run_over(
                text::byte_at(s@, i as int),
                text::byte_at(s@, i + 1),
                here,
            ));
            style::push_run(&mut runs, run);
        }
        i = i + 1;
    }
    runs
}

/// Reads a captured text: the visible characters, and runs for those that were
/// written in a style.
pub fn sanitize_ansi(input: &str) -> (r: StyledText)
    ensures
        r@ == sanitized(input@),
        style::runs_valid(r.text@, r.runs@),
{
    let source: Vec<char> = text::chars_of(input);
    let (chars, styles) = scan(&source);
    let n: usize = chars.len();
    let s: String = text::string_between(&chars, 0, n);
    assert(s@ =~= chars@);
    let runs: Vec<StyleRun> = build_runs(s.as_str(), &chars, &styles);
    let total: usize = text::byte_count(s.as_str());
    proof {
        style::lemma_runs_of_valid(s@, styles@, s@.len() as int);
    }
    StyledText { text: s, runs }
}

proof fn lemma_cells_are_printable(s: Seq<char>, i: int, column: nat, style: StyleState)
    requires
        column < TAB_WIDTH,
    ensures
        forall|k: int|
            0 <= k < cells_from(s, i, column, style).len() ==> {
                let c = (#[trigger] cells_from(s, i, column, style)[k]).0;
                c == '\n' || !text::control(c)
            },
    decreases s.len() - i,
{
    if 0 <= i < s.len() {
        let here = cells_from(s, i, column, style);
        if s[i] == '\x1b' {
            lemma_escape_end(s, i);
            lemma_cells_are_printable(s, escape_end(s, i), column, escape_style(s, i, style));
            assert(here == cells_from(s, escape_end(s, i), column, escape_style(s, i, style)));
        } else if s[i] == '\r' || s[i] == '\n' {
            let after = cells_from(s, i + line_end_len(s, i), 0, style);
            lemma_cells_are_printable(s, i + line_end_len(s, i), 0, style);
            assert forall|k: int| 0 <= k < here.len() implies ({
                let c = (#[trigger] here[k]).0;
                c == '\n' || !text::control(c)
            }) by {
                if k > 0 {
                    assert(here[k] == after[k - 1]);
                }
            }
        } else if s[i] == '\t' {
            let n = TAB_WIDTH - column;
            let after = cells_from(s, i + 1, 0, style);
            lemma_cells_are_printable(s, i + 1, 0, style);
            assert forall|k: int| 0 <= k < here.len() implies ({
                let c = (#[trigger] here[k]).0;
                c == '\n' || !text::control(c)
            }) by {
                if k >= n {
                    assert(here[k] == after[k - n]);
                }
            }
        } else if text::control(s[i]) {
            lemma_cells_are_printable(s, i + 1, column, style);
            assert(here == cells_from(s, i + 1, column, style));
        } else {
            let next = (column + width::cell_width(s[i])) % TAB_WIDTH as nat;
            let after = cells_from(s, i + 1, next, style);
            lemma_cells_are_printable(s, i + 1, next, style);
            assert forall|k: int| 0 <= k < here.len() implies ({
                let c = (#[trigger] here[k]).0;
                c == '\n' || !text::control(c)
            }) by {
                if k > 0 {
                    assert(here[k] == after[k - 1]);
                }
            }
        }
    }
}

/// Whether a text holds no control character but the line feed.
pub open spec fn printable(s: Seq<char>) -> bool {
    forall|i: int| 0 <= i < s.len() ==> #[trigger] s[i] == '\n' || !text::control(s[i])
}

/// No escape sequence and no control character but the line feed is left in
/// what is read out of a captured text.
pub proof fn lemma_sanitized_text_is_printable(s: Seq<char>)
    ensures
        printable(sanitized(s).text),
{
    lemma_cells_are_printable(s, 0, 0, style::plain_style());
    assert forall|i: int| 0 <= i < visible(s).len() implies #[trigger] visible(s)[i] == '\n'
        || !text::control(visible(s)[i]) by {
        let c = cells_from(s, 0, 0, style::plain_style())[i].0;
    }
}

proof fn lemma_printable_cells(s: Seq<char>, i: int, column: nat)
    requires
        0 <= i <= s.len(),
        printable(s),
    ensures
        cells_from(s, i, column, style::plain_style()).len() == s.len() - i,
        forall|k: int|
            0 <= k < s.len() - i ==> #[trigger] cells_from(s, i, column, style::plain_style())[k]
                == (s[i + k], style::plain_style()),
    decreases s.len() - i,
{
    if i < s.len() {
        let plain = style::plain_style();
        let here = cells_from(s, i, column, plain);
        let next = if s[i] == '\n' {
            0
        } else {
            (column + width::cell_width(s[i])) % TAB_WIDTH as nat
        };
        let after = cells_from(s, i + 1, next, plain);
        lemma_printable_cells(s, i + 1, next);
        assert forall|k: int| 0 <= k < s.len() - i implies #[trigger] here[k] == (s[i + k], plain) by {
            if k > 0 {
                assert(here[k] == after[k - 1]);
            }
        }
    }
}

proof fn lemma_no_runs(s: Seq<char>, styles: Seq<StyleState>, n: int)
    requires
        forall|i: int| 0 <= i < n ==> #[trigger] styles[i] == style::plain_style(),
    ensures
        style::runs_of(s, styles, n) == Seq::<StyleRun>::empty(),
    decreases n,
{
    if n > 0 {
        lemma_no_runs(s, styles, n - 1);
    }
}

/// Text without control characters is read as it is, with no run.
pub proof fn lemma_printable_text_is_kept(s: Seq<char>)
    requires
        printable(s),
    ensures
        sanitized(s).text == s,
        sanitized(s).runs == Seq::<StyleRun>::empty(),
{
    lemma_printable_cells(s, 0, 0);
    assert(visible(s) =~= s);
    assert forall|i: int| 0 <= i < s.len() implies #[trigger] visible_styles(s)[i]
        == style::plain_style() by {
        assert(cells_from(s, 0, 0, style::plain_style())[i] == (s[i], style::plain_style()));
    }
    lemma_no_runs(visible(s), visible_styles(s), s.len() as int);
}

/// Reading what was already read changes nothing.
pub proof fn lemma_sanitizing_twice_keeps_the_text(s: Seq<char>)
    ensures
        sanitized(sanitized(s).text).text == sanitized(s).text,
{
    lemma_sanitized_text_is_printable(s);
    lemma_printable_text_is_kept(sanitized(s).text);
}

}
