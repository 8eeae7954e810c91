//! Shared recognition of the terminal chrome of the native agents.
//!
//! The footer, the rules and the composer marker are read by the ANSI capture
//! path, by the composer classifier and by the status line. One implementation
//! keeps them from drifting.

use crate::text;
use crate::text::LineRange;
use vstd::prelude::*;

verus! {

/// The lines of a pane, as ranges of character indices.
pub fn line_ranges(chars: &Vec<char>) -> (r: Vec<LineRange>)
    ensures
        r@ == text::line_pieces(chars@),
        forall|i: int| 0 <= i < r@.len() ==> (#[trigger] r@[i]).within(chars@),
{
    if chars.len() == 0 {
        Vec::new()
    } else {
        text::split_ranges(chars, '\n')
    }
}

/// The text of one line.
pub fn line_text(chars: &Vec<char>, line: LineRange) -> (r: String)
    requires
        line.within(chars@),
    ensures
        r@ == line.of(chars@),
{
    text::string_between(chars, line.start, line.end)
}

/// The texts of a list of literals.
pub open spec fn literals(v: Seq<&str>) -> Seq<Seq<char>> {
    Seq::new(v.len(), |i: int| v[i]@)
}

/// The bullets an agent prints in the first column of a line it authored. The
/// shipping build prints the second; an older one still prints the first.
pub open spec fn claude_bullets() -> Seq<Seq<char>> {
    seq!["\u{23fa} "@, "\u{25cf} "@]
}

pub fn claude_role_prefixes() -> (r: Vec<&'static str>)
    ensures
        literals(r@) == claude_bullets(),
{
    let mut r: Vec<&'static str> = Vec::new();
    r.push("\u{23fa} ");
    r.push("\u{25cf} ");
    assert(literals(r@) =~= claude_bullets());
    r
}

/// Whether a line opens with one of the prefixes.
pub open spec fn opens_with_any(line: Seq<char>, prefixes: Seq<Seq<char>>) -> bool {
    exists|i: int| 0 <= i < prefixes.len() && (#[trigger] prefixes[i]).is_prefix_of(line)
}

/// Whether a line opens with a literal.
pub fn starts_with(line: &str, prefix: &str) -> (r: bool)
    ensures
        r == prefix@.is_prefix_of(line@),
{
    let chars: Vec<char> = text::chars_of(line);
    let part: Vec<char> = text::chars_of(prefix);
    let n: usize = chars.len();
    assert(chars@.subrange(0, n as int) =~= chars@);
    text::opens_with(&chars, 0, n, &part)
}

/// The index of the first prefix that the line opens with.
pub fn first_prefix(line: &str, prefixes: &Vec<&'static str>) -> (r: Option<usize>)
    ensures
        r is Some == opens_with_any(line@, literals(prefixes@)),
        r matches Some(k) ==> k < prefixes@.len() && prefixes@[k as int]@.is_prefix_of(line@) && (
        forall|i: int| 0 <= i < k ==> !(#[trigger] prefixes@[i])@.is_prefix_of(line@)),
{
    let mut i: usize = 0;
    while i < prefixes.len()
        invariant
            i <= prefixes@.len(),
            forall|k: int| 0 <= k < i ==> !(#[trigger] prefixes@[k])@.is_prefix_of(line@),
        decreases prefixes@.len() - i,
    {
        if starts_with(line, prefixes[i]) {
            assert(literals(prefixes@)[i as int].is_prefix_of(line@));
            return Some(i);
        }
        i = i + 1;
    }
    assert forall|k: int| 0 <= k < literals(prefixes@).len() implies !(#[trigger] literals(
        prefixes@,
    )[k]).is_prefix_of(line@) by {
        assert(!prefixes@[k]@.is_prefix_of(line@));
    }
    None
}

/// Whether a line opens with one of the prefixes.
pub fn starts_with_any(line: &str, prefixes: &Vec<&'static str>) -> (r: bool)
    ensures
        r == opens_with_any(line@, literals(prefixes@)),
{
    first_prefix(line, prefixes).is_some()
}

/// Whether every character is the rule glyph.
pub open spec fn all_rule(s: Seq<char>) -> bool {
    forall|i: int| 0 <= i < s.len() ==> #[trigger] s[i] == '─'
}

/// Whether a line is a horizontal rule of at least the given width.
pub open spec fn pure_separator(line: Seq<char>, minimum_width: nat) -> bool {
    line.len() >= minimum_width && all_rule(line)
}

pub fn is_all_rule(chars: &Vec<char>, start: usize) -> (r: bool)
    requires
        start <= chars@.len(),
    ensures
        r == all_rule(chars@.skip(start as int)),
{
    let mut i: usize = start;
    while i < chars.len()
        invariant
            start <= i <= chars@.len(),
            forall|k: int| start <= k < i ==> #[trigger] chars@[k] == '─',
        decreases chars@.len() - i,
    {
        if chars[i] != '─' {
            assert(chars@.skip(start as int)[i - start] != '─');
            return false;
        }
        i = i + 1;
    }
    assert forall|k: int| 0 <= k < chars@.skip(start as int).len() implies
        #[trigger] chars@.skip(start as int)[k] == '─' by {
        assert(chars@[start + k] == '─');
    }
    true
}

pub fn is_pure_separator(line: &str, minimum_width: usize) -> (r: bool)
    ensures
        r == pure_separator(line@, minimum_width as nat),
{
    let chars: Vec<char> = text::chars_of(line);
    assert(chars@.skip(0) =~= chars@);
    chars.len() >= minimum_width && is_all_rule(&chars, 0)
}

/// A duration such as `3s` or `10m`: digits and a unit.
pub open spec fn elapsed_word(w: Seq<char>) -> bool {
    &&& w.len() >= 2
    &&& w.last() == 'h' || w.last() == 'm' || w.last() == 's'
    &&& text::all_digits(w.drop_last())
}

/// One or more durations, separated by white space.
pub open spec fn elapsed_label(label: Seq<char>) -> bool {
    &&& text::words(label).len() > 0
    &&& forall|i: int|
        0 <= i < text::words(label).len() ==> elapsed_word(#[trigger] text::words(label)[i].of(label))
}

pub fn valid_elapsed_label(label: &str) -> (r: bool)
    ensures
        r == elapsed_label(label@),
{
    let chars: Vec<char> = text::chars_of(label);
    let words: Vec<LineRange> = text::word_ranges(&chars);
    if words.len() == 0 {
        return false;
    }
    let mut i: usize = 0;
    while i < words.len()
        invariant
            chars@ == label@,
            words@ == text::words(label@),
            i <= words@.len(),
            forall|k: int|
                0 <= k < words@.len() ==> (#[trigger] words@[k]).within(chars@) && words@[k].start
                    < words@[k].end,
            forall|k: int| 0 <= k < i ==> elapsed_word(#[trigger] text::words(label@)[k].of(label@)),
        decreases words@.len() - i,
    {
        let word: LineRange = words[i];
        let unit: char = chars[word.end - 1];
        let ghost w = word.of(label@);
        assert(w.drop_last() =~= chars@.subrange(word.start as int, word.end - 1));
        let ok: bool = word.end - word.start >= 2 && (unit == 'h' || unit == 'm' || unit == 's')
            && text::is_all_digits(&chars, word.start, word.end - 1);
        if !ok {
            assert(!elapsed_word(text::words(label@)[i as int].of(label@)));
            return false;
        }
        i = i + 1;
    }
    true
}

/// A model chip is any short label an agent could print for its own model:
/// matching known names instead breaks on every rename.
pub open spec fn model_label(model: Seq<char>) -> bool {
    &&& model.len() > 0
    &&& forall|i: int| 0 <= i < model.len() ==> model_char(#[trigger] model[i])
}

pub open spec fn model_char(c: char) -> bool {
    text::ascii_alphanumeric(c) || text::ascii_white_space(c) || c == '-' || c == '_' || c == '.'
}

pub fn valid_model_label(model: &str) -> (r: bool)
    ensures
        r == model_label(model@),
{
    let chars: Vec<char> = text::chars_of(model);
    if chars.len() == 0 {
        return false;
    }
    let mut i: usize = 0;
    while i < chars.len()
        invariant
            chars@ == model@,
            i <= chars@.len(),
            forall|k: int| 0 <= k < i ==> model_char(#[trigger] model@[k]),
        decreases chars@.len() - i,
    {
        let c: char = chars[i];
        if !(text::is_ascii_alphanumeric(c) || text::is_ascii_white_space(c) || c == '-' || c == '_'
            || c == '.') {
            assert(!model_char(model@[i as int]));
            return false;
        }
        i = i + 1;
    }
    true
}

/// The trimmed fields among the first `n` pieces that hold something.
pub open spec fn fields_upto(line: Seq<char>, n: int) -> Seq<Seq<char>>
    decreases n,
{
    if n <= 0 {
        Seq::empty()
    } else {
        let field = text::trim(text::pieces(line, '·')[n - 1].of(line));
        if field.len() == 0 {
            fields_upto(line, n - 1)
        } else {
            fields_upto(line, n - 1).push(field)
        }
    }
}

/// The fields of a footer: what stands between its dots, trimmed, without the
/// empty ones.
pub open spec fn fields(line: Seq<char>) -> Seq<Seq<char>> {
    fields_upto(line, text::pieces(line, '·').len() as int)
}

pub fn footer_fields(line: &str) -> (r: Vec<String>)
    ensures
        text::texts(r@) == fields(line@),
{
    let chars: Vec<char> = text::chars_of(line);
    let ranges: Vec<LineRange> = text::split_ranges(&chars, '·');
    let mut r: Vec<String> = Vec::new();
    let mut i: usize = 0;
    while i < ranges.len()
        invariant
            chars@ == line@,
            ranges@ == text::pieces(line@, '·'),
            forall|k: int| 0 <= k < ranges@.len() ==> (#[trigger] ranges@[k]).within(chars@),
            i <= ranges@.len(),
            text::texts(r@) =~= fields_upto(line@, i as int),
        decreases ranges@.len() - i,
    {
        let piece: LineRange = ranges[i];
        let (from, to) = text::trim_between(&chars, piece.start, piece.end);
        if from < to {
            r.push(text::string_between(&chars, from, to));
        }
        i = i + 1;
    }
    r
}

/// Whether a footer field is a working directory.
pub open spec fn workdir_field(field: Seq<char>) -> bool {
    field == "~"@ || "~/"@.is_prefix_of(field) || "/"@.is_prefix_of(field)
}

pub fn is_workdir_field(field: &str) -> (r: bool)
    ensures
        r == workdir_field(field@),
{
    text::same_text(field, "~") || starts_with(field, "~/") || starts_with(field, "/")
}

/// A percentage such as `62%`.
pub open spec fn percentage(w: Seq<char>) -> bool {
    w.len() >= 2 && w.last() == '%' && text::all_digits(w.drop_last())
}

fn is_percentage(word: &str) -> (r: bool)
    ensures
        r == percentage(word@),
{
    let chars: Vec<char> = text::chars_of(word);
    let n: usize = chars.len();
    if n < 2 {
        return false;
    }
    assert(word@.drop_last() =~= chars@.subrange(0, n - 1));
    chars[n - 1] == '%' && text::is_all_digits(&chars, 0, n - 1)
}

/// The names of the usage counters a status line carries.
pub open spec fn usage_label(w: Seq<char>) -> bool {
    w == "Context"@ || w == "weekly"@
}

fn is_usage_label(word: &str) -> (r: bool)
    ensures
        r == usage_label(word@),
{
    text::same_text(word, "Context") || text::same_text(word, "weekly")
}

/// What a usage counter says of its percentage.
pub open spec fn usage_tail(w: Seq<char>) -> bool {
    w == "left"@ || w == "used"@
}

fn is_usage_tail(word: &str) -> (r: bool)
    ensures
        r == usage_tail(word@),
{
    text::same_text(word, "left") || text::same_text(word, "used")
}

/// The words of a text, each as a text of its own.
pub open spec fn word_texts(s: Seq<char>) -> Seq<Seq<char>> {
    Seq::new(text::words(s).len(), |i: int| text::words(s)[i].of(s))
}

fn words_of(s: &str) -> (r: Vec<String>)
    ensures
        text::texts(r@) == word_texts(s@),
{
    let chars: Vec<char> = text::chars_of(s);
    let ranges: Vec<LineRange> = text::word_ranges(&chars);
    let mut r: Vec<String> = Vec::new();
    let mut i: usize = 0;
    while i < ranges.len()
        invariant
            chars@ == s@,
            ranges@ == text::words(s@),
            forall|k: int| 0 <= k < ranges@.len() ==> (#[trigger] ranges@[k]).within(chars@),
            i <= ranges@.len(),
            r@.len() == i,
            forall|k: int| 0 <= k < i ==> (#[trigger] r@[k])@ == ranges@[k].of(s@),
        decreases ranges@.len() - i,
    {
        r.push(line_text(&chars, ranges[i]));
        i = i + 1;
    }
    assert(text::texts(r@) =~= word_texts(s@));
    r
}

/// A usage counter: its name, a percentage, and what the percentage counts
/// unless the line was wrapped before that word.
pub open spec fn usage_field(field: Seq<char>) -> bool {
    let words = word_texts(field);
    &&& words.len() == 2 || words.len() == 3
    &&& usage_label(words[0])
    &&& percentage(words[1])
    &&& words.len() == 3 ==> usage_tail(words[2])
}

pub fn is_usage_field(field: &str) -> (r: bool)
    ensures
        r == usage_field(field@),
{
    let words: Vec<String> = words_of(field);
    proof {
        let w = word_texts(field@);
        assert(w.len() == words@.len());
        assert forall|k: int| 0 <= k < words@.len() implies (#[trigger] words@[k])@ == w[k] by {
            assert(text::texts(words@)[k] == words@[k]@);
        }
    }
    (words.len() == 2 || words.len() == 3) && is_usage_label(words[0].as_str()) && is_percentage(
        words[1].as_str(),
    ) && (words.len() == 2 || is_usage_tail(words[2].as_str()))
}

/// Whether a line is a native footer: a model chip first, and in some later
/// field a working directory or a usage counter.
pub open spec fn known_footer(line: Seq<char>) -> bool {
    let f = fields(line);
    &&& f.len() > 0
    &&& model_label(f[0])
    &&& exists|i: int| 1 <= i < f.len() && (workdir_field(#[trigger] f[i]) || usage_field(f[i]))
}

/// Returns the model chip of a native footer line, if the line is one.
pub fn footer_model(line: &str) -> (r: Option<String>)
    ensures
        r is Some == known_footer(line@),
        r matches Some(model) ==> model@ == fields(line@)[0],
{
    let found: Vec<String> = footer_fields(line);
    let ghost f = fields(line@);
    assert forall|k: int| 0 <= k < found@.len() implies (#[trigger] found@[k])@ == f[k] by {
        assert(text::texts(found@)[k] == found@[k]@);
    }
    assert(found@.len() == f.len());
    if found.len() == 0 {
        return None;
    }
    if !valid_model_label(found[0].as_str()) {
        return None;
    }
    let mut i: usize = 1;
    while i < found.len()
        invariant
            1 <= i <= found@.len(),
            f == fields(line@),
            found@.len() == f.len(),
            forall|k: int| 0 <= k < found@.len() ==> (#[trigger] found@[k])@ == f[k],
            model_label(f[0]),
            forall|k: int| 1 <= k < i ==> !(workdir_field(#[trigger] f[k]) || usage_field(f[k])),
        decreases found@.len() - i,
    {
        if is_workdir_field(found[i].as_str()) || is_usage_field(found[i].as_str()) {
            assert(workdir_field(f[i as int]) || usage_field(f[i as int]));
            return Some(found[0].clone());
        }
        i = i + 1;
    }
    None
}

pub fn is_known_footer(line: &str) -> (r: bool)
    ensures
        r == known_footer(line@),
{
    footer_model(line).is_some()
}

/// A word that a usage counter is made of, or the ellipsis that cuts one off.
pub open spec fn usage_word(w: Seq<char>) -> bool {
    usage_label(w) || usage_tail(w) || percentage(w) || w == "…"@
}

/// A field of a status line's second row holds words of usage counters only.
pub open spec fn continuation_field(field: Seq<char>) -> bool {
    forall|i: int| 0 <= i < word_texts(field).len() ==> usage_word(#[trigger] word_texts(field)[i])
}

fn is_continuation_field(field: &str) -> (r: bool)
    ensures
        r == continuation_field(field@),
{
    let words: Vec<String> = words_of(field);
    let ghost w = word_texts(field@);
    assert(words@.len() == w.len());
    assert forall|k: int| 0 <= k < words@.len() implies (#[trigger] words@[k])@ == w[k] by {
        assert(text::texts(words@)[k] == words@[k]@);
    }
    let mut i: usize = 0;
    while i < words.len()
        invariant
            i <= words@.len(),
            w == word_texts(field@),
            words@.len() == w.len(),
            forall|k: int| 0 <= k < words@.len() ==> (#[trigger] words@[k])@ == w[k],
            forall|k: int| 0 <= k < i ==> usage_word(#[trigger] w[k]),
        decreases words@.len() - i,
    {
        let word: &str = words[i].as_str();
        if !(is_usage_label(word) || is_usage_tail(word) || is_percentage(word)
            || text::same_text(word, "…")) {
            assert(!usage_word(w[i as int]));
            return false;
        }
        i = i + 1;
    }
    true
}

/// Whether a line is the wrapped rest of a status line: usage counters only.
pub open spec fn footer_continuation(line: Seq<char>) -> bool {
    &&& fields(line).len() > 0
    &&& forall|i: int| 0 <= i < fields(line).len() ==> continuation_field(#[trigger] fields(line)[i])
}

pub fn is_known_footer_continuation(line: &str) -> (r: bool)
    ensures
        r == footer_continuation(line@),
{
    let found: Vec<String> = footer_fields(line);
    let ghost f = fields(line@);
    assert(found@.len() == f.len());
    assert forall|k: int| 0 <= k < found@.len() implies (#[trigger] found@[k])@ == f[k] by {
        assert(text::texts(found@)[k] == found@[k]@);
    }
    if found.len() == 0 {
        return false;
    }
    let mut i: usize = 0;
    while i < found.len()
        invariant
            i <= found@.len(),
            f == fields(line@),
            found@.len() == f.len(),
            forall|k: int| 0 <= k < found@.len() ==> (#[trigger] found@[k])@ == f[k],
            forall|k: int| 0 <= k < i ==> continuation_field(#[trigger] f[k]),
        decreases found@.len() - i,
    {
        if !is_continuation_field(found[i].as_str()) {
            assert(!continuation_field(f[i as int]));
            return false;
        }
        i = i + 1;
    }
    true
}

/// The hint Codex prints below its composer while a turn is running.
pub open spec fn queue_hint() -> Seq<char> {
    "tab to queue message"@
}

/// What may stand at the right of the hint: how much context is left.
pub open spec fn context_left(rest: Seq<char>) -> bool {
    let words = word_texts(rest);
    &&& rest.len() > 0
    &&& text::ascii_white_space(rest[0])
    &&& words.len() == 3
    &&& percentage(words[0])
    &&& words[1] == "context"@
    &&& words[2] == "left"@
}

/// Whether a line is exactly the hint of a running turn, with or without the
/// context that is left.
pub open spec fn codex_queue_footer(line: Seq<char>) -> bool {
    let t = text::trim(line);
    &&& queue_hint().is_prefix_of(t)
    &&& t.len() == queue_hint().len() || context_left(t.skip(queue_hint().len() as int))
}

pub fn is_codex_queue_footer(line: &str) -> (r: bool)
    ensures
        r == codex_queue_footer(line@),
{
    let chars: Vec<char> = text::chars_of(line);
    let n: usize = chars.len();
    assert(chars@.subrange(0, n as int) =~= line@);
    let (from, to) = text::trim_between(&chars, 0, n);
    let hint: Vec<char> = text::chars_of("tab to queue message");
    let ghost t = text::trim(line@);
    if !text::opens_with(&chars, from, to, &hint) {
        return false;
    }
    if to - from == hint.len() {
        return true;
    }
    let rest: String = text::string_between(&chars, from + hint.len(), to);
    assert(rest@ =~= t.skip(queue_hint().len() as int));
    let words: Vec<String> = words_of(rest.as_str());
    proof {
        let w = word_texts(rest@);
        assert(w.len() == words@.len());
        assert forall|k: int| 0 <= k < words@.len() implies (#[trigger] words@[k])@ == w[k] by {
            assert(text::texts(words@)[k] == words@[k]@);
        }
    }
    assert(rest@[0] == chars@[from + hint.len()]);
    text::is_ascii_white_space(chars[from + hint.len()]) && words.len() == 3 && is_percentage(
        words[0].as_str(),
    ) && text::same_text(words[1].as_str(), "context") && text::same_text(
        words[2].as_str(),
        "left",
    )
}

/// How many characters stand before the composer content on a prompt line, if
/// the line is one: the marker, and the white space that separates it.
///
/// The separator is any white space, not just an ASCII space: an agent may render an
/// empty composer as the marker followed by U+00A0.
pub open spec fn content_index(line: Seq<char>, marker: char) -> Option<int> {
    if line.len() == 0 || line[0] != marker {
        None
    } else if line.len() == 1 {
        Some(1)
    } else if text::white_space(line[1]) {
        Some(2)
    } else {
        None
    }
}

pub fn composer_content_index(line: &str, marker: char) -> (r: Option<usize>)
    ensures
        r is Some == content_index(line@, marker) is Some,
        r matches Some(n) ==> n == content_index(line@, marker).unwrap() && n <= line@.len(),
{
    let chars: Vec<char> = text::chars_of(line);
    if chars.len() == 0 || chars[0] != marker {
        None
    } else if chars.len() == 1 {
        Some(1)
    } else if text::is_white_space(chars[1]) {
        Some(2)
    } else {
        None
    }
}

/// Byte offset of the composer content on a prompt line, if the line is one.
pub fn composer_content_start(line: &str, marker: char) -> (r: Option<usize>)
    ensures
        r is Some == content_index(line@, marker) is Some,
        r matches Some(n) ==> n == text::byte_at(line@, content_index(line@, marker).unwrap()),
{
    match composer_content_index(line, marker) {
        None => None,
        Some(n) => {
            let chars: Vec<char> = text::chars_of(line);
            let offsets: Vec<usize> = text::byte_offsets(line, &chars);
            Some(offsets[n])
        },
    }
}

// ---------------------------------------------------------------------------
// What holds of every footer
// ---------------------------------------------------------------------------

proof fn lemma_fields_of_two(a: Seq<char>, b: Seq<char>)
    requires
        a.len() > 0,
        b.len() > 0,
        !text::white_space(a[0]) && !text::white_space(a.last()),
        !text::white_space(b[0]) && !text::white_space(b.last()),
        forall|k: int| 0 <= k < a.len() ==> #[trigger] a[k] != '·',
        forall|k: int| 0 <= k < b.len() ==> #[trigger] b[k] != '·',
        a.len() + b.len() + 3 <= usize::MAX,
    ensures
        fields(a + seq![' ', '·', ' '] + b) == seq![a, b],
{
    let none = Seq::<char>::empty();
    let gap = seq![' '];
    let left = a + gap;
    let right = gap + b;
    let line = a + seq![' ', '·', ' '] + b;
    assert(line =~= left.push('·') + right);
    assert forall|k: int| 0 <= k < left.len() implies #[trigger] left[k] != '·' by {
        if k < a.len() {
            assert(left[k] == a[k]);
        }
    }
    assert forall|k: int| 0 <= k < right.len() implies #[trigger] right[k] != '·' by {
        if k > 0 {
            assert(right[k] == b[k - 1]);
        }
    }
    text::lemma_one_more_piece(none, '·', left);
    text::lemma_one_more_piece(left, '·', right);
    let parts = text::pieces(line, '·');
    assert(parts.len() == 2);
    assert(parts[0].of(line) =~= left);
    assert(parts[1].of(line) =~= right);
    assert(none + a + gap =~= left);
    assert(gap + b + none =~= right);
    text::lemma_trim_takes_the_padding(none, a, gap);
    text::lemma_trim_takes_the_padding(gap, b, none);
    reveal_with_fuel(fields_upto, 3);
    assert(fields(line) =~= seq![a, b]);
}

/// A line that names a model and behind a dot a working directory is a footer, and its
/// model and its directory are read off it as they stand there.
pub proof fn lemma_footer_reads_back(model: Seq<char>, directory: Seq<char>)
    requires
        model.len() > 0,
        forall|i: int|
            0 <= i < model.len() ==> text::ascii_alphanumeric(#[trigger] model[i]) || model[i]
                == '-' || model[i] == '_' || model[i] == '.',
        directory.len() > 0,
        directory[0] == '/' || (directory.len() > 1 && directory[0] == '~' && directory[1] == '/'),
        !text::white_space(directory.last()),
        forall|i: int| 0 <= i < directory.len() ==> #[trigger] directory[i] != '·',
        model.len() + directory.len() + 3 <= usize::MAX,
    ensures
        known_footer(model + seq![' ', '·', ' '] + directory),
        fields(model + seq![' ', '·', ' '] + directory) == seq![model, directory],
{
    let line = model + seq![' ', '·', ' '] + directory;
    assert(!text::white_space(model[0]));
    assert(!text::white_space(model[model.len() - 1]));
    assert forall|i: int| 0 <= i < model.len() implies #[trigger] model[i] != '·' by {
        assert(text::ascii_alphanumeric(model[i]) || model[i] == '-' || model[i] == '_' || model[i]
            == '.');
    }
    assert forall|i: int| 0 <= i < model.len() implies model_char(#[trigger] model[i]) by {}
    lemma_fields_of_two(model, directory);
    reveal_strlit("~/");
    reveal_strlit("/");
    if directory[0] == '/' {
        assert("/"@ =~= directory.subrange(0, 1));
        assert("/"@.is_prefix_of(directory));
    } else {
        assert("~/"@ =~= directory.subrange(0, 2));
        assert("~/"@.is_prefix_of(directory));
    }
    let f = fields(line);
    assert(workdir_field(f[1]));
}

proof fn lemma_few_fields(line: Seq<char>, n: int)
    ensures
        n <= 0 ==> fields_upto(line, n).len() == 0,
        n >= 0 ==> fields_upto(line, n).len() <= n,
    decreases n,
{
    if n > 0 {
        lemma_few_fields(line, n - 1);
    }
}

/// A line without a dot is no footer.
pub proof fn lemma_footer_has_a_dot(line: Seq<char>)
    requires
        forall|k: int| 0 <= k < line.len() ==> #[trigger] line[k] != '·',
        line.len() < usize::MAX,
    ensures
        !known_footer(line),
{
    let none = Seq::<char>::empty();
    text::lemma_one_more_piece(none, '·', line);
    lemma_few_fields(line, 1);
}

/// The hint of a running turn is recognized whatever white space is around it.
pub proof fn lemma_queue_hint_is_recognized(before: Seq<char>, after: Seq<char>)
    requires
        text::blank(before),
        text::blank(after),
    ensures
        codex_queue_footer(before + "tab to queue message"@ + after),
{
    reveal_strlit("tab to queue message");
    let hint = "tab to queue message"@;
    assert(hint.last() == 'e');
    text::lemma_trim_takes_the_padding(before, hint, after);
    assert(hint.is_prefix_of(hint));
}

/// A line of nothing but the rule glyph is a rule where it is long enough, and no other
/// line is.
pub proof fn lemma_rules_are_recognized(n: nat, minimum: nat, line: Seq<char>)
    ensures
        pure_separator(Seq::new(n, |i: int| '─'), minimum) <==> n >= minimum,
        (exists|i: int| 0 <= i < line.len() && #[trigger] line[i] != '─') ==> !pure_separator(
            line,
            minimum,
        ),
{
    let rule = Seq::new(n, |i: int| '─');
    assert(all_rule(rule));
}

/// The content of a composer starts behind its marker and the one space that follows it.
/// A marker right before something else opens no composer.
pub proof fn lemma_content_follows_the_marker(marker: char, space: char, rest: Seq<char>)
    ensures
        text::white_space(space) ==> content_index(seq![marker, space] + rest, marker) == Some(2int),
        content_index(seq![marker], marker) == Some(1int),
        !text::white_space(space) ==> content_index(seq![marker, space] + rest, marker) is None,
        space != marker ==> content_index(seq![space] + rest, marker) is None,
{
    let line = seq![marker, space] + rest;
    assert(line[0] == marker && line[1] == space);
    assert((seq![space] + rest)[0] == space);
}

}
