//! What the lines below a composer are made of.

use crate::native_chrome;
use crate::text;
use vstd::prelude::*;

verus! {

/// Whether a text is a word.
pub open spec fn is_word(w: Seq<char>) -> bool {
    &&& w.len() > 0
    &&& forall|k: int| 0 <= k < w.len() ==> !text::ascii_white_space(#[trigger] w[k])
}

/// Whether a text is digits and a percent sign.
pub open spec fn percents(w: Seq<char>) -> bool {
    &&& w.len() > 1
    &&& w[w.len() - 1] == '%'
    &&& forall|k: int| 0 <= k < w.len() - 1 ==> '0' <= #[trigger] w[k] <= '9'
}

proof fn lemma_word_texts_grow(s: Seq<char>, space: char, w: Seq<char>)
    requires
        is_word(w),
        text::ascii_white_space(space),
        s.len() + 1 + w.len() <= usize::MAX,
    ensures
        native_chrome::word_texts(w) == seq![w],
        native_chrome::word_texts(s.push(space) + w) == native_chrome::word_texts(s).push(w),
{
    let all = s.push(space) + w;
    text::lemma_one_more_word(s, space, w);
    text::lemma_words_are_the_longest_stretches(s);
    assert(text::range(0, w.len() as int).of(w) =~= w);
    assert(native_chrome::word_texts(w) =~= seq![w]);
    let n = s.len() as int;
    assert(text::range(n + 1, n + 1 + w.len()).of(all) =~= w);
    let before = text::words(s);
    let after = text::words(all);
    assert forall|i: int| 0 <= i < before.len() implies (#[trigger] before[i]).of(s)
        == after[i].of(all) by {
        assert(after[i] == before[i]);
        assert(before[i].of(s) =~= before[i].of(all));
    }
    assert(native_chrome::word_texts(all) =~= native_chrome::word_texts(s).push(w));
}

proof fn lemma_percents(w: Seq<char>)
    ensures
        native_chrome::percentage(w) <==> percents(w),
{
    if w.len() > 1 {
        let digits = w.drop_last();
        assert(w.last() == w[w.len() - 1]);
        if percents(w) {
            assert forall|i: int| 0 <= i < digits.len() implies text::ascii_digit(
                #[trigger] digits[i],
            ) by {
                assert('0' <= w[i] <= '9');
            }
        }
        if native_chrome::percentage(w) {
            assert forall|k: int| 0 <= k < w.len() - 1 implies '0' <= #[trigger] w[k] <= '9' by {
                assert(digits[k] == w[k]);
                assert(text::ascii_digit(digits[k]));
                text::lemma_kinds_of_characters(w[k]);
            }
        }
    }
}

/// A usage counter names what it counts and says how much in percent; a word behind that
/// says whether so much is left or used. No other two or three words are one, and fewer
/// never are.
pub proof fn lemma_usage_counters_are_recognized(a: Seq<char>, b: Seq<char>, c: Seq<char>)
    requires
        is_word(a),
        is_word(b),
        is_word(c),
        a.len() + b.len() + c.len() + 2 <= usize::MAX,
    ensures
        !native_chrome::usage_field(a),
        native_chrome::usage_field(a + seq![' '] + b) <==> (a == "Context"@ || a == "weekly"@)
            && percents(b),
        native_chrome::usage_field(a + seq![' '] + b + seq![' '] + c) <==> (a == "Context"@ || a
            == "weekly"@) && percents(b) && (c == "left"@ || c == "used"@),
{
    let two = a + seq![' '] + b;
    let three = two + seq![' '] + c;
    assert(a + seq![' '] =~= a.push(' '));
    assert(two + seq![' '] =~= two.push(' '));
    lemma_word_texts_grow(Seq::empty(), ' ', a);
    lemma_word_texts_grow(a, ' ', b);
    lemma_word_texts_grow(two, ' ', c);
    lemma_percents(b);
    assert(native_chrome::word_texts(two) =~= seq![a, b]);
    assert(native_chrome::word_texts(three) =~= seq![a, b, c]);
}

proof fn lemma_one_field(line: Seq<char>)
    requires
        line.len() > 0,
        line.len() < usize::MAX,
        !text::white_space(line[0]) && !text::white_space(line.last()),
        forall|k: int| 0 <= k < line.len() ==> #[trigger] line[k] != '·',
    ensures
        native_chrome::fields(line) == seq![line],
{
    let none = Seq::<char>::empty();
    text::lemma_one_more_piece(none, '·', line);
    let parts = text::pieces(line, '·');
    assert(parts[0].of(line) =~= line);
    assert(none + line + none =~= line);
    text::lemma_trim_takes_the_padding(none, line, none);
    reveal_with_fuel(native_chrome::fields_upto, 2);
    assert(native_chrome::fields(line) =~= seq![line]);
}

/// A second line of a footer holds words of usage counters: what they count, how much, and
/// whether that is left or used, or what cuts one off. Another word makes it none.
pub proof fn lemma_rest_of_a_footer(a: Seq<char>, b: Seq<char>)
    requires
        is_word(a),
        is_word(b),
        a.len() + b.len() + 2 <= usize::MAX,
        !text::white_space(a[0]),
        !text::white_space(b.last()),
        !a.contains('·') && !b.contains('·'),
    ensures
        native_chrome::footer_continuation(a + seq![' '] + b) <==> (counts(a) && counts(b)),
{
    let two = a + seq![' '] + b;
    assert(a + seq![' '] =~= a.push(' '));
    lemma_word_texts_grow(Seq::empty(), ' ', a);
    lemma_word_texts_grow(a, ' ', b);
    lemma_percents(a);
    lemma_percents(b);
    let words = native_chrome::word_texts(two);
    assert(words =~= seq![a, b]);
    assert forall|k: int| 0 <= k < two.len() implies #[trigger] two[k] != '·' by {
        if k < a.len() {
            assert(a.contains(a[k]));
        } else if k > a.len() {
            assert(b.contains(b[k - a.len() - 1]));
        }
    }
    assert(two.last() == b.last());
    lemma_one_field(two);
    let f = native_chrome::fields(two);
    assert(f[0] == two);
    if native_chrome::footer_continuation(two) {
        assert(native_chrome::continuation_field(f[0]));
        assert(native_chrome::usage_word(words[0]));
        assert(native_chrome::usage_word(words[1]));
    }
}

/// Whether a word can be one of a usage counter, or cuts one off.
pub open spec fn counts(w: Seq<char>) -> bool {
    w == "Context"@ || w == "weekly"@ || w == "left"@ || w == "used"@ || percents(w) || w == "…"@
}

/// Beside the hint of a running turn may stand how much context is left, with a white
/// space between, and nothing else.
pub proof fn lemma_context_beside_the_hint(a: Seq<char>, b: Seq<char>, c: Seq<char>, space: char)
    requires
        is_word(a),
        is_word(b),
        is_word(c),
        a.len() + b.len() + c.len() + 30 <= usize::MAX,
        !text::white_space(c.last()),
        text::ascii_white_space(space),
    ensures
        native_chrome::codex_queue_footer(
            "tab to queue message"@ + seq![space] + a + seq![' '] + b + seq![' '] + c,
        ) <==> percents(a) && b == "context"@ && c == "left"@,
        !native_chrome::codex_queue_footer("tab to queue message"@ + c),
{
    reveal_strlit("tab to queue message");
    let hint = "tab to queue message"@;
    let none = Seq::<char>::empty();
    let one = none.push(space) + a;
    let two = one.push(' ') + b;
    let rest = two.push(' ') + c;
    let line = hint + seq![space] + a + seq![' '] + b + seq![' '] + c;
    assert(line =~= hint + rest);
    assert(none + line + none =~= line);
    assert(line.last() == c.last());
    text::lemma_trim_takes_the_padding(none, line, none);
    assert(hint.is_prefix_of(line));
    assert(line.skip(hint.len() as int) =~= rest);
    lemma_word_texts_grow(none, space, a);
    lemma_word_texts_grow(one, ' ', b);
    lemma_word_texts_grow(two, ' ', c);
    assert(text::words(none).len() == 0);
    assert(native_chrome::word_texts(none) =~= Seq::<Seq<char>>::empty());
    assert(native_chrome::word_texts(rest) =~= seq![a, b, c]);
    lemma_percents(a);
    assert(rest[0] == space);
    let glued = hint + c;
    assert(none + glued + none =~= glued);
    assert(glued.last() == c.last());
    text::lemma_trim_takes_the_padding(none, glued, none);
    assert(glued.skip(hint.len() as int) =~= c);
}

}
