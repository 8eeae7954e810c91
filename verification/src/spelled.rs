//! A draft with images is read as it is spelled in a composer.

use crate::agent::AgentKind;
use crate::composer;
use crate::style;
use crate::text;
use crate::ui::adopt;
use vstd::prelude::*;

verus! {

/// How an image is spelled in a composer.
pub open spec fn image(number: nat) -> Seq<char> {
    "[Image #"@ + text::decimal_text(number) + "]"@
}

/// How a draft is spelled: its images, and behind them its text, with a space between any
/// two.
pub open spec fn spelled(images: Seq<usize>, t: Seq<char>) -> Seq<char>
    decreases images.len(),
{
    if images.len() == 0 {
        t
    } else if images.len() == 1 && t.len() == 0 {
        image(images[0] as nat)
    } else {
        image(images[0] as nat) + seq![' '] + spelled(images.skip(1), t)
    }
}

/// Whether a text can stand behind the images of a draft: no white space stands at its
/// ends, and no image is spelled in it.
pub open spec fn plain_draft(t: Seq<char>) -> bool {
    &&& t.len() > 0 ==> !text::white_space(t[0]) && !text::white_space(t.last())
    &&& forall|k: int| !#[trigger] text::holds_at(t, k, "[Image #"@)
}

proof fn lemma_digits_end_is(s: Seq<char>, i: int, end: int)
    requires
        0 <= i <= end < s.len(),
        forall|k: int| i <= k < end ==> text::ascii_digit(#[trigger] s[k]),
        !text::ascii_digit(s[end]),
    ensures
        composer::digits_end(s, i) == end,
    decreases end - i,
{
    if i < end {
        assert(text::ascii_digit(s[i]));
        lemma_digits_end_is(s, i + 1, end);
    }
}

/// An image that is spelled at a place is found there, with its number and its end.
proof fn lemma_image_is_found(s: Seq<char>, at: int, number: nat)
    requires
        0 <= at <= at + image(number).len() <= s.len(),
        s.subrange(at, at + image(number).len()) == image(number),
    ensures
        composer::marker_stands(s, at),
        composer::marker_number(s, at) == number,
        composer::marker_end(s, at) == at + image(number).len(),
        s[at] == '[',
        image(number).len() > 0,
{
    reveal_strlit("[Image #");
    reveal_strlit("]");
    let digits = text::decimal_text(number);
    let whole = image(number);
    text::lemma_decimal_text_reads_back(number);
    let from = at + 8;
    let end = from + digits.len();
    assert(whole.len() == digits.len() + 9);
    assert forall|k: int| 0 <= k < whole.len() implies s[at + k] == #[trigger] whole[k] by {
        assert(s.subrange(at, at + whole.len())[k] == whole[k]);
    }
    assert(s.subrange(at, from) =~= "[Image #"@) by {
        assert forall|k: int| 0 <= k < 8 implies s[at + k] == #[trigger] "[Image #"@[k] by {
            assert(whole[k] == "[Image #"@[k]);
        }
    }
    assert forall|k: int| from <= k < end implies text::ascii_digit(#[trigger] s[k]) by {
        assert(whole[k - at] == digits[k - from]);
        assert(s[k] == digits[k - from]);
    }
    assert(whole[digits.len() as int + 8] == ']');
    assert(s[end as int] == ']');
    lemma_digits_end_is(s, from, end as int);
    assert(s.subrange(from, end as int) =~= digits) by {
        assert forall|k: int| 0 <= k < digits.len() implies s[from + k] == #[trigger] digits[k] by {
            assert(whole[k + 8] == digits[k]);
        }
    }
    assert(whole[0] == '[');
}

proof fn lemma_spelled_is_read(s: Seq<char>, i: int, lead: int, images: Seq<usize>, t: Seq<char>)
    requires
        0 <= i,
        0 <= lead <= 1,
        i + lead <= s.len(),
        lead == 1 ==> s[i] == ' ' && spelled(images, t).len() > 0,
        s.skip(i + lead) == spelled(images, t),
        plain_draft(t),
    ensures
        composer::markers_from(s, i) == images,
        composer::rest_from(s, i) == s.len() - t.len(),
        t.len() == 0 ==> composer::count_from(s, i) == Some(images.len()),
        t.len() > 0 ==> composer::count_from(s, i) is None,
    decreases images.len(),
{
    reveal_strlit("[Image #");
    let at = i + lead;
    let body = spelled(images, t);
    if images.len() == 0 {
        if t.len() > 0 {
            assert(s[at] == t[0]);
            if text::holds_at(s, at, "[Image #"@) {
                assert(t.subrange(0, 8) =~= s.subrange(at, at + 8));
                assert(text::holds_at(t, 0, "[Image #"@));
            }
        }
        assert(composer::space_end(s, at) == at);
        assert(composer::space_end(s, i) == at);
        assert(composer::ascii_space_end(s, at) == at);
        assert(composer::ascii_space_end(s, i) == at);
        assert(!composer::marker_stands(s, at));
        assert(composer::markers_from(s, i) =~= images);
    } else {
        let n = images[0] as nat;
        let whole = image(n);
        let rest = images.skip(1);
        let e = at + whole.len();
        assert(body.subrange(0, whole.len() as int) =~= whole);
        assert(s.skip(at).len() == s.len() - at);
        assert forall|k: int| 0 <= k < body.len() implies s[at + k] == #[trigger] body[k] by {
            assert(s.skip(at)[k] == s[at + k]);
        }
        assert(s.subrange(at, e) =~= body.subrange(0, whole.len() as int));
        lemma_image_is_found(s, at, n);
        assert(composer::space_end(s, at) == at);
        assert(composer::space_end(s, i) == at);
        assert(composer::ascii_space_end(s, at) == at);
        assert(composer::ascii_space_end(s, i) == at);
        if images.len() == 1 && t.len() == 0 {
            assert(rest =~= Seq::<usize>::empty());
            assert(e == s.len());
            assert(s.skip(e) =~= t);
            lemma_spelled_is_read(s, e, 0, rest, t);
        } else {
            assert(body[whole.len() as int] == ' ');
            assert(s[e] == body[whole.len() as int]);
            assert(s.skip(e + 1) =~= spelled(rest, t)) by {
                assert(s.skip(e + 1) =~= body.skip(whole.len() as int + 1));
                assert(body.skip(whole.len() as int + 1) =~= spelled(rest, t));
            }
            if rest.len() > 0 {
                reveal_strlit("]");
                assert(spelled(rest, t).len() > 0);
            }
            lemma_spelled_is_read(s, e, 1, rest, t);
        }
        assert(composer::markers_from(s, i) == seq![images[0]] + composer::markers_from(s, e));
        assert(seq![images[0]] + rest =~= images);
    }
}

/// A draft is read as it is spelled: its images by their numbers and in their order, and
/// its text. Images alone are counted; images beside a text are not.
pub proof fn lemma_draft_is_read_as_spelled(images: Seq<usize>, t: Seq<char>)
    requires
        images.len() > 0 || t.len() > 0,
        plain_draft(t),
    ensures
        composer::split_content(spelled(images, t)) == Some(
            composer::PartsView { markers: images, text: t },
        ),
        t.len() == 0 ==> composer::exact_count(spelled(images, t)) == Some(images.len()),
        t.len() > 0 ==> composer::exact_count(spelled(images, t)) is None,
{
    let s = spelled(images, t);
    assert(s.skip(0) =~= s);
    lemma_spelled_is_read(s, 0, 0, images, t);
    let rest = composer::rest_from(s, 0);
    lemma_text_ends_the_draft(images, t);
    assert(s.skip(rest) == t);
    let none = Seq::<char>::empty();
    if t.len() > 0 {
        text::lemma_trim_takes_the_padding(none, t, none);
        assert(none + t + none =~= t);
    } else {
        text::lemma_blank_is_trimmed_away(t);
        assert(text::trim(t) =~= t);
    }
    assert forall|k: int| rest <= k implies !#[trigger] text::holds_at(
        s,
        k,
        composer::attachment_marker(),
    ) by {
        if text::holds_at(s, k, "[Image #"@) {
            let m = "[Image #"@.len() as int;
            assert(t.subrange(k - rest, k - rest + m) =~= s.subrange(k, k + m));
            assert(text::holds_at(t, k - rest, "[Image #"@));
        }
    }
}

proof fn lemma_text_ends_the_draft(images: Seq<usize>, t: Seq<char>)
    ensures
        spelled(images, t).len() >= t.len(),
        spelled(images, t).skip(spelled(images, t).len() - t.len()) == t,
    decreases images.len(),
{
    let s = spelled(images, t);
    if images.len() == 0 {
        assert(s.skip(0) =~= t);
    } else if images.len() == 1 && t.len() == 0 {
        assert(s.skip(s.len() as int) =~= t);
    } else {
        lemma_text_ends_the_draft(images.skip(1), t);
        let later = spelled(images.skip(1), t);
        assert(s.skip(s.len() - t.len()) =~= later.skip(later.len() - t.len()));
    }
}


/// A composer that shows images alone is the overlay's to write to exactly where the draft
/// has as many; its images are known by their numbers. One that shows a text too is held
/// by that text, unless it is as faint as a placeholder, and is taken over as it is
/// spelled.
pub proof fn lemma_images_are_read_off_the_composer(
    kind: AgentKind,
    surface: style::StyledView,
    images: Seq<usize>,
    t: Seq<char>,
    expected: usize,
)
    requires
        images.len() > 0 || t.len() > 0,
        images.len() <= usize::MAX,
        plain_draft(t),
        composer::composer_content(kind, surface) == Some(spelled(images, t)),
    ensures
        ({
            let state = composer::composer_state(kind, surface);
            let parts = composer::PartsView { markers: images, text: t };
            &&& t.len() == 0 ==> (state.access_spec(expected) is Ready <==> images.len()
                == expected)
            &&& t.len() == 0 ==> adopt::known_markers(kind, surface) == Some(images)
            &&& t.len() > 0 ==> state is Clear || (state.access_spec(expected) is Occupied
                && composer::composer_parts(kind, surface) == Some(parts) && adopt::known_markers(
                kind,
                surface,
            ) == Some(images))
        }),
{
    let content = spelled(images, t);
    lemma_draft_is_read_as_spelled(images, t);
    if images.len() > 0 {
        let whole = image(images[0] as nat);
        assert(content.subrange(0, whole.len() as int) =~= whole);
        lemma_image_is_found(content, 0, images[0] as nat);
    }
    assert(!text::white_space(content[0]));
    assert(!text::blank(content));
}

}
