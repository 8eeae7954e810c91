//! Text as a sequence of characters, and the byte offsets that go with it.

use vstd::prelude::*;
use vstd::utf8::*;

verus! {

/// `String::push` appends one character.
pub assume_specification[ std::string::String::push ](s: &mut std::string::String, c: char)
    ensures
        final(s)@ == old(s)@.push(c),
;

/// The number of bytes one character takes in UTF-8.
pub open spec fn utf8_len(c: char) -> nat {
    if (c as u32) < 0x80 {
        1
    } else if (c as u32) < 0x800 {
        2
    } else if (c as u32) < 0x10000 {
        3
    } else {
        4
    }
}

/// The number of bytes a text takes in UTF-8.
pub open spec fn byte_len(s: Seq<char>) -> nat {
    encode_utf8(s).len()
}

pub proof fn lemma_encode_concat(a: Seq<char>, b: Seq<char>)
    ensures
        encode_utf8(a + b) == encode_utf8(a) + encode_utf8(b),
    decreases a.len(),
{
    if a.len() == 0 {
        assert(a + b =~= b);
    } else {
        assert((a + b).drop_first() =~= a.drop_first() + b);
        lemma_encode_concat(a.drop_first(), b);
        assert(encode_utf8(a + b) =~= encode_utf8(a) + encode_utf8(b));
    }
}

pub proof fn lemma_byte_len_concat(a: Seq<char>, b: Seq<char>)
    ensures
        byte_len(a + b) == byte_len(a) + byte_len(b),
{
    lemma_encode_concat(a, b);
}

pub proof fn lemma_byte_len_push(s: Seq<char>, c: char)
    ensures
        byte_len(s.push(c)) == byte_len(s) + utf8_len(c),
{
    assert(s.push(c) =~= s + seq![c]);
    lemma_encode_concat(s, seq![c]);
    reveal_with_fuel(encode_utf8, 2);
    assert(seq![c].drop_first() =~= Seq::<char>::empty());
    char_is_scalar(c);
}

/// The characters of a text, one element each.
pub fn chars_of(s: &str) -> (r: Vec<char>)
    ensures
        r@ == s@,
{
    let mut r: Vec<char> = Vec::new();
    for c in it: s.chars()
        invariant
            it.seq() == s@,
            r@ == s@.take(it.index()),
    {
        r.push(c);
        assert(s@.take(it.index() + 1) =~= s@.take(it.index()).push(c));
    }
    assert(s@.take(s@.len() as int) =~= s@);
    r
}

/// The number of bytes a text takes.
pub fn byte_count(s: &str) -> (n: usize)
    ensures
        n == byte_len(s@),
{
    s.as_bytes().len()
}


/// The number of bytes one character takes in UTF-8.
pub fn utf8_width(c: char) -> (n: usize)
    ensures
        n == utf8_len(c),
{
    let code: u32 = c as u32;
    if code < 0x80 {
        1
    } else if code < 0x800 {
        2
    } else if code < 0x10000 {
        3
    } else {
        4
    }
}

/// The byte offset at which the character at an index begins.
pub open spec fn byte_at(s: Seq<char>, i: int) -> nat {
    byte_len(s.take(i))
}

pub proof fn lemma_byte_at_step(s: Seq<char>, i: int)
    requires
        0 <= i < s.len(),
    ensures
        byte_at(s, i + 1) == byte_at(s, i) + utf8_len(s[i]),
{
    assert(s.take(i + 1) =~= s.take(i).push(s[i]));
    lemma_byte_len_push(s.take(i), s[i]);
}

pub proof fn lemma_byte_at_ends(s: Seq<char>)
    ensures
        byte_at(s, 0) == 0,
        byte_at(s, s.len() as int) == byte_len(s),
{
    assert(s.take(0) =~= Seq::<char>::empty());
    assert(s.take(s.len() as int) =~= s);
}

/// Byte offsets grow by at least one with every character.
pub proof fn lemma_byte_at_monotone(s: Seq<char>, i: int, j: int)
    requires
        0 <= i <= j <= s.len(),
    ensures
        byte_at(s, i) + (j - i) <= byte_at(s, j),
        byte_at(s, j) <= byte_len(s),
    decreases j - i,
{
    if i < j {
        lemma_byte_at_step(s, i);
        lemma_byte_at_monotone(s, i + 1, j);
    } else if j < s.len() {
        lemma_byte_at_step(s, j);
        lemma_byte_at_tail(s, j);
    } else {
        lemma_byte_at_ends(s);
    }
}

proof fn lemma_byte_at_tail(s: Seq<char>, j: int)
    requires
        0 <= j <= s.len(),
    ensures
        byte_at(s, j) <= byte_len(s),
{
    assert(s =~= s.take(j) + s.skip(j));
    lemma_byte_len_concat(s.take(j), s.skip(j));
}

/// The bytes of a slice are the distance between the offsets of its ends.
pub proof fn lemma_byte_len_subrange(s: Seq<char>, i: int, j: int)
    requires
        0 <= i <= j <= s.len(),
    ensures
        byte_len(s.subrange(i, j)) == byte_at(s, j) - byte_at(s, i),
{
    assert(s.take(j) =~= s.take(i) + s.subrange(i, j));
    lemma_byte_len_concat(s.take(i), s.subrange(i, j));
}

/// The byte offset of every character of a text, and of its end.
pub fn byte_offsets(s: &str, chars: &Vec<char>) -> (r: Vec<usize>)
    requires
        chars@ == s@,
    ensures
        r@.len() == s@.len() + 1,
        forall|i: int| 0 <= i <= s@.len() ==> #[trigger] r@[i] == byte_at(s@, i),
{
    let total: usize = byte_count(s);
    let mut r: Vec<usize> = Vec::new();
    let mut at: usize = 0;
    r.push(at);
    proof {
        lemma_byte_at_ends(s@);
    }
    let mut i: usize = 0;
    while i < chars.len()
        invariant
            chars@ == s@,
            i <= chars@.len(),
            total == byte_len(s@),
            at == byte_at(s@, i as int),
            r@.len() == i + 1,
            forall|k: int| 0 <= k <= i ==> #[trigger] r@[k] == byte_at(s@, k),
        decreases chars@.len() - i,
    {
        proof {
            lemma_byte_at_step(s@, i as int);
            lemma_byte_at_monotone(s@, i + 1, s@.len() as int);
        }
        at = at + utf8_width(chars[i]);
        r.push(at);
        i = i + 1;
    }
    r
}

// ---------------------------------------------------------------------------
// Character classes
// ---------------------------------------------------------------------------

/// The characters with the Unicode `White_Space` property.
pub open spec fn white_space(c: char) -> bool {
    let v = c as u32;
    ||| 0x9 <= v <= 0xd
    ||| v == 0x20
    ||| v == 0x85
    ||| v == 0xa0
    ||| v == 0x1680
    ||| 0x2000 <= v <= 0x200a
    ||| v == 0x2028
    ||| v == 0x2029
    ||| v == 0x202f
    ||| v == 0x205f
    ||| v == 0x3000
}

pub fn is_white_space(c: char) -> (r: bool)
    ensures
        r == white_space(c),
{
    let v: u32 = c as u32;
    (0x9 <= v && v <= 0xd) || v == 0x20 || v == 0x85 || v == 0xa0 || v == 0x1680 || (0x2000 <= v
        && v <= 0x200a) || v == 0x2028 || v == 0x2029 || v == 0x202f || v == 0x205f || v == 0x3000
}

/// The control characters: general category `Cc`.
pub open spec fn control(c: char) -> bool {
    (c as u32) < 0x20 || 0x7f <= (c as u32) < 0xa0
}

pub fn is_control(c: char) -> (r: bool)
    ensures
        r == control(c),
{
    let v: u32 = c as u32;
    v < 0x20 || (0x7f <= v && v < 0xa0)
}

pub open spec fn ascii_digit(c: char) -> bool {
    0x30 <= (c as u32) <= 0x39
}

pub fn is_ascii_digit(c: char) -> (r: bool)
    ensures
        r == ascii_digit(c),
{
    let v: u32 = c as u32;
    0x30 <= v && v <= 0x39
}

/// Space, tab, line feed, form feed and carriage return.
pub open spec fn ascii_white_space(c: char) -> bool {
    let v = c as u32;
    v == 0x20 || v == 0x9 || v == 0xa || v == 0xc || v == 0xd
}

pub fn is_ascii_white_space(c: char) -> (r: bool)
    ensures
        r == ascii_white_space(c),
{
    let v: u32 = c as u32;
    v == 0x20 || v == 0x9 || v == 0xa || v == 0xc || v == 0xd
}

pub open spec fn ascii_alphanumeric(c: char) -> bool {
    ascii_digit(c) || 0x41 <= (c as u32) <= 0x5a || 0x61 <= (c as u32) <= 0x7a
}

pub fn is_ascii_alphanumeric(c: char) -> (r: bool)
    ensures
        r == ascii_alphanumeric(c),
{
    let v: u32 = c as u32;
    (0x30 <= v && v <= 0x39) || (0x41 <= v && v <= 0x5a) || (0x61 <= v && v <= 0x7a)
}

// ---------------------------------------------------------------------------
// Slices of a text
// ---------------------------------------------------------------------------

/// Whether a text holds nothing but white space.
pub open spec fn blank(s: Seq<char>) -> bool {
    forall|i: int| 0 <= i < s.len() ==> white_space(#[trigger] s[i])
}

/// A text without the white space it opens with.
pub open spec fn trim_start(s: Seq<char>) -> Seq<char>
    decreases s.len(),
{
    if s.len() > 0 && white_space(s[0]) {
        trim_start(s.skip(1))
    } else {
        s
    }
}

/// A text without the white space it ends with.
pub open spec fn trim_end(s: Seq<char>) -> Seq<char>
    decreases s.len(),
{
    if s.len() > 0 && white_space(s.last()) {
        trim_end(s.drop_last())
    } else {
        s
    }
}

/// A text without the white space at either end.
pub open spec fn trim(s: Seq<char>) -> Seq<char> {
    trim_end(trim_start(s))
}

/// What is cut off a text at its ends is white space, and what is left neither
/// opens nor ends with any.
pub proof fn lemma_trim_cuts_white_space_only(s: Seq<char>) -> (at: (int, int))
    ensures
        0 <= at.0 <= at.1 <= s.len(),
        trim(s) == s.subrange(at.0, at.1),
        blank(s.take(at.0)),
        blank(s.skip(at.1)),
        trim(s).len() > 0 ==> !white_space(trim(s)[0]) && !white_space(trim(s).last()),
{
    let a = lemma_trim_start_cuts(s);
    let rest = trim_start(s);
    let b = lemma_trim_end_cuts(rest);
    assert(trim(s) =~= s.subrange(a, a + b));
    assert(s.skip(a + b) =~= rest.skip(b));
    (a, a + b)
}

proof fn lemma_trim_start_cuts(s: Seq<char>) -> (at: int)
    ensures
        0 <= at <= s.len(),
        trim_start(s) == s.skip(at),
        blank(s.take(at)),
        trim_start(s).len() > 0 ==> !white_space(trim_start(s)[0]),
    decreases s.len(),
{
    if s.len() > 0 && white_space(s[0]) {
        let rest = lemma_trim_start_cuts(s.skip(1));
        assert(s.skip(1).skip(rest) =~= s.skip(rest + 1));
        assert forall|i: int| 0 <= i < rest + 1 implies white_space(
            #[trigger] s.take(rest + 1)[i],
        ) by {
            if i > 0 {
                assert(s.skip(1).take(rest)[i - 1] == s[i]);
            }
        }
        rest + 1
    } else {
        assert(s.skip(0) =~= s);
        0
    }
}

proof fn lemma_trim_end_cuts(s: Seq<char>) -> (at: int)
    ensures
        0 <= at <= s.len(),
        trim_end(s) == s.take(at),
        blank(s.skip(at)),
        trim_end(s).len() > 0 ==> !white_space(trim_end(s).last()) && trim_end(s)[0] == s[0],
    decreases s.len(),
{
    if s.len() > 0 && white_space(s.last()) {
        let at = lemma_trim_end_cuts(s.drop_last());
        assert(s.drop_last().take(at) =~= s.take(at));
        assert forall|i: int| 0 <= i < s.skip(at).len() implies white_space(
            #[trigger] s.skip(at)[i],
        ) by {
            if at + i < s.len() - 1 {
                assert(s.drop_last().skip(at)[i] == s[at + i]);
            }
        }
        at
    } else {
        assert(s.take(s.len() as int) =~= s);
        s.len() as int
    }
}

/// The characters of `chars` between two indices, as a text.
pub fn string_between(chars: &Vec<char>, start: usize, end: usize) -> (r: String)
    requires
        start <= end <= chars@.len(),
    ensures
        r@ == chars@.subrange(start as int, end as int),
{
    let mut r = String::new();
    let mut i: usize = start;
    while i < end
        invariant
            start <= i <= end <= chars@.len(),
            r@ == chars@.subrange(start as int, i as int),
        decreases end - i,
    {
        r.push(chars[i]);
        assert(chars@.subrange(start as int, i + 1) =~= chars@.subrange(
            start as int,
            i as int,
        ).push(chars@[i as int]));
        i = i + 1;
    }
    r
}

/// The first index of a slice that is not white space, or its end.
pub fn skip_white_space(chars: &Vec<char>, start: usize, end: usize) -> (r: usize)
    requires
        start <= end <= chars@.len(),
    ensures
        start <= r <= end,
        trim_start(chars@.subrange(start as int, end as int)) == chars@.subrange(
            r as int,
            end as int,
        ),
        forall|k: int| start <= k < r ==> white_space(#[trigger] chars@[k]),
        r < end ==> !white_space(chars@[r as int]),
{
    let mut r: usize = start;
    while r < end && is_white_space(chars[r])
        invariant
            start <= r <= end <= chars@.len(),
            trim_start(chars@.subrange(start as int, end as int)) == trim_start(
                chars@.subrange(r as int, end as int),
            ),
            forall|k: int| start <= k < r ==> white_space(#[trigger] chars@[k]),
        decreases end - r,
    {
        assert(chars@.subrange(r as int, end as int).skip(1) =~= chars@.subrange(
            r + 1,
            end as int,
        ));
        r = r + 1;
    }
    r
}

/// The end of a slice once the white space it ends with is left out.
pub fn drop_white_space(chars: &Vec<char>, start: usize, end: usize) -> (r: usize)
    requires
        start <= end <= chars@.len(),
    ensures
        start <= r <= end,
        trim_end(chars@.subrange(start as int, end as int)) == chars@.subrange(
            start as int,
            r as int,
        ),
        forall|k: int| r <= k < end ==> white_space(#[trigger] chars@[k]),
        r > start ==> !white_space(chars@[r - 1]),
{
    let mut r: usize = end;
    while r > start && is_white_space(chars[r - 1])
        invariant
            start <= r <= end <= chars@.len(),
            trim_end(chars@.subrange(start as int, end as int)) == trim_end(
                chars@.subrange(start as int, r as int),
            ),
            forall|k: int| r <= k < end ==> white_space(#[trigger] chars@[k]),
        decreases r,
    {
        assert(chars@.subrange(start as int, r as int).drop_last() =~= chars@.subrange(
            start as int,
            r - 1,
        ));
        r = r - 1;
    }
    r
}

/// The ends of a slice without the white space at either end.
pub fn trim_between(chars: &Vec<char>, start: usize, end: usize) -> (r: (usize, usize))
    requires
        start <= end <= chars@.len(),
    ensures
        start <= r.0 <= r.1 <= end,
        trim(chars@.subrange(start as int, end as int)) == chars@.subrange(
            r.0 as int,
            r.1 as int,
        ),
        (r.0 == r.1) == blank(chars@.subrange(start as int, end as int)),
{
    let from: usize = skip_white_space(chars, start, end);
    let to: usize = drop_white_space(chars, from, end);
    proof {
        let slice = chars@.subrange(start as int, end as int);
        if from == to {
            assert forall|i: int| 0 <= i < slice.len() implies white_space(#[trigger] slice[i]) by {
                assert(slice[i] == chars@[start + i]);
            }
        } else {
            assert(!white_space(chars@[from as int]));
            assert(slice[from - start] == chars@[from as int]);
        }
    }
    (from, to)
}

/// A text is blank exactly when trimming leaves nothing of it.
pub proof fn lemma_blank_is_trimmed_away(s: Seq<char>)
    ensures
        blank(s) == (trim(s).len() == 0),
{
    lemma_trim_start_blank(s);
    lemma_trim_end_blank(trim_start(s));
    lemma_trim_start_head(s);
}

proof fn lemma_trim_start_blank(s: Seq<char>)
    ensures
        blank(s) == (trim_start(s).len() == 0),
    decreases s.len(),
{
    if s.len() > 0 && white_space(s[0]) {
        lemma_trim_start_blank(s.skip(1));
        if blank(s.skip(1)) {
            assert forall|i: int| 0 <= i < s.len() implies white_space(#[trigger] s[i]) by {
                if i > 0 {
                    assert(s[i] == s.skip(1)[i - 1]);
                }
            }
        } else {
            let k = choose|k: int| 0 <= k < s.skip(1).len() && !white_space(#[trigger] s.skip(1)[k]);
            assert(!white_space(s[k + 1]));
        }
    } else if s.len() > 0 {
        assert(!white_space(s[0]));
    }
}

proof fn lemma_trim_start_head(s: Seq<char>)
    ensures
        trim_start(s).len() > 0 ==> !white_space(trim_start(s)[0]),
        trim_start(s).len() <= s.len(),
    decreases s.len(),
{
    if s.len() > 0 && white_space(s[0]) {
        lemma_trim_start_head(s.skip(1));
    }
}

proof fn lemma_trim_end_blank(s: Seq<char>)
    ensures
        blank(s) == (trim_end(s).len() == 0),
    decreases s.len(),
{
    if s.len() > 0 && white_space(s.last()) {
        lemma_trim_end_blank(s.drop_last());
        if blank(s.drop_last()) {
            assert forall|i: int| 0 <= i < s.len() implies white_space(#[trigger] s[i]) by {
                if i < s.len() - 1 {
                    assert(s[i] == s.drop_last()[i]);
                }
            }
        } else {
            let k = choose|k: int|
                0 <= k < s.drop_last().len() && !white_space(#[trigger] s.drop_last()[k]);
            assert(!white_space(s[k]));
        }
    } else if s.len() > 0 {
        assert(!white_space(s[s.len() - 1]));
    }
}

/// Whether `s` holds `part` starting at index `at`.
pub open spec fn holds_at(s: Seq<char>, at: int, part: Seq<char>) -> bool {
    0 <= at && at + part.len() <= s.len() && s.subrange(at, at + part.len()) == part
}

/// Whether a slice of `chars` opens with `part`.
pub fn opens_with(chars: &Vec<char>, start: usize, end: usize, part: &Vec<char>) -> (r: bool)
    requires
        start <= end <= chars@.len(),
    ensures
        r == part@.is_prefix_of(chars@.subrange(start as int, end as int)),
{
    let ghost slice = chars@.subrange(start as int, end as int);
    if end - start < part.len() {
        return false;
    }
    let mut i: usize = 0;
    while i < part.len()
        invariant
            start <= end <= chars@.len(),
            slice == chars@.subrange(start as int, end as int),
            part@.len() <= end - start,
            i <= part@.len(),
            forall|k: int| 0 <= k < i ==> slice[k] == part@[k],
        decreases part@.len() - i,
    {
        if chars[start + i] != part[i] {
            assert(slice[i as int] != part@[i as int]);
            assert(slice.subrange(0, part@.len() as int)[i as int] == slice[i as int]);
            return false;
        }
        i = i + 1;
    }
    assert(slice.subrange(0, part@.len() as int) =~= part@);
    true
}


// ---------------------------------------------------------------------------
// Pieces and words
// ---------------------------------------------------------------------------

/// A range of character indices of a text.
#[derive(Clone, Copy, Debug, PartialEq, Eq, Structural)]
pub struct LineRange {
    pub start: usize,
    pub end: usize,
}

impl LineRange {
    /// The characters of `s` in the range.
    pub open spec fn of(self, s: Seq<char>) -> Seq<char> {
        s.subrange(self.start as int, self.end as int)
    }

    /// Whether the range lies in `s`.
    pub open spec fn within(self, s: Seq<char>) -> bool {
        self.start <= self.end <= s.len()
    }
}

pub open spec fn range(start: int, end: int) -> LineRange {
    LineRange { start: start as usize, end: end as usize }
}

/// The index just behind the last separator among the first `n` characters.
pub open spec fn piece_start(s: Seq<char>, separator: char, n: int) -> int
    decreases n,
{
    if n <= 0 {
        0
    } else if s[n - 1] == separator {
        n
    } else {
        piece_start(s, separator, n - 1)
    }
}

/// The pieces that a separator among the first `n` characters closes.
pub open spec fn closed_pieces(s: Seq<char>, separator: char, n: int) -> Seq<LineRange>
    decreases n,
{
    if n <= 0 {
        Seq::empty()
    } else if s[n - 1] == separator {
        closed_pieces(s, separator, n - 1).push(range(piece_start(s, separator, n - 1), n - 1))
    } else {
        closed_pieces(s, separator, n - 1)
    }
}

/// The pieces of a text between its separators: always one more than there are
/// separators.
pub open spec fn pieces(s: Seq<char>, separator: char) -> Seq<LineRange> {
    closed_pieces(s, separator, s.len() as int).push(
        range(piece_start(s, separator, s.len() as int), s.len() as int),
    )
}

proof fn lemma_closed_pieces_within(s: Seq<char>, separator: char, n: int)
    requires
        0 <= n <= s.len(),
        s.len() <= usize::MAX,
    ensures
        0 <= piece_start(s, separator, n) <= n,
        forall|i: int|
            0 <= i < closed_pieces(s, separator, n).len() ==> (#[trigger] closed_pieces(
                s,
                separator,
                n,
            )[i]).start <= closed_pieces(s, separator, n)[i].end < n,
        forall|i: int|
            0 <= i < closed_pieces(s, separator, n).len() ==> s[(#[trigger] closed_pieces(
                s,
                separator,
                n,
            )[i]).end as int] == separator,
        forall|k: int|
            piece_start(s, separator, n) <= k < n ==> #[trigger] s[k] != separator,
        forall|i: int, k: int|
            0 <= i < closed_pieces(s, separator, n).len() && (#[trigger] closed_pieces(
                s,
                separator,
                n,
            )[i]).start <= k < closed_pieces(s, separator, n)[i].end ==> #[trigger] s[k]
                != separator,
    decreases n,
{
    if n > 0 {
        lemma_closed_pieces_within(s, separator, n - 1);
        let before = closed_pieces(s, separator, n - 1);
        let here = closed_pieces(s, separator, n);
        assert forall|i: int| 0 <= i < here.len() implies (#[trigger] here[i]).start <= here[i].end
            < n && s[here[i].end as int] == separator by {
            if i < before.len() {
                assert(here[i] == before[i]);
            }
        }
        assert forall|i: int, k: int|
            0 <= i < here.len() && (#[trigger] here[i]).start <= k < here[i].end implies
            #[trigger] s[k] != separator by {
            if i < before.len() {
                assert(here[i] == before[i]);
            }
        }
    }
}

/// Every piece lies in the text and holds no separator; each but the last is
/// followed by one.
pub proof fn lemma_pieces_within(s: Seq<char>, separator: char)
    requires
        s.len() <= usize::MAX,
    ensures
        pieces(s, separator).len() >= 1,
        forall|i: int|
            0 <= i < pieces(s, separator).len() ==> (#[trigger] pieces(s, separator)[i]).within(s),
        forall|i: int, k: int|
            0 <= i < pieces(s, separator).len() && (#[trigger] pieces(s, separator)[i]).start <= k
                < pieces(s, separator)[i].end ==> #[trigger] s[k] != separator,
        forall|i: int|
            0 <= i < pieces(s, separator).len() - 1 ==> (#[trigger] pieces(s, separator)[i]).end
                < s.len() && s[pieces(s, separator)[i].end as int] == separator,
        pieces(s, separator).last().end == s.len(),
{
    lemma_closed_pieces_within(s, separator, s.len() as int);
}

proof fn lemma_closed_pieces_follow(s: Seq<char>, separator: char, n: int)
    requires
        0 <= n <= s.len(),
        s.len() <= usize::MAX,
    ensures
        ({
            let closed = closed_pieces(s, separator, n);
            &&& closed.len() == 0 ==> piece_start(s, separator, n) == 0
            &&& closed.len() > 0 ==> closed.last().end + 1 == piece_start(s, separator, n)
            &&& forall|i: int|
                0 < i < closed.len() ==> (#[trigger] closed[i]).start == closed[i - 1].end + 1
        }),
    decreases n,
{
    if n > 0 {
        lemma_closed_pieces_follow(s, separator, n - 1);
        lemma_closed_pieces_within(s, separator, n - 1);
    }
}

/// Each piece starts right behind the separator that ends the one before it.
pub proof fn lemma_pieces_follow(s: Seq<char>, separator: char)
    requires
        s.len() <= usize::MAX,
    ensures
        forall|i: int|
            0 < i < pieces(s, separator).len() ==> (#[trigger] pieces(s, separator)[i]).start
                == pieces(s, separator)[i - 1].end + 1,
{
    lemma_closed_pieces_follow(s, separator, s.len() as int);
    lemma_closed_pieces_within(s, separator, s.len() as int);
}

proof fn lemma_first_piece_opens_the_text(s: Seq<char>, separator: char, n: int)
    requires
        0 <= n <= s.len(),
        s.len() <= usize::MAX,
    ensures
        closed_pieces(s, separator, n).len() > 0 ==> closed_pieces(s, separator, n)[0].start == 0,
        closed_pieces(s, separator, n).len() == 0 ==> piece_start(s, separator, n) == 0,
    decreases n,
{
    if n > 0 {
        lemma_first_piece_opens_the_text(s, separator, n - 1);
    }
}

/// The pieces of a text are the text: the first one opens it, each of the others
/// starts behind the separator that ends the one before it, the last one ends it,
/// and no piece holds a separator.
pub proof fn lemma_pieces_make_up_the_text(s: Seq<char>, separator: char)
    requires
        s.len() <= usize::MAX,
    ensures
        ({
            let parts = pieces(s, separator);
            &&& parts.len() > 0
            &&& parts[0].start == 0
            &&& parts.last().end == s.len()
            &&& forall|i: int|
                0 <= i < parts.len() ==> (#[trigger] parts[i]).start <= parts[i].end <= s.len()
            &&& forall|i: int|
                0 < i < parts.len() ==> (#[trigger] parts[i]).start == parts[i - 1].end + 1
                    && s[parts[i - 1].end as int] == separator
            &&& forall|i: int, k: int|
                0 <= i < parts.len() && (#[trigger] parts[i]).start <= k < parts[i].end
                    ==> #[trigger] s[k] != separator
        }),
{
    lemma_pieces_within(s, separator);
    lemma_pieces_follow(s, separator);
    lemma_first_piece_opens_the_text(s, separator, s.len() as int);
    let parts = pieces(s, separator);
    assert forall|i: int| 0 < i < parts.len() implies (#[trigger] parts[i]).start == parts[i
        - 1].end + 1 && s[parts[i - 1].end as int] == separator by {
        assert(parts[i - 1].end < s.len());
    }
    assert(parts[0].within(s));
}

proof fn lemma_closed_pieces_of_prefix(s: Seq<char>, t: Seq<char>, separator: char, n: int)
    requires
        0 <= n <= s.len(),
        n <= t.len(),
        forall|k: int| 0 <= k < n ==> #[trigger] s[k] == t[k],
    ensures
        closed_pieces(s, separator, n) == closed_pieces(t, separator, n),
        piece_start(s, separator, n) == piece_start(t, separator, n),
    decreases n,
{
    if n > 0 {
        lemma_closed_pieces_of_prefix(s, t, separator, n - 1);
        assert(s[n - 1] == t[n - 1]);
    }
}

proof fn lemma_closed_pieces_stay(s: Seq<char>, separator: char, m: int, n: int)
    requires
        0 <= m <= n <= s.len(),
        forall|k: int| m <= k < n ==> #[trigger] s[k] != separator,
    ensures
        closed_pieces(s, separator, n) == closed_pieces(s, separator, m),
        piece_start(s, separator, n) == piece_start(s, separator, m),
    decreases n - m,
{
    if m < n {
        lemma_closed_pieces_stay(s, separator, m, n - 1);
        assert(s[n - 1] != separator);
    }
}

/// A text without a separator is one piece. Another such text behind a separator
/// is one more piece, and leaves those before it as they are.
pub proof fn lemma_one_more_piece(s: Seq<char>, separator: char, added: Seq<char>)
    requires
        forall|k: int| 0 <= k < added.len() ==> #[trigger] added[k] != separator,
        s.len() + 1 + added.len() <= usize::MAX,
    ensures
        pieces(added, separator) == seq![range(0, added.len() as int)],
        pieces(s.push(separator) + added, separator) == pieces(s, separator).push(
            range(s.len() as int + 1, s.len() as int + 1 + added.len()),
        ),
{
    let n = s.len() as int;
    let all = s.push(separator) + added;
    lemma_closed_pieces_stay(added, separator, 0, added.len() as int);
    assert(pieces(added, separator) =~= seq![range(0, added.len() as int)]);
    lemma_closed_pieces_of_prefix(s, all, separator, n);
    assert(all[n] == separator);
    assert forall|k: int| n + 1 <= k < all.len() implies #[trigger] all[k] != separator by {
        assert(all[k] == added[k - n - 1]);
    }
    lemma_closed_pieces_stay(all, separator, n + 1, all.len() as int);
    assert(pieces(all, separator) =~= pieces(s, separator).push(range(n + 1, n + 1 + added.len())));
}

/// The pieces of a text between its separators.
pub fn split_ranges(chars: &Vec<char>, separator: char) -> (r: Vec<LineRange>)
    ensures
        r@ == pieces(chars@, separator),
        forall|i: int| 0 <= i < r@.len() ==> (#[trigger] r@[i]).within(chars@),
{
    let mut r: Vec<LineRange> = Vec::new();
    let mut start: usize = 0;
    let mut i: usize = 0;
    while i < chars.len()
        invariant
            i <= chars@.len(),
            start == piece_start(chars@, separator, i as int),
            r@ == closed_pieces(chars@, separator, i as int),
        decreases chars@.len() - i,
    {
        if chars[i] == separator {
            r.push(LineRange { start, end: i });
            start = i + 1;
        }
        i = i + 1;
    }
    r.push(LineRange { start, end: chars.len() });
    proof {
        lemma_pieces_within(chars@, separator);
    }
    r
}

/// The lines of a text as a terminal pane prints them: the pieces between line
/// feeds, and none at all for an empty text.
pub open spec fn line_pieces(s: Seq<char>) -> Seq<LineRange> {
    if s.len() == 0 {
        Seq::empty()
    } else {
        pieces(s, '\n')
    }
}

/// The words of the first `n` characters: the longest stretches without ASCII
/// white space.
pub open spec fn words_upto(s: Seq<char>, n: int) -> Seq<LineRange>
    decreases n,
{
    if n <= 0 {
        Seq::empty()
    } else if ascii_white_space(s[n - 1]) {
        words_upto(s, n - 1)
    } else if n >= 2 && !ascii_white_space(s[n - 2]) {
        words_upto(s, n - 1).drop_last().push(
            range(words_upto(s, n - 1).last().start as int, n),
        )
    } else {
        words_upto(s, n - 1).push(range(n - 1, n))
    }
}

/// The words of a text.
pub open spec fn words(s: Seq<char>) -> Seq<LineRange> {
    words_upto(s, s.len() as int)
}

proof fn lemma_words_upto_within(s: Seq<char>, n: int)
    requires
        0 <= n <= s.len(),
        s.len() <= usize::MAX,
    ensures
        forall|i: int|
            0 <= i < words_upto(s, n).len() ==> (#[trigger] words_upto(s, n)[i]).start < words_upto(
                s,
                n,
            )[i].end <= n,
        n > 0 && !ascii_white_space(s[n - 1]) ==> words_upto(s, n).len() > 0,
    decreases n,
{
    if n > 0 {
        lemma_words_upto_within(s, n - 1);
        let before = words_upto(s, n - 1);
        let here = words_upto(s, n);
        assert forall|i: int| 0 <= i < here.len() implies (#[trigger] here[i]).start < here[i].end
            <= n by {
            if i < before.len() {
                assert(before[i].start < before[i].end <= n - 1);
            }
        }
    }
}

/// The words of a text.
pub fn word_ranges(chars: &Vec<char>) -> (r: Vec<LineRange>)
    ensures
        r@ == words(chars@),
        forall|i: int|
            0 <= i < r@.len() ==> (#[trigger] r@[i]).within(chars@) && r@[i].start < r@[i].end,
{
    let mut r: Vec<LineRange> = Vec::new();
    let mut i: usize = 0;
    while i < chars.len()
        invariant
            i <= chars@.len(),
            r@ == words_upto(chars@, i as int),
        decreases chars@.len() - i,
    {
        proof {
            lemma_words_upto_within(chars@, i as int);
        }
        if !is_ascii_white_space(chars[i]) {
            if i > 0 && !is_ascii_white_space(chars[i - 1]) {
                let last: LineRange = r[r.len() - 1];
                let n: usize = r.len() - 1;
                r.set(n, LineRange { start: last.start, end: i + 1 });
                assert(r@ =~= words_upto(chars@, i + 1));
            } else {
                r.push(LineRange { start: i, end: i + 1 });
            }
        }
        i = i + 1;
    }
    proof {
        lemma_words_upto_within(chars@, chars@.len() as int);
    }
    r
}

/// The texts of a list of strings.
pub open spec fn texts(v: Seq<String>) -> Seq<Seq<char>> {
    Seq::new(v.len(), |i: int| v[i]@)
}

/// The text of an optional string.
pub open spec fn optional(s: Option<String>) -> Option<Seq<char>> {
    match s {
        Some(value) => Some(value@),
        None => None,
    }
}

/// The text of an optional string slice.
pub open spec fn optional_str(s: Option<&str>) -> Option<Seq<char>> {
    match s {
        Some(value) => Some(value@),
        None => None,
    }
}

pub fn copy_optional(s: &Option<String>) -> (r: Option<String>)
    ensures
        optional(r) == optional(*s),
{
    match s {
        Some(value) => Some(value.clone()),
        None => None,
    }
}

/// Whether every character is an ASCII digit.
pub open spec fn all_digits(s: Seq<char>) -> bool {
    forall|i: int| 0 <= i < s.len() ==> ascii_digit(#[trigger] s[i])
}

/// Whether a slice holds ASCII digits only.
pub fn is_all_digits(chars: &Vec<char>, start: usize, end: usize) -> (r: bool)
    requires
        start <= end <= chars@.len(),
    ensures
        r == all_digits(chars@.subrange(start as int, end as int)),
{
    let ghost slice = chars@.subrange(start as int, end as int);
    let mut i: usize = start;
    while i < end
        invariant
            start <= i <= end <= chars@.len(),
            slice == chars@.subrange(start as int, end as int),
            forall|k: int| start <= k < i ==> ascii_digit(#[trigger] chars@[k]),
        decreases end - i,
    {
        if !is_ascii_digit(chars[i]) {
            assert(!ascii_digit(slice[i - start]));
            return false;
        }
        i = i + 1;
    }
    assert forall|k: int| 0 <= k < slice.len() implies ascii_digit(#[trigger] slice[k]) by {
        assert(slice[k] == chars@[start + k]);
    }
    true
}

/// The number a run of digits stands for.
pub open spec fn decimal(s: Seq<char>) -> nat
    decreases s.len(),
{
    if s.len() == 0 {
        0
    } else {
        10 * decimal(s.drop_last()) + (s.last() as u32 - 0x30) as nat
    }
}

pub proof fn lemma_decimal_prefix(s: Seq<char>, i: int)
    requires
        0 <= i < s.len(),
        all_digits(s),
    ensures
        decimal(s.take(i + 1)) == 10 * decimal(s.take(i)) + (s[i] as u32 - 0x30),
        decimal(s.take(i)) <= decimal(s.take(i + 1)),
{
    assert(s.take(i + 1).drop_last() =~= s.take(i));
    assert(s.take(i + 1).last() == s[i]);
    assert(ascii_digit(s[i]));
}

pub proof fn lemma_decimal_grows(s: Seq<char>, i: int)
    requires
        0 <= i <= s.len(),
        all_digits(s),
    ensures
        decimal(s.take(i)) <= decimal(s),
    decreases s.len() - i,
{
    if i < s.len() {
        lemma_decimal_prefix(s, i);
        lemma_decimal_grows(s, i + 1);
    } else {
        assert(s.take(i) =~= s);
    }
}

/// The number that a run of digits stands for, where a machine word holds it.
pub fn parse_number(chars: &Vec<char>, start: usize, end: usize) -> (r: Option<usize>)
    requires
        start <= end <= chars@.len(),
        all_digits(chars@.subrange(start as int, end as int)),
    ensures
        r is Some == (decimal(chars@.subrange(start as int, end as int)) <= usize::MAX),
        r matches Some(n) ==> n == decimal(chars@.subrange(start as int, end as int)),
{
    let ghost part = chars@.subrange(start as int, end as int);
    let mut value: usize = 0;
    let mut i: usize = start;
    assert(part.take(0) =~= Seq::<char>::empty());
    while i < end
        invariant
            start <= i <= end <= chars@.len(),
            part == chars@.subrange(start as int, end as int),
            all_digits(part),
            value == decimal(part.take(i - start)),
        decreases end - i,
    {
        proof {
            lemma_decimal_prefix(part, i - start);
            lemma_decimal_grows(part, i - start + 1);
            assert(ascii_digit(part[i - start]));
        }
        let digit: usize = (chars[i] as u32 - 0x30) as usize;
        match value.checked_mul(10) {
            None => {
                return None;
            },
            Some(tens) => {
                match tens.checked_add(digit) {
                    None => {
                        return None;
                    },
                    Some(next) => {
                        value = next;
                    },
                }
            },
        }
        i = i + 1;
    }
    assert(part.take(end - start) =~= part);
    Some(value)
}

/// A number in decimal digits, without leading zeros.
pub open spec fn decimal_text(n: nat) -> Seq<char>
    decreases n,
{
    let digit = (0x30 + n % 10) as char;
    if n < 10 {
        seq![digit]
    } else {
        decimal_text(n / 10).push(digit)
    }
}

fn digit_char(d: u8) -> (r: char)
    requires
        d < 10,
    ensures
        r == (0x30 + d) as char,
{
    (0x30 + d) as char
}

/// A number in decimal digits.
pub fn number_text(n: u64) -> (r: String)
    ensures
        r@ == decimal_text(n as nat),
    decreases n,
{
    let digit: char = digit_char((n % 10) as u8);
    if n < 10 {
        let mut r = String::new();
        r.push(digit);
        assert(r@ =~= seq![digit]);
        r
    } else {
        let mut r: String = number_text(n / 10);
        r.push(digit);
        r
    }
}

/// A number written in digits reads as that number.
pub proof fn lemma_decimal_text_reads_back(n: nat)
    ensures
        all_digits(decimal_text(n)),
        decimal_text(n).len() > 0,
        decimal(decimal_text(n)) == n,
    decreases n,
{
    let digit = (0x30 + n % 10) as char;
    assert(digit as u32 == 0x30 + n % 10);
    if n < 10 {
        assert(seq![digit].drop_last() =~= Seq::<char>::empty());
        assert(decimal(Seq::<char>::empty()) == 0);
    } else {
        lemma_decimal_text_reads_back(n / 10);
        assert(decimal_text(n).drop_last() =~= decimal_text(n / 10));
    }
}

/// Whether two texts hold the same characters.
pub fn same_text(a: &str, b: &str) -> (r: bool)
    ensures
        r == (a@ == b@),
{
    let left: Vec<char> = chars_of(a);
    let right: Vec<char> = chars_of(b);
    if left.len() != right.len() {
        return false;
    }
    let mut i: usize = 0;
    while i < left.len()
        invariant
            left@ == a@,
            right@ == b@,
            left@.len() == right@.len(),
            i <= left@.len(),
            forall|k: int| 0 <= k < i ==> left@[k] == right@[k],
        decreases left@.len() - i,
    {
        if left[i] != right[i] {
            return false;
        }
        i = i + 1;
    }
    assert(a@ =~= b@);
    true
}

/// A text with a number behind it.
pub fn numbered_text(prefix: &str, number: u64) -> (r: String)
    ensures
        r@ == prefix@ + decimal_text(number as nat),
{
    let mut r: String = prefix.to_owned();
    let digits: String = number_text(number);
    r.append(digits.as_str());
    assert(r@ =~= prefix@ + decimal_text(number as nat));
    r
}

/// Whether a text holds nothing but white space.
pub fn is_blank(s: &str) -> (r: bool)
    ensures
        r == blank(s@),
{
    let chars: Vec<char> = chars_of(s);
    let n: usize = chars.len();
    let (start, end) = trim_between(&chars, 0, n);
    assert(chars@.subrange(0, n as int) =~= s@);
    start == end
}

/// White space around a text is all that trimming takes away.
pub proof fn lemma_trim_takes_the_padding(a: Seq<char>, x: Seq<char>, b: Seq<char>)
    requires
        blank(a),
        blank(b),
        x.len() > 0,
        !white_space(x[0]),
        !white_space(x.last()),
    ensures
        trim(a + x + b) == x,
{
    let s = a + x + b;
    let (from, to) = lemma_trim_cuts_white_space_only(s);
    let p = a.len() as int;
    let q = p + x.len();
    assert(s[p] == x[0]);
    assert(s[q - 1] == x.last());
    if from > p {
        assert(s.take(from)[p] == s[p]);
    }
    if to < q {
        assert(s.skip(to)[q - 1 - to] == s[q - 1]);
    }
    let cut = trim(s);
    assert(cut.len() > 0);
    if from < p {
        assert(cut[0] == s[from]);
        assert(s[from] == a[from]);
    }
    if to > q {
        assert(cut.last() == s[to - 1]);
        assert(s[to - 1] == b[to - 1 - q]);
    }
    assert(cut =~= x);
}

/// Whether a word of a text is a stretch without white space that cannot be made longer.
pub open spec fn longest_stretch(s: Seq<char>, word: LineRange, n: int) -> bool {
    &&& word.start < word.end <= n
    &&& forall|k: int| word.start <= k < word.end ==> !ascii_white_space(#[trigger] s[k])
    &&& word.start > 0 ==> ascii_white_space(s[word.start - 1])
    &&& word.end < n ==> ascii_white_space(s[word.end as int])
}

proof fn lemma_words_upto_are_stretches(s: Seq<char>, n: int)
    requires
        0 <= n <= s.len(),
        s.len() <= usize::MAX,
    ensures
        forall|i: int|
            0 <= i < words_upto(s, n).len() ==> longest_stretch(
                s,
                #[trigger] words_upto(s, n)[i],
                n,
            ),
        forall|i: int, j: int|
            0 <= i < j < words_upto(s, n).len() ==> (#[trigger] words_upto(s, n)[i]).end < (
            #[trigger] words_upto(s, n)[j]).start,
        n > 0 && !ascii_white_space(s[n - 1]) ==> words_upto(s, n).len() > 0 && words_upto(
            s,
            n,
        ).last().end == n,
        forall|k: int|
            0 <= k < n && !ascii_white_space(#[trigger] s[k]) ==> in_some_word(
                words_upto(s, n),
                k,
            ),
    decreases n,
{
    if n > 0 {
        lemma_words_upto_are_stretches(s, n - 1);
        let before = words_upto(s, n - 1);
        let here = words_upto(s, n);
        let m = before.len() as int;
        let white = ascii_white_space(s[n - 1]);
        let joins = !white && n >= 2 && !ascii_white_space(s[n - 2]);
        assert forall|i: int| 0 <= i < here.len() implies longest_stretch(
            s,
            #[trigger] here[i],
            n,
        ) by {
            if i < m - 1 || (i < m && !joins) {
                assert(here[i] == before[i]);
                assert(longest_stretch(s, before[i], n - 1));
                if !white && !joins && before[i].end == n - 1 {
                    assert(ascii_white_space(s[n - 2]));
                    assert(before[i].start <= n - 2 < before[i].end);
                }
                if joins {
                    assert(before[i].end < before[m - 1].start);
                }
            } else if joins {
                assert(longest_stretch(s, before[m - 1], n - 1));
            }
        }
        assert forall|i: int, j: int| 0 <= i < j < here.len() implies (#[trigger] here[i]).end < (
        #[trigger] here[j]).start by {
            assert(here[i] == before[i]);
            assert(longest_stretch(s, before[i], n - 1));
            if j < m - 1 || (j < m && !joins) {
                assert(here[j] == before[j]);
            } else if joins {
                assert(before[i].end < before[m - 1].start);
            } else if before[i].end == n - 1 {
                assert(before[i].start <= n - 2 < before[i].end);
            }
        }
        assert forall|k: int| 0 <= k < n && !ascii_white_space(
            #[trigger] s[k],
        ) implies in_some_word(here, k) by {
            if k < n - 1 {
                assert(in_some_word(before, k));
                let i = choose|i: int|
                    0 <= i < before.len() && (#[trigger] before[i]).start <= k < before[i].end;
                if i == m - 1 && joins {
                    assert(here[m - 1].start <= k < here[m - 1].end);
                } else {
                    assert(here[i] == before[i]);
                }
            } else {
                assert(here[here.len() - 1].start <= k < here[here.len() - 1].end);
            }
        }
    }
}

/// Whether a character lies in one of the words.
pub open spec fn in_some_word(words: Seq<LineRange>, k: int) -> bool {
    exists|i: int| 0 <= i < words.len() && (#[trigger] words[i]).start <= k < words[i].end
}

/// The words of a text are its longest stretches without white space, in their order:
/// every character that is no white space lies in one of them.
pub proof fn lemma_words_are_the_longest_stretches(s: Seq<char>)
    requires
        s.len() <= usize::MAX,
    ensures
        forall|i: int|
            0 <= i < words(s).len() ==> longest_stretch(s, #[trigger] words(s)[i], s.len() as int),
        forall|i: int, j: int|
            0 <= i < j < words(s).len() ==> (#[trigger] words(s)[i]).end < (
            #[trigger] words(s)[j]).start,
        forall|k: int|
            0 <= k < s.len() && !ascii_white_space(#[trigger] s[k]) ==> in_some_word(words(s), k),
{
    lemma_words_upto_are_stretches(s, s.len() as int);
}

/// What counts as white space, and what as a control character: the white space of ASCII
/// and of Unicode, and the two ranges of control codes.
pub proof fn lemma_kinds_of_characters(c: char)
    ensures
        ascii_white_space(c) <==> c == ' ' || c == '\t' || c == '\n' || c == '\r' || c == '\x0c',
        (c as u32) < 0x80 ==> (white_space(c) <==> ascii_white_space(c) || c == '\x0b'),
        0x2000 <= (c as u32) <= 0x200a ==> white_space(c),
        c == '\u{a0}' || c == '\u{85}' || c == '\u{1680}' || c == '\u{2028}' || c == '\u{2029}' || c
            == '\u{202f}' || c == '\u{205f}' || c == '\u{3000}' ==> white_space(c),
        white_space(c) && (c as u32) > 0xa0 ==> (c as u32) == 0x1680 || 0x2000 <= (c as u32)
            <= 0x3000,
        ascii_digit(c) <==> '0' <= c <= '9',
        ascii_alphanumeric(c) <==> '0' <= c <= '9' || 'a' <= c <= 'z' || 'A' <= c <= 'Z',
        control(c) <==> c < ' ' || '\x7f' <= c < '\u{a0}',
{
}


proof fn lemma_word_grows(s: Seq<char>, from: int, n: int)
    requires
        0 <= from < n <= s.len(),
        from == 0 || ascii_white_space(s[from - 1]),
        forall|k: int| from <= k < n ==> !ascii_white_space(#[trigger] s[k]),
        s.len() <= usize::MAX,
    ensures
        words_upto(s, n) == words_upto(s, from).push(range(from, n)),
    decreases n,
{
    assert(!ascii_white_space(s[n - 1]));
    if n - 1 > from {
        lemma_word_grows(s, from, n - 1);
        assert(!ascii_white_space(s[n - 2]));
        assert(words_upto(s, n - 1).drop_last() =~= words_upto(s, from));
    }
}

proof fn lemma_words_of_prefix(a: Seq<char>, b: Seq<char>, n: int)
    requires
        0 <= n <= a.len(),
        n <= b.len(),
        forall|k: int| 0 <= k < n ==> #[trigger] a[k] == b[k],
    ensures
        words_upto(a, n) == words_upto(b, n),
    decreases n,
{
    if n > 0 {
        lemma_words_of_prefix(a, b, n - 1);
        assert(a[n - 1] == b[n - 1]);
        if n > 1 {
            assert(a[n - 2] == b[n - 2]);
        }
    }
}

/// A text without white space is one word. One more behind a white space is one more word,
/// and the words before it stay as they are.
pub proof fn lemma_one_more_word(s: Seq<char>, space: char, added: Seq<char>)
    requires
        added.len() > 0,
        forall|k: int| 0 <= k < added.len() ==> !ascii_white_space(#[trigger] added[k]),
        ascii_white_space(space),
        s.len() + 1 + added.len() <= usize::MAX,
    ensures
        words(added) == seq![range(0, added.len() as int)],
        words(s.push(space) + added) == words(s).push(
            range(s.len() as int + 1, s.len() as int + 1 + added.len()),
        ),
{
    let n = s.len() as int;
    let all = s.push(space) + added;
    lemma_word_grows(added, 0, added.len() as int);
    assert(words_upto(added, 0).push(range(0, added.len() as int)) =~= seq![
        range(0, added.len() as int),
    ]);
    lemma_words_of_prefix(s, all, n);
    assert(all[n] == space);
    assert forall|k: int| n + 1 <= k < all.len() implies !ascii_white_space(#[trigger] all[k]) by {
        assert(all[k] == added[k - n - 1]);
    }
    assert(words_upto(all, n + 1) == words_upto(all, n));
    lemma_word_grows(all, n + 1, all.len() as int);
}

}
