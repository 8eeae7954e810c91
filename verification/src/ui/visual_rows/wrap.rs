//! Where text breaks into rows.
//!
//! A row ends at a line feed, before a word that would not fit but fits a row
//! of its own, and inside a word that fits none. Everything that is drawn and
//! every cursor that is placed goes by the breaks defined here.

use crate::text;
use crate::width;
use vstd::prelude::*;

verus! {

// ---------------------------------------------------------------------------
// Breaks
// ---------------------------------------------------------------------------

/// The columns that the characters between two indices take.
pub open spec fn span_width(s: Seq<char>, i: int, j: int) -> nat
    decreases j - i,
{
    if j <= i {
        0
    } else {
        span_width(s, i, j - 1) + width::cell_width(s[j - 1])
    }
}

/// The columns that a text takes.
pub open spec fn text_width(s: Seq<char>) -> nat {
    span_width(s, 0, s.len() as int)
}

/// Where the word that starts at `i` and reaches `j` ends.
pub open spec fn word_reach(s: Seq<char>, i: int, j: int) -> int
    decreases s.len() - j,
{
    if j < s.len() && s[j] != '\n' && text::white_space(s[j]) == text::white_space(s[i]) {
        word_reach(s, i, j + 1)
    } else {
        j
    }
}

/// Where the word that starts at `i` ends. White space and everything else are
/// words of their own, and no word reaches over a line feed.
pub open spec fn word_end(s: Seq<char>, i: int) -> int {
    word_reach(s, i, i + 1)
}

/// Whether a word starts at `i`.
pub open spec fn starts_word(s: Seq<char>, i: int) -> bool {
    i == 0 || s[i - 1] == '\n' || text::white_space(s[i - 1]) != text::white_space(s[i])
}

/// Whether the character at `i` goes to a new row, where the row so far takes
/// `used` columns: its word would not fit here but fits a row of its own, or
/// the character itself does not fit any more.
pub open spec fn breaks_before(s: Seq<char>, width: nat, i: int, used: nat) -> bool {
    let word = span_width(s, i, word_end(s, i));
    let cell = width::cell_width(s[i]);
    ||| starts_word(s, i) && used > 0 && word <= width && used + word > width
    ||| used > 0 && cell > 0 && used + cell > width
}

/// The columns that the last row takes after the first `n` characters.
pub open spec fn used_after(s: Seq<char>, width: nat, n: int) -> nat
    decreases n,
{
    if n <= 0 || s[n - 1] == '\n' {
        0
    } else {
        let used = used_after(s, width, n - 1);
        let cell = width::cell_width(s[n - 1]);
        if breaks_before(s, width, n - 1, used) {
            cell
        } else {
            used + cell
        }
    }
}

/// Whether a row ends between the characters before and at `n`, where the
/// character at `n` is no line feed.
pub open spec fn breaks_at(s: Seq<char>, width: nat, n: int) -> bool {
    breaks_before(s, width, n, used_after(s, width, n))
}

/// The rows of the first `n` characters.
pub open spec fn rows_upto(s: Seq<char>, width: nat, n: int) -> Seq<Seq<char>>
    decreases n,
{
    if n <= 0 {
        seq![Seq::empty()]
    } else {
        let before = rows_upto(s, width, n - 1);
        if s[n - 1] == '\n' {
            before.push(Seq::empty())
        } else if breaks_at(s, width, n - 1) {
            before.push(seq![s[n - 1]])
        } else {
            before.drop_last().push(before.last().push(s[n - 1]))
        }
    }
}

/// The index of the first character of each row of the first `n` characters.
pub open spec fn starts_upto(s: Seq<char>, width: nat, n: int) -> Seq<int>
    decreases n,
{
    if n <= 0 {
        seq![0]
    } else {
        let before = starts_upto(s, width, n - 1);
        if s[n - 1] == '\n' {
            before.push(n)
        } else if breaks_at(s, width, n - 1) {
            before.push(n - 1)
        } else {
            before
        }
    }
}

/// A width of no columns is taken as one.
pub open spec fn at_least_one(width: nat) -> nat {
    if width == 0 {
        1
    } else {
        width
    }
}

/// The rows of a text.
pub open spec fn wrapped_rows(s: Seq<char>, width: nat) -> Seq<Seq<char>> {
    rows_upto(s, at_least_one(width), s.len() as int)
}

/// The index of the first character of each row.
pub open spec fn wrapped_starts(s: Seq<char>, width: nat) -> Seq<int> {
    starts_upto(s, at_least_one(width), s.len() as int)
}

/// The columns of the word that starts at an index.
fn word_columns(chars: &Vec<char>, start: usize) -> (r: usize)
    requires
        start < chars@.len(),
        text::byte_len(chars@) <= usize::MAX,
    ensures
        r == span_width(chars@, start as int, word_end(chars@, start as int)),
        r + text::byte_at(chars@, start as int) <= text::byte_len(chars@),
{
    let ghost s = chars@;
    let opens_white: bool = text::is_white_space(chars[start]);
    let mut total: usize = width::width_of(chars[start]);
    let count: usize = chars.len();
    assert(start < count);
    let mut end: usize = start + 1;
    proof {
        text::lemma_byte_at_step(s, start as int);
        assert(span_width(s, start as int, start as int) == 0);
        text::lemma_byte_at_monotone(s, start + 1, s.len() as int);
    }
    while end < chars.len() && chars[end] != '\n' && text::is_white_space(chars[end]) == opens_white
        invariant
            s == chars@,
            start < end <= s.len(),
            opens_white == text::white_space(s[start as int]),
            text::byte_len(s) <= usize::MAX,
            total == span_width(s, start as int, end as int),
            total + text::byte_at(s, start as int) <= text::byte_at(s, end as int),
            text::byte_at(s, end as int) <= text::byte_len(s),
            word_reach(s, start as int, end as int) == word_end(s, start as int),
        decreases s.len() - end,
    {
        proof {
            text::lemma_byte_at_step(s, end as int);
            text::lemma_byte_at_monotone(s, end + 1, s.len() as int);
        }
        total = total + width::width_of(chars[end]);
        end = end + 1;
    }
    total
}

/// Whether the character at an index goes to a new row.
pub fn breaks_row(chars: &Vec<char>, i: usize, width: usize, used: usize) -> (r: bool)
    requires
        i < chars@.len(),
        text::byte_len(chars@) <= usize::MAX,
        used <= text::byte_at(chars@, i as int),
    ensures
        r == breaks_before(chars@, width as nat, i as int, used as nat),
{
    if used == 0 {
        return false;
    }
    proof {
        text::lemma_byte_at_step(chars@, i as int);
        text::lemma_byte_at_monotone(chars@, i + 1, chars@.len() as int);
    }
    let cell: usize = width::width_of(chars[i]);
    if cell > 0 && used + cell > width {
        return true;
    }
    let opens: bool = i == 0 || chars[i - 1] == '\n' || text::is_white_space(chars[i - 1])
        != text::is_white_space(chars[i]);
    if !opens {
        return false;
    }
    let word: usize = word_columns(chars, i);
    word <= width && used + word > width
}

// ---------------------------------------------------------------------------
// Plain text
// ---------------------------------------------------------------------------

/// Plain text wrapped the way it is drawn, with the source offsets to match.
///
/// The height of a box, the rows in it and the place of the cursor all come from
/// here, so they cannot drift apart.
#[derive(Clone, Debug, PartialEq, Eq)]
pub struct WrappedText {
    pub rows: Vec<String>,
    pub row_starts: Vec<usize>,
}

impl Default for WrappedText {
    fn default() -> (r: Self)
        ensures
            r.wf(),
            r.row_texts() == Seq::<Seq<char>>::empty(),
            r.starts() == Seq::<usize>::empty(),
    {
        let r = WrappedText { rows: Vec::new(), row_starts: Vec::new() };
        assert(r.row_texts() =~= Seq::<Seq<char>>::empty());
        r
    }
}

impl WrappedText {
    /// The texts of the rows.
    pub open spec fn row_texts(&self) -> Seq<Seq<char>> {
        text::texts(self.rows@)
    }

    /// The byte at which each row starts.
    pub open spec fn starts(&self) -> Seq<usize> {
        self.row_starts@
    }

    /// Each row starts behind the one before it.
    pub open spec fn wf(&self) -> bool {
        forall|i: int, j: int|
            0 <= i < j < self.starts().len() ==> (#[trigger] self.starts()[i]) < (
            #[trigger] self.starts()[j])
    }
}

/// The last row that starts at or before a byte; the first where there is none.
pub open spec fn row_of(starts: Seq<usize>, byte: int, n: int) -> int
    decreases n,
{
    if n <= 1 || starts[n - 1] <= byte {
        if n <= 0 { 0 } else { n - 1 }
    } else {
        row_of(starts, byte, n - 1)
    }
}

/// How many of the first `n` characters of a text start before a byte.
pub open spec fn chars_before(s: Seq<char>, byte: int, n: int) -> int
    decreases n,
{
    if n <= 0 {
        0
    } else if text::byte_at(s, n - 1) < byte {
        n
    } else {
        chars_before(s, byte, n - 1)
    }
}

/// Where a row starts, the beginning of the text where there is no such row.
pub open spec fn start_of(starts: Seq<usize>, row: int) -> int {
    if 0 <= row < starts.len() {
        starts[row] as int
    } else {
        0
    }
}

/// The column of a byte in a row.
pub open spec fn column_of(rows: Seq<Seq<char>>, starts: Seq<usize>, row: int, byte: int) -> nat {
    if 0 <= row < rows.len() {
        let s = rows[row];
        span_width(s, 0, chars_before(s, byte - start_of(starts, row), s.len() as int))
    } else {
        0
    }
}

impl WrappedText {
    /// Row and display column of a byte offset in the source.
    pub fn cell_of(&self, byte: usize) -> (r: (usize, usize))
        requires
            self.wf(),
        ensures
            r.0 == row_of(self.starts(), byte as int, self.starts().len() as int),
            r.1 == column_of(self.row_texts(), self.starts(), r.0 as int, byte as int),
    {
        let mut n: usize = self.row_starts.len();
        while n > 1 && self.row_starts[n - 1] > byte
            invariant
                n <= self.row_starts@.len(),
                row_of(self.starts(), byte as int, n as int) == row_of(
                    self.starts(),
                    byte as int,
                    self.starts().len() as int,
                ),
            decreases n,
        {
            n = n - 1;
        }
        let row: usize = if n == 0 {
            0
        } else {
            n - 1
        };
        let start: usize = self.row_start(row);
        if row >= self.rows.len() {
            return (row, 0);
        }
        assert(self.row_texts()[row as int] == self.rows@[row as int]@);
        if start > byte {
            proof {
                let s = self.rows@[row as int]@;
                lemma_nothing_before(s, byte - start, s.len() as int);
            }
            return (row, 0);
        }
        let chars: Vec<char> = text::chars_of(self.rows[row].as_str());
        let offsets: Vec<usize> = text::byte_offsets(self.rows[row].as_str(), &chars);
        (row, columns_before(&chars, &offsets, byte - start))
    }

    /// Where a row begins in the text it was wrapped from.
    pub fn row_start(&self, row: usize) -> (r: usize)
        ensures
            r == start_of(self.starts(), row as int),
    {
        if row < self.row_starts.len() {
            self.row_starts[row]
        } else {
            0
        }
    }

    /// How many rows the text takes on the screen, one at least.
    pub fn height(&self) -> (r: usize)
        ensures
            r == at_least_one(self.row_texts().len()),
    {
        if self.rows.len() == 0 {
            1
        } else {
            self.rows.len()
        }
    }
}

proof fn lemma_nothing_before(s: Seq<char>, byte: int, n: int)
    requires
        byte <= 0,
    ensures
        chars_before(s, byte, n) == 0,
    decreases n,
{
    if n > 0 {
        lemma_nothing_before(s, byte, n - 1);
    }
}

proof fn lemma_chars_before(s: Seq<char>, byte: int, i: int, n: int)
    requires
        0 <= i <= n <= s.len(),
        i == n || text::byte_at(s, i) >= byte,
        forall|k: int| 0 <= k < i ==> #[trigger] text::byte_at(s, k) < byte,
    ensures
        chars_before(s, byte, n) == i,
    decreases n,
{
    if n > i {
        text::lemma_byte_at_monotone(s, i, n - 1);
        lemma_chars_before(s, byte, i, n - 1);
    } else if n > 0 {
        assert(text::byte_at(s, n - 1) < byte);
    }
}

/// The columns of the characters that start before a byte.
fn columns_before(chars: &Vec<char>, offsets: &Vec<usize>, byte: usize) -> (r: usize)
    requires
        offsets@.len() == chars@.len() + 1,
        forall|i: int| 0 <= i <= chars@.len() ==> #[trigger] offsets@[i] == text::byte_at(chars@, i),
    ensures
        r == span_width(chars@, 0, chars_before(chars@, byte as int, chars@.len() as int)),
{
    let ghost s = chars@;
    let mut i: usize = 0;
    let mut column: usize = 0;
    while i < chars.len() && offsets[i] < byte
        invariant
            s == chars@,
            i <= s.len(),
            offsets@.len() == s.len() + 1,
            forall|k: int| 0 <= k <= s.len() ==> #[trigger] offsets@[k] == text::byte_at(s, k),
            forall|k: int| 0 <= k < i ==> #[trigger] text::byte_at(s, k) < byte,
            column == span_width(s, 0, i as int),
            column <= text::byte_at(s, i as int),
        decreases s.len() - i,
    {
        proof {
            text::lemma_byte_at_step(s, i as int);
            assert(offsets@[i + 1] == text::byte_at(s, i + 1));
        }
        column = column + width::width_of(chars[i]);
        i = i + 1;
    }
    proof {
        lemma_chars_before(s, byte as int, i as int, s.len() as int);
    }
    column
}

/// The bytes at which characters start.
pub open spec fn bytes_at(s: Seq<char>, starts: Seq<int>) -> Seq<usize> {
    Seq::new(starts.len(), |i: int| text::byte_at(s, starts[i]) as usize)
}

proof fn lemma_starts_upto(s: Seq<char>, width: nat, n: int)
    requires
        0 <= n <= s.len(),
    ensures
        starts_upto(s, width, n).len() > 0,
        starts_upto(s, width, n)[0] == 0,
        starts_upto(s, width, n).len() == rows_upto(s, width, n).len(),
        forall|i: int|
            0 <= i < starts_upto(s, width, n).len() ==> 0 <= #[trigger] starts_upto(s, width, n)[i]
                <= n,
        forall|i: int, j: int|
            0 <= i < j < starts_upto(s, width, n).len() ==> (#[trigger] starts_upto(s, width, n)[i])
                < (#[trigger] starts_upto(s, width, n)[j]),
        used_after(s, width, n) > 0 ==> starts_upto(s, width, n).last() < n,
    decreases n,
{
    if n > 0 {
        lemma_starts_upto(s, width, n - 1);
        let before = starts_upto(s, width, n - 1);
        let here = starts_upto(s, width, n);
        assert forall|i: int| 0 <= i < here.len() implies 0 <= #[trigger] here[i] <= n by {
            if i < before.len() {
                assert(here[i] == before[i]);
            }
        }
        assert forall|i: int, j: int| 0 <= i < j < here.len() implies (#[trigger] here[i]) < (
        #[trigger] here[j]) by {
            assert(here[i] == before[i]);
            if j < before.len() {
                assert(here[j] == before[j]);
            } else {
                assert(before[i] <= before.last());
            }
        }
    }
}

/// Every row starts inside the text.
pub proof fn lemma_rows_start_inside(s: Seq<char>, width: nat)
    requires
        text::byte_len(s) <= usize::MAX,
    ensures
        wrapped_starts(s, width).len() > 0,
        forall|i: int|
            0 <= i < wrapped_starts(s, width).len() ==> (#[trigger] bytes_at(
                s,
                wrapped_starts(s, width),
            )[i]) <= text::byte_len(s),
{
    let starts = wrapped_starts(s, width);
    lemma_starts_upto(s, at_least_one(width), s.len() as int);
    assert forall|i: int| 0 <= i < starts.len() implies (#[trigger] bytes_at(s, starts)[i])
        <= text::byte_len(s) by {
        text::lemma_byte_at_monotone(s, starts[i], s.len() as int);
    }
}

/// Wraps plain text into rows of at most `width` columns.
pub fn wrap_plain(source: &str, width: usize) -> (r: WrappedText)
    ensures
        r.wf(),
        r.row_texts() == wrapped_rows(source@, width as nat),
        r.starts() == bytes_at(source@, wrapped_starts(source@, width as nat)),
{
    let width: usize = if width == 0 {
        1
    } else {
        width
    };
    let chars: Vec<char> = text::chars_of(source);
    let offsets: Vec<usize> = text::byte_offsets(source, &chars);
    let ghost s = source@;
    proof {
        assert(offsets@[s.len() as int] == text::byte_at(s, s.len() as int));
        text::lemma_byte_at_ends(s);
        assert(bytes_at(s, seq![0]) =~= seq![0usize]);
    }
    let mut rows: Vec<String> = Vec::new();
    let mut row_starts: Vec<usize> = Vec::new();
    row_starts.push(0);
    let mut row = String::new();
    let mut used: usize = 0;
    let mut i: usize = 0;
    assert(text::texts(rows@).push(row@) =~= rows_upto(s, width as nat, 0));
    assert(row_starts@ =~= bytes_at(s, starts_upto(s, width as nat, 0)));
    while i < chars.len()
        invariant
            s == source@,
            chars@ == s,
            text::byte_len(s) <= usize::MAX,
            offsets@.len() == s.len() + 1,
            forall|k: int| 0 <= k <= s.len() ==> #[trigger] offsets@[k] == text::byte_at(s, k),
            width > 0,
            i <= s.len(),
            used == used_after(s, width as nat, i as int),
            used <= text::byte_at(s, i as int),
            text::texts(rows@).push(row@) == rows_upto(s, width as nat, i as int),
            row_starts@ == bytes_at(s, starts_upto(s, width as nat, i as int)),
        decreases s.len() - i,
    {
        let ghost done = text::texts(rows@);
        let ghost open = row@;
        let ghost begun = starts_upto(s, width as nat, i as int);
        proof {
            text::lemma_byte_at_step(s, i as int);
        }
        let c: char = chars[i];
        if c == '\n' {
            rows.push(row);
            assert(text::texts(rows@) =~= done.push(open));
            row = String::new();
            row_starts.push(offsets[i + 1]);
            assert(row_starts@ =~= bytes_at(s, begun.push(i + 1)));
            used = 0;
        } else {
            if breaks_row(&chars, i, width, used) {
                rows.push(row);
                assert(text::texts(rows@) =~= done.push(open));
                row = String::new();
                row_starts.push(offsets[i]);
                assert(row_starts@ =~= bytes_at(s, begun.push(i as int)));
                used = 0;
            }
            assert(offsets@[i + 1] == text::byte_at(s, i + 1));
            row.push(c);
            used = used + width::width_of(c);
        }
        i = i + 1;
        assert(text::texts(rows@).push(row@) =~= rows_upto(s, width as nat, i as int));
    }
    let ghost done = text::texts(rows@);
    let ghost open = row@;
    rows.push(row);
    assert(text::texts(rows@) =~= done.push(open));
    proof {
        let starts = starts_upto(s, width as nat, s.len() as int);
        lemma_starts_upto(s, width as nat, s.len() as int);
        assert forall|a: int, b: int| 0 <= a < b < row_starts@.len() implies (
        #[trigger] row_starts@[a]) < (#[trigger] row_starts@[b]) by {
            assert(starts[a] < starts[b]);
            text::lemma_byte_at_monotone(s, starts[a], starts[b]);
        }
    }
    WrappedText { rows, row_starts }
}

// ---------------------------------------------------------------------------
// What holds of every wrapped text
// ---------------------------------------------------------------------------

/// The rows one after the other.
pub open spec fn joined_rows(rows: Seq<Seq<char>>) -> Seq<char>
    decreases rows.len(),
{
    if rows.len() == 0 {
        Seq::empty()
    } else {
        joined_rows(rows.drop_last()) + rows.last()
    }
}

/// The first `n` characters without the line feeds among them.
pub open spec fn without_feeds(s: Seq<char>, n: int) -> Seq<char>
    decreases n,
{
    if n <= 0 {
        Seq::empty()
    } else if s[n - 1] == '\n' {
        without_feeds(s, n - 1)
    } else {
        without_feeds(s, n - 1).push(s[n - 1])
    }
}

proof fn lemma_rows_keep_every_character(s: Seq<char>, width: nat, n: int)
    requires
        0 <= n <= s.len(),
    ensures
        rows_upto(s, width, n).len() > 0,
        joined_rows(rows_upto(s, width, n)) == without_feeds(s, n),
    decreases n,
{
    let here = rows_upto(s, width, n);
    if n == 0 {
        assert(here.drop_last() =~= Seq::<Seq<char>>::empty());
        assert(joined_rows(here.drop_last()) =~= Seq::<char>::empty());
        assert(here.last() =~= Seq::<char>::empty());
        assert(joined_rows(here) =~= Seq::<char>::empty());
    } else {
        lemma_rows_keep_every_character(s, width, n - 1);
        let before = rows_upto(s, width, n - 1);
        let c = s[n - 1];
        if c == '\n' || breaks_at(s, width, n - 1) {
            assert(here.drop_last() =~= before);
            assert(joined_rows(here) =~= without_feeds(s, n));
        } else {
            assert(here.drop_last() =~= before.drop_last());
            assert(here.last() =~= before.last().push(c));
            assert(joined_rows(here) =~= joined_rows(before).push(c));
        }
    }
}

/// Wrapping moves characters to other rows but neither invents nor loses any:
/// the rows read one after the other are the text without its line feeds.
pub proof fn lemma_wrapping_keeps_every_character(s: Seq<char>, width: nat)
    ensures
        joined_rows(wrapped_rows(s, width)) == without_feeds(s, s.len() as int),
{
    lemma_rows_keep_every_character(s, at_least_one(width), s.len() as int);
}

pub proof fn lemma_span_width_of_part(s: Seq<char>, t: Seq<char>, at: int, i: int, j: int)
    requires
        0 <= i <= j <= t.len(),
        forall|k: int| i <= k < j ==> #[trigger] t[k] == s[at + k],
    ensures
        span_width(t, i, j) == span_width(s, at + i, at + j),
    decreases j - i,
{
    if i < j {
        lemma_span_width_of_part(s, t, at, i, j - 1);
        assert(t[j - 1] == s[at + (j - 1)]);
    }
}

proof fn lemma_text_width_push(s: Seq<char>, c: char)
    ensures
        text_width(s.push(c)) == text_width(s) + width::cell_width(c),
{
    lemma_span_width_of_part(s, s.push(c), 0, 0, s.len() as int);
    assert(s.push(c)[s.len() as int] == c);
}

/// Whether no character is wider than a row.
pub open spec fn all_fit(s: Seq<char>, width: nat) -> bool {
    forall|i: int| 0 <= i < s.len() ==> width::cell_width(#[trigger] s[i]) <= width
}

proof fn lemma_rows_fit(s: Seq<char>, width: nat, n: int)
    requires
        0 <= n <= s.len(),
        all_fit(s, width),
    ensures
        rows_upto(s, width, n).len() > 0,
        used_after(s, width, n) == text_width(rows_upto(s, width, n).last()),
        forall|i: int|
            0 <= i < rows_upto(s, width, n).len() ==> text_width(#[trigger] rows_upto(s, width, n)[i])
                <= width,
    decreases n,
{
    if n > 0 {
        lemma_rows_fit(s, width, n - 1);
        let before = rows_upto(s, width, n - 1);
        let here = rows_upto(s, width, n);
        let c = s[n - 1];
        assert(width::cell_width(c) <= width);
        lemma_text_width_push(before.last(), c);
        lemma_text_width_push(Seq::empty(), c);
        assert(Seq::<char>::empty().push(c) =~= seq![c]);
        assert(text_width(Seq::empty()) == 0);
        assert(text_width(before[before.len() - 1]) <= width);
        assert forall|i: int| 0 <= i < here.len() implies text_width(#[trigger] here[i]) <= width by {
            if i < before.len() - 1 {
                assert(here[i] == before[i]);
            } else if i < here.len() - 1 {
                assert(here[i] == before[i]);
            }
        }
    }
}

/// No row takes more columns than it was wrapped for, as long as no single
/// character does.
pub proof fn lemma_no_row_overflows(s: Seq<char>, width: nat)
    requires
        all_fit(s, at_least_one(width)),
    ensures
        forall|i: int|
            0 <= i < wrapped_rows(s, width).len() ==> text_width(#[trigger] wrapped_rows(s, width)[i])
                <= at_least_one(width),
{
    lemma_rows_fit(s, at_least_one(width), s.len() as int);
}

/// Where a row ends that is followed by one starting at `next`: before the line
/// feed, where one ended it.
pub open spec fn row_end(s: Seq<char>, next: int) -> int {
    if next > 0 && s[next - 1] == '\n' {
        next - 1
    } else {
        next
    }
}

proof fn lemma_rows_are_parts(s: Seq<char>, width: nat, n: int)
    requires
        0 <= n <= s.len(),
    ensures
        starts_upto(s, width, n).len() == rows_upto(s, width, n).len(),
        starts_upto(s, width, n).len() > 0,
        0 <= starts_upto(s, width, n).last() <= n,
        rows_upto(s, width, n).last() == s.subrange(starts_upto(s, width, n).last(), n),
        used_after(s, width, n) == text_width(rows_upto(s, width, n).last()),
        forall|i: int|
            0 <= i < starts_upto(s, width, n).len() - 1 ==> #[trigger] rows_upto(s, width, n)[i]
                == s.subrange(
                starts_upto(s, width, n)[i],
                row_end(s, starts_upto(s, width, n)[i + 1]),
            ),
    decreases n,
{
    lemma_starts_upto(s, width, n);
    if n == 0 {
        assert(rows_upto(s, width, n).last() =~= s.subrange(0, 0));
        assert(text_width(Seq::empty()) == 0);
    } else {
        lemma_rows_are_parts(s, width, n - 1);
        lemma_starts_upto(s, width, n - 1);
        let before = rows_upto(s, width, n - 1);
        let here = rows_upto(s, width, n);
        let begun = starts_upto(s, width, n - 1);
        let starts = starts_upto(s, width, n);
        let c = s[n - 1];
        lemma_text_width_push(before.last(), c);
        lemma_text_width_push(Seq::empty(), c);
        assert(Seq::<char>::empty().push(c) =~= seq![c]);
        assert(text_width(Seq::empty()) == 0);
        assert(here.last() =~= s.subrange(starts.last(), n));
        if c != '\n' && breaks_at(s, width, n - 1) {
            // A break is made in a row that takes columns, never right behind a
            // line feed.
            assert(used_after(s, width, n - 1) > 0);
            assert(n - 1 > 0 && s[n - 2] != '\n');
        }
        assert forall|i: int| 0 <= i < starts.len() - 1 implies #[trigger] here[i] == s.subrange(
            starts[i],
            row_end(s, starts[i + 1]),
        ) by {
            if i < begun.len() - 1 {
                assert(here[i] == before[i]);
                assert(starts[i] == begun[i] && starts[i + 1] == begun[i + 1]);
            } else {
                assert(here[i] == before.last());
                assert(starts[i] == begun.last());
            }
        }
    }
}

/// The rows of a text are consecutive parts of it, which together leave out
/// nothing but the line feeds: each row reaches from where it starts to where the
/// next one does, without the line feed that may end it, and the last one to the
/// end of the text.
pub proof fn lemma_rows_are_consecutive_parts(s: Seq<char>, width: nat)
    ensures
        ({
            let starts = wrapped_starts(s, width);
            let rows = wrapped_rows(s, width);
            &&& starts.len() == rows.len()
            &&& starts.len() > 0
            &&& starts[0] == 0
            &&& forall|i: int, j: int|
                0 <= i < j < starts.len() ==> #[trigger] starts[i] < #[trigger] starts[j]
            &&& forall|i: int|
                0 <= i < rows.len() ==> 0 <= #[trigger] starts[i] <= s.len() && rows[i]
                    == s.subrange(
                    starts[i],
                    if i + 1 < rows.len() {
                        row_end(s, starts[i + 1])
                    } else {
                        s.len() as int
                    },
                )
        }),
{
    let w = at_least_one(width);
    let n = s.len() as int;
    lemma_starts_upto(s, w, n);
    lemma_rows_are_parts(s, w, n);
    let starts = wrapped_starts(s, width);
    let rows = wrapped_rows(s, width);
    assert forall|i: int| 0 <= i < rows.len() implies 0 <= #[trigger] starts[i] <= s.len()
        && rows[i] == s.subrange(
        starts[i],
        if i + 1 < rows.len() {
            row_end(s, starts[i + 1])
        } else {
            s.len() as int
        },
    ) by {
        if i + 1 < rows.len() {
            assert(rows_upto(s, w, n)[i] == rows[i]);
        } else {
            assert(rows[i] == rows.last());
        }
    }
}

proof fn lemma_row_of(starts: Seq<usize>, byte: int, row: int, n: int)
    requires
        0 <= row < n <= starts.len(),
        starts[row] <= byte,
        forall|k: int| row < k < n ==> #[trigger] starts[k] > byte,
    ensures
        row_of(starts, byte, n) == row,
    decreases n,
{
    if n - 1 > row {
        assert(starts[n - 1] > byte);
        lemma_row_of(starts, byte, row, n - 1);
    }
}

/// Whether row `row` of a wrapped text is where the character at `i` belongs:
/// it starts at or before it, and the next one starts behind it.
pub open spec fn row_holds(starts: Seq<int>, row: int, i: int) -> bool {
    &&& 0 <= row < starts.len()
    &&& starts[row] <= i
    &&& row + 1 < starts.len() ==> i < starts[row + 1]
}

/// The cursor goes exactly where its character is drawn. It is in the row that
/// holds the character, behind the columns of what precedes the character in
/// that row.
pub proof fn lemma_cursor_lands_on_its_character(s: Seq<char>, width: nat, i: int)
    requires
        0 <= i <= s.len(),
        text::byte_len(s) <= usize::MAX,
    ensures
        ({
            let starts = wrapped_starts(s, width);
            let bytes = bytes_at(s, starts);
            let byte = text::byte_at(s, i) as int;
            let row = row_of(bytes, byte, bytes.len() as int);
            &&& row < wrapped_rows(s, width).len()
            &&& row_holds(starts, row, i)
            &&& column_of(wrapped_rows(s, width), bytes, row, byte) == span_width(s, starts[row], i)
            &&& i == s.len() ==> row == wrapped_rows(s, width).len() - 1
        }),
{
    let w = at_least_one(width);
    let n = s.len() as int;
    let starts = wrapped_starts(s, width);
    let rows = wrapped_rows(s, width);
    let bytes = bytes_at(s, starts);
    let byte = text::byte_at(s, i) as int;
    lemma_starts_upto(s, w, n);
    lemma_rows_are_parts(s, w, n);
    let row = lemma_row_exists(starts, i, starts.len() as int);
    assert forall|k: int| 0 <= k < starts.len() implies #[trigger] bytes[k] == text::byte_at(
        s,
        starts[k],
    ) by {
        text::lemma_byte_at_monotone(s, starts[k], n);
    }
    assert(bytes[row] <= byte) by {
        text::lemma_byte_at_monotone(s, starts[row], i);
    }
    assert forall|k: int| row < k < starts.len() implies #[trigger] bytes[k] > byte by {
        assert(starts[row + 1] <= starts[k]);
        text::lemma_byte_at_monotone(s, i, starts[k]);
    }
    lemma_row_of(bytes, byte, row, bytes.len() as int);
    let from = starts[row];
    let to = if row + 1 < starts.len() {
        row_end(s, starts[row + 1])
    } else {
        n
    };
    let t = rows[row];
    assert(t == s.subrange(from, to));
    assert(from <= i <= to);
    let k = i - from;
    let rest = byte - text::byte_at(s, from);
    assert forall|j: int| 0 <= j <= t.len() implies #[trigger] text::byte_at(t, j)
        == text::byte_at(s, from + j) - text::byte_at(s, from) by {
        assert(t.take(j) =~= s.subrange(from, from + j));
        text::lemma_byte_len_subrange(s, from, from + j);
    }
    assert forall|j: int| 0 <= j < k implies #[trigger] text::byte_at(t, j) < rest by {
        text::lemma_byte_at_monotone(s, from + j, i);
    }
    if k < t.len() {
        assert(text::byte_at(t, k) == rest);
    }
    lemma_chars_before(t, rest, k, t.len() as int);
    lemma_span_width_of_part(s, t, from, 0, k);
}

proof fn lemma_row_exists(starts: Seq<int>, i: int, n: int) -> (row: int)
    requires
        0 < n <= starts.len(),
        starts[0] <= i,
        n < starts.len() ==> i < starts[n],
    ensures
        row_holds(starts, row, i),
    decreases n,
{
    if starts[n - 1] <= i {
        n - 1
    } else {
        lemma_row_exists(starts, i, n - 1)
    }
}

// ---------------------------------------------------------------------------
// Words and rows
// ---------------------------------------------------------------------------

/// Whether the characters from `a` up to `e` are a word: as many neighbours as
/// there are that are all white space or all not, and no line feed among them.
pub open spec fn is_word(s: Seq<char>, a: int, e: int) -> bool {
    &&& 0 <= a < e <= s.len()
    &&& forall|k: int|
        a <= k < e ==> #[trigger] s[k] != '\n' && text::white_space(s[k]) == text::white_space(s[a])
    &&& a == 0 || s[a - 1] == '\n' || text::white_space(s[a - 1]) != text::white_space(s[a])
    &&& e == s.len() || s[e] == '\n' || text::white_space(s[e]) != text::white_space(s[a])
}

/// Columns add up: those of neighbouring parts are those of both together, and
/// those of one character are what the terminal gives it.
pub proof fn lemma_columns_add_up(s: Seq<char>, i: int, j: int, k: int)
    requires
        0 <= i <= j <= k <= s.len(),
    ensures
        span_width(s, i, k) == span_width(s, i, j) + span_width(s, j, k),
        i < s.len() ==> span_width(s, i, i + 1) == match width::columns(s[i]) {
            Some(n) => n as int,
            None => 0,
        },
    decreases k - j,
{
    if i < s.len() {
        assert(span_width(s, i, i) == 0);
    }
    if j < k {
        lemma_columns_add_up(s, i, j, k - 1);
    }
}

proof fn lemma_word_reach(s: Seq<char>, a: int, e: int, j: int)
    requires
        is_word(s, a, e),
        a < j <= e,
    ensures
        word_reach(s, a, j) == e,
    decreases e - j,
{
    if j < e {
        assert(s[j] != '\n');
        lemma_word_reach(s, a, e, j + 1);
    }
}

/// Inside a word that fits a row, no row ends.
proof fn lemma_fitting_word_is_kept(s: Seq<char>, width: nat, a: int, e: int, j: int)
    requires
        is_word(s, a, e),
        span_width(s, a, e) <= width,
        a < j <= e,
    ensures
        ({
            let used = if breaks_at(s, width, a) {
                0
            } else {
                used_after(s, width, a)
            };
            &&& used + span_width(s, a, e) <= width
            &&& used_after(s, width, j) == used + span_width(s, a, j)
        }),
        j < e ==> !breaks_at(s, width, j),
    decreases j,
{
    let used = if breaks_at(s, width, a) {
        0
    } else {
        used_after(s, width, a)
    };
    lemma_word_reach(s, a, e, a + 1);
    assert(starts_word(s, a));
    assert(s[a] != '\n');
    assert(s[j - 1] != '\n');
    if j == a + 1 {
        assert(span_width(s, a, a) == 0);
    } else {
        lemma_fitting_word_is_kept(s, width, a, e, j - 1);
    }
    assert(used_after(s, width, j) == used + span_width(s, a, j));
    if j < e {
        assert(s[j] != '\n');
        assert(text::white_space(s[j - 1]) == text::white_space(s[a]));
        lemma_columns_add_up(s, a, j + 1, e);
    }
}

/// Behind the first row, every row starts behind a line feed or at a break, and
/// the row before it starts where the last one up to there does.
proof fn lemma_why_rows_start(s: Seq<char>, width: nat, n: int)
    requires
        0 <= n <= s.len(),
    ensures
        forall|r: int|
            0 < r < starts_upto(s, width, n).len() ==> {
                let at = #[trigger] starts_upto(s, width, n)[r];
                &&& 0 < at <= n
                &&& s[at - 1] == '\n' || {
                    &&& at < n
                    &&& s[at] != '\n'
                    &&& breaks_at(s, width, at)
                    &&& starts_upto(s, width, n)[r - 1] == starts_upto(s, width, at).last()
                }
            },
        forall|i: int|
            0 <= i < n && #[trigger] s[i] == '\n' ==> starts_upto(s, width, n).contains(i + 1),
    decreases n,
{
    if n > 0 {
        lemma_why_rows_start(s, width, n - 1);
        lemma_starts_upto(s, width, n - 1);
        let before = starts_upto(s, width, n - 1);
        let here = starts_upto(s, width, n);
        assert forall|r: int| 0 < r < here.len() implies {
            let at = #[trigger] here[r];
            &&& 0 < at <= n
            &&& s[at - 1] == '\n' || {
                &&& at < n
                &&& s[at] != '\n'
                &&& breaks_at(s, width, at)
                &&& here[r - 1] == starts_upto(s, width, at).last()
            }
        } by {
            if r < before.len() {
                assert(here[r] == before[r]);
                assert(here[r - 1] == before[r - 1]);
            } else {
                assert(here[r - 1] == before.last());
            }
        }
        assert forall|i: int| 0 <= i < n && #[trigger] s[i] == '\n' implies here.contains(
            i + 1,
        ) by {
            if i < n - 1 {
                let r = choose|r: int| 0 <= r < before.len() && before[r] == i + 1;
                assert(here[r] == i + 1);
            } else {
                assert(here[here.len() - 1] == i + 1);
            }
        }
    }
}

proof fn lemma_row_start_is_forced(s: Seq<char>, width: nat, r: int, a: int, e: int)
    requires
        is_word(s, a, e),
        0 < r < starts_upto(s, width, s.len() as int).len(),
        a <= starts_upto(s, width, s.len() as int)[r] < e,
        s[starts_upto(s, width, s.len() as int)[r] - 1] != '\n',
    ensures
        ({
            let at = starts_upto(s, width, s.len() as int)[r];
            let row = starts_upto(s, width, s.len() as int)[r - 1];
            &&& at == a || span_width(s, a, e) > width
            &&& span_width(s, row, e) > width
            &&& span_width(s, a, e) > width ==> span_width(s, row, at + 1) > width
        }),
{
    let n = s.len() as int;
    lemma_why_rows_start(s, width, n);
    lemma_starts_upto(s, width, n);
    let at = starts_upto(s, width, n)[r];
    let row = starts_upto(s, width, n)[r - 1];
    lemma_rows_are_parts(s, width, at);
    lemma_span_width_of_part(s, s.subrange(row, at), row, 0, at - row);
    assert(used_after(s, width, at) == span_width(s, row, at));
    lemma_columns_add_up(s, row, at, at + 1);
    lemma_columns_add_up(s, row, at + 1, e);
    lemma_columns_add_up(s, row, at, e);
    lemma_columns_add_up(s, at, at, at + 1);
    if span_width(s, a, e) <= width && at > a {
        lemma_fitting_word_is_kept(s, width, a, e, at);
    }
    if at == a {
        lemma_word_reach(s, a, e, a + 1);
    } else {
        assert(s[at - 1] != '\n');
        assert(text::white_space(s[at - 1]) == text::white_space(s[a]));
        assert(text::white_space(s[at]) == text::white_space(s[a]));
    }
}

/// Text is broken between words, and only where it has to be. A row that does not
/// start behind a line feed starts with a word, unless the word around it takes
/// more columns than a row has; then the row before it is full up to the last
/// column that the next character leaves. The word would not have fitted the row
/// before. And behind every line feed a row starts.
pub proof fn lemma_rows_break_between_words(s: Seq<char>, width: nat)
    ensures
        ({
            let starts = wrapped_starts(s, width);
            let columns = at_least_one(width);
            &&& forall|r: int, a: int, e: int|
                0 < r < starts.len() && #[trigger] is_word(s, a, e) && a <= #[trigger] starts[r] < e
                    && s[starts[r] - 1] != '\n' ==> {
                    &&& starts[r] == a || span_width(s, a, e) > columns
                    &&& span_width(s, starts[r - 1], e) > columns
                    &&& span_width(s, a, e) > columns ==> span_width(
                        s,
                        starts[r - 1],
                        starts[r] + 1,
                    ) > columns
                }
            &&& forall|r: int|
                0 < r < starts.len() ==> 0 < #[trigger] starts[r] <= s.len() && (s[starts[r] - 1]
                    == '\n' || (starts[r] < s.len() && s[starts[r]] != '\n'))
            &&& forall|i: int|
                0 <= i < s.len() && #[trigger] s[i] == '\n' ==> starts.contains(i + 1)
        }),
{
    let starts = wrapped_starts(s, width);
    let columns = at_least_one(width);
    lemma_why_rows_start(s, columns, s.len() as int);
    assert forall|r: int, a: int, e: int|
        0 < r < starts.len() && #[trigger] is_word(s, a, e) && a <= #[trigger] starts[r] < e
            && s[starts[r] - 1] != '\n' implies {
        &&& starts[r] == a || span_width(s, a, e) > columns
        &&& span_width(s, starts[r - 1], e) > columns
        &&& span_width(s, a, e) > columns ==> span_width(s, starts[r - 1], starts[r] + 1) > columns
    } by {
        lemma_row_start_is_forced(s, columns, r, a, e);
    }
}

// ---------------------------------------------------------------------------
// Line by line
// ---------------------------------------------------------------------------

/// Whether a line of a text reaches from `p` up to `q`.
pub open spec fn is_line(s: Seq<char>, p: int, q: int) -> bool {
    &&& 0 <= p <= q <= s.len()
    &&& p == 0 || s[p - 1] == '\n'
    &&& q == s.len() || s[q] == '\n'
    &&& forall|k: int| p <= k < q ==> #[trigger] s[k] != '\n'
}

proof fn lemma_word_reach_in_line(s: Seq<char>, p: int, q: int, i: int, j: int)
    requires
        is_line(s, p, q),
        p <= i < j <= q,
    ensures
        word_reach(s, i, j) == p + word_reach(s.subrange(p, q), i - p, j - p),
        j <= word_reach(s, i, j) <= q,
    decreases q - j,
{
    let t = s.subrange(p, q);
    assert(t[i - p] == s[i]);
    if j < q {
        assert(t[j - p] == s[j]);
        lemma_word_reach_in_line(s, p, q, i, j + 1);
    }
}

proof fn lemma_breaks_in_line(s: Seq<char>, width: nat, p: int, q: int, i: int, used: nat)
    requires
        is_line(s, p, q),
        p <= i < q,
    ensures
        breaks_before(s, width, i, used) == breaks_before(s.subrange(p, q), width, i - p, used),
{
    let t = s.subrange(p, q);
    lemma_word_reach_in_line(s, p, q, i, i + 1);
    lemma_span_width_of_part(s, t, p, i - p, word_end(t, i - p));
    assert(t[i - p] == s[i]);
    if i > p {
        assert(t[i - p - 1] == s[i - 1]);
    }
}

/// A line breaks into the same rows wherever it stands in a text.
proof fn lemma_line_wraps_alone(s: Seq<char>, width: nat, p: int, q: int, n: int)
    requires
        is_line(s, p, q),
        p <= n <= q,
    ensures
        used_after(s, width, n) == used_after(s.subrange(p, q), width, n - p),
        rows_upto(s, width, p).len() > 0,
        rows_upto(s.subrange(p, q), width, n - p).len() > 0,
        rows_upto(s, width, n) == rows_upto(s, width, p).drop_last() + rows_upto(
            s.subrange(p, q),
            width,
            n - p,
        ),
    decreases n,
{
    let t = s.subrange(p, q);
    let head = rows_upto(s, width, p);
    lemma_rows_keep_every_character(s, width, p);
    lemma_rows_keep_every_character(t, width, n - p);
    if n == p {
        assert(head.last() =~= Seq::<char>::empty());
        assert(head =~= head.drop_last() + seq![Seq::<char>::empty()]);
    } else {
        lemma_line_wraps_alone(s, width, p, q, n - 1);
        lemma_breaks_in_line(s, width, p, q, n - 1, used_after(s, width, n - 1));
        assert(t[n - 1 - p] == s[n - 1]);
        let inner = rows_upto(t, width, n - 1 - p);
        let before = rows_upto(s, width, n - 1);
        assert(before =~= head.drop_last() + inner);
        assert(before.last() == inner.last());
        assert(before.drop_last() =~= head.drop_last() + inner.drop_last());
        assert(rows_upto(s, width, n) =~= head.drop_last() + rows_upto(t, width, n - p));
    }
}

/// What comes up to the end of a line is what comes up to the end of the one before
/// it, and below it the rows that the line takes by itself.
pub proof fn lemma_lines_wrap_one_by_one(s: Seq<char>, width: nat, p: int, q: int)
    requires
        is_line(s, p, q),
    ensures
        rows_upto(s, width, q) == (if p == 0 {
            Seq::empty()
        } else {
            rows_upto(s, width, p - 1)
        }) + rows_upto(s.subrange(p, q), width, q - p),
{
    lemma_line_wraps_alone(s, width, p, q, q);
    let head = rows_upto(s, width, p);
    if p == 0 {
        assert(head.drop_last() =~= Seq::<Seq<char>>::empty());
    } else {
        assert(head.drop_last() =~= rows_upto(s, width, p - 1));
    }
}

/// The line of a text at an index is one.
pub proof fn lemma_piece_is_a_line(s: Seq<char>, k: int)
    requires
        s.len() <= usize::MAX,
        0 <= k < text::pieces(s, '\n').len(),
    ensures
        ({
            let parts = text::pieces(s, '\n');
            &&& is_line(s, parts[k].start as int, parts[k].end as int)
            &&& k == 0 ==> parts[k].start == 0
            &&& k > 0 ==> parts[k].start == parts[k - 1].end + 1
            &&& k + 1 == parts.len() ==> parts[k].end == s.len()
        }),
{
    text::lemma_pieces_make_up_the_text(s, '\n');
    let parts = text::pieces(s, '\n');
    assert(parts[k].start <= parts[k].end <= s.len());
    if k + 1 < parts.len() {
        assert(parts[k + 1].start == parts[k + 1 - 1].end + 1);
        assert(parts[k + 1].start <= parts[k + 1].end <= s.len());
    }
}

/// A text without line feeds loses nothing without them.
pub proof fn lemma_no_feeds_to_drop(s: Seq<char>, n: int)
    requires
        0 <= n <= s.len(),
        forall|k: int| 0 <= k < n ==> #[trigger] s[k] != '\n',
    ensures
        without_feeds(s, n) == s.take(n),
    decreases n,
{
    if n > 0 {
        lemma_no_feeds_to_drop(s, n - 1);
        assert(without_feeds(s, n) =~= s.take(n));
    } else {
        assert(s.take(0) =~= Seq::<char>::empty());
    }
}

}
