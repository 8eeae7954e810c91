//! What an agent's own composer is holding.
//!
//! The pane is read as it was captured. Where its shape cannot be told for
//! certain the answer is that it is unknown, never a guess.

use crate::agent::AgentKind;
use crate::native_chrome;
use crate::style;
use crate::style::{AnsiColor, StyleRun, StyledText};
use crate::text;
use crate::text::LineRange;
use vstd::prelude::*;

verus! {

#[derive(Clone, Copy, Debug, PartialEq, Eq, Structural)]
pub enum NativeComposerState {
    Clear,
    OwnedAttachments(usize),
    Occupied,
    Unknown,
}

#[derive(Clone, Copy, Debug, PartialEq, Eq, Structural)]
pub enum ComposerAccess {
    Ready,
    Occupied,
    Unknown,
}

impl NativeComposerState {
    /// Who may write, given how many images the overlay knows to be its own.
    pub open spec fn access_spec(self, expected_attachments: usize) -> ComposerAccess {
        match self {
            NativeComposerState::Clear => if expected_attachments == 0 {
                ComposerAccess::Ready
            } else {
                ComposerAccess::Occupied
            },
            NativeComposerState::OwnedAttachments(actual) => if actual == expected_attachments {
                ComposerAccess::Ready
            } else {
                ComposerAccess::Occupied
            },
            NativeComposerState::Occupied => ComposerAccess::Occupied,
            NativeComposerState::Unknown => ComposerAccess::Unknown,
        }
    }

    /// Whether the overlay may write, given how many images it knows to be its
    /// own.
    pub fn access(self, expected_attachments: usize) -> (r: ComposerAccess)
        ensures
            r == self.access_spec(expected_attachments),
    {
        match self {
            NativeComposerState::Clear => {
                if expected_attachments == 0 {
                    ComposerAccess::Ready
                } else {
                    ComposerAccess::Occupied
                }
            },
            NativeComposerState::OwnedAttachments(actual) => {
                if actual == expected_attachments {
                    ComposerAccess::Ready
                } else {
                    ComposerAccess::Occupied
                }
            },
            NativeComposerState::Occupied => ComposerAccess::Occupied,
            NativeComposerState::Unknown => ComposerAccess::Unknown,
        }
    }
}

// ---------------------------------------------------------------------------
// Where the composer stands
// ---------------------------------------------------------------------------

/// A line that Codex prints below its composer.
pub open spec fn codex_footer(line: Seq<char>) -> bool {
    native_chrome::known_footer(line) || native_chrome::codex_queue_footer(line)
}

/// A line that may follow the footer.
pub open spec fn below_codex_footer(line: Seq<char>) -> bool {
    text::blank(line) || native_chrome::footer_continuation(line)
}

/// A rule of a prompt box.
pub open spec fn claude_rule(line: Seq<char>) -> bool {
    native_chrome::pure_separator(line, 16)
}

/// Whether a line opens with a composer marker.
pub open spec fn prompt_line(line: Seq<char>, marker: char) -> bool {
    native_chrome::content_index(line, marker) is Some
}

/// The last of the first `n` lines that is a Codex footer.
pub open spec fn last_codex_footer(s: Seq<char>, lines: Seq<LineRange>, n: int) -> Option<int>
    decreases n,
{
    if n <= 0 {
        None
    } else if codex_footer(lines[n - 1].of(s)) {
        Some(n - 1)
    } else {
        last_codex_footer(s, lines, n - 1)
    }
}

/// The last of the first `n` lines that opens with a composer marker.
pub open spec fn last_prompt(s: Seq<char>, lines: Seq<LineRange>, marker: char, n: int) -> Option<int>
    decreases n,
{
    if n <= 0 {
        None
    } else if prompt_line(lines[n - 1].of(s), marker) {
        Some(n - 1)
    } else {
        last_prompt(s, lines, marker, n - 1)
    }
}

/// The last of the first `n` lines that is a rule of a prompt box.
pub open spec fn last_claude_rule(s: Seq<char>, lines: Seq<LineRange>, n: int) -> Option<int>
    decreases n,
{
    if n <= 0 {
        None
    } else if claude_rule(lines[n - 1].of(s)) {
        Some(n - 1)
    } else {
        last_claude_rule(s, lines, n - 1)
    }
}

/// The first line from `from` up to `n` that opens with a composer marker.
pub open spec fn first_prompt(
    s: Seq<char>,
    lines: Seq<LineRange>,
    marker: char,
    from: int,
    n: int,
) -> Option<int>
    decreases n - from,
{
    if from >= n {
        None
    } else if prompt_line(lines[from].of(s), marker) {
        Some(from)
    } else {
        first_prompt(s, lines, marker, from + 1, n)
    }
}

/// What a prompt line holds behind its marker.
pub open spec fn prompt_chunk(s: Seq<char>, line: LineRange, marker: char) -> LineRange {
    text::range(
        line.start + native_chrome::content_index(line.of(s), marker).unwrap(),
        line.end as int,
    )
}

/// The content of the lines from `from` up to `n`, each without the two spaces
/// that Codex indents it by. A line that is not indented is no content.
pub open spec fn indented_chunks(
    s: Seq<char>,
    lines: Seq<LineRange>,
    from: int,
    n: int,
) -> Option<Seq<LineRange>>
    decreases n - from,
{
    if n <= from {
        Some(Seq::empty())
    } else {
        match indented_chunks(s, lines, from, n - 1) {
            None => None,
            Some(before) => {
                let line = lines[n - 1];
                if line.of(s).len() == 0 {
                    Some(before.push(line))
                } else if "  "@.is_prefix_of(line.of(s)) {
                    Some(before.push(text::range(line.start + "  "@.len(), line.end as int)))
                } else {
                    None
                }
            },
        }
    }
}

/// The content of Codex's composer. It is pinned by the footer below it and by
/// the indentation between the two; nothing is asked of what is above.
pub open spec fn codex_chunks(s: Seq<char>, lines: Seq<LineRange>) -> Option<Seq<LineRange>> {
    match last_codex_footer(s, lines, lines.len() as int) {
        None => None,
        Some(footer) => {
            if exists|i: int| footer < i < lines.len() && !below_codex_footer(#[trigger] lines[i].of(s)) {
                None
            } else {
                match last_prompt(s, lines, '›', footer) {
                    None => None,
                    Some(prompt) => {
                        match indented_chunks(s, lines, prompt + 1, footer) {
                            None => None,
                            Some(rest) => Some(seq![prompt_chunk(s, lines[prompt], '›')] + rest),
                        }
                    },
                }
            }
        },
    }
}

/// The content of a composer in a prompt box. It is bounded by a pair of rules, with
/// nothing that the agent authored below them.
pub open spec fn claude_chunks(s: Seq<char>, lines: Seq<LineRange>) -> Option<Seq<LineRange>> {
    match last_claude_rule(s, lines, lines.len() as int) {
        None => None,
        Some(close) => {
            if exists|i: int|
                close < i < lines.len() && native_chrome::opens_with_any(
                    #[trigger] lines[i].of(s),
                    native_chrome::claude_bullets(),
                ) {
                None
            } else {
                match last_claude_rule(s, lines, close) {
                    None => None,
                    Some(open) => {
                        match first_prompt(s, lines, '❯', open + 1, close) {
                            None => None,
                            Some(prompt) => {
                                if exists|i: int|
                                    open < i < prompt && !text::blank(#[trigger] lines[i].of(s)) {
                                    None
                                } else {
                                    Some(
                                        seq![prompt_chunk(s, lines[prompt], '❯')]
                                            + lines.subrange(prompt + 1, close),
                                    )
                                }
                            },
                        }
                    },
                }
            }
        },
    }
}

/// The content of an agent's composer, line by line.
pub open spec fn content_chunks(kind: AgentKind, s: Seq<char>) -> Option<Seq<LineRange>> {
    match kind {
        AgentKind::Codex => codex_chunks(s, text::line_pieces(s)),
        AgentKind::Claude => claude_chunks(s, text::line_pieces(s)),
    }
}

/// The first `n` chunks as one text, with a line feed between two of them.
pub open spec fn joined(s: Seq<char>, chunks: Seq<LineRange>, n: int) -> Seq<char>
    decreases n,
{
    if n <= 0 {
        Seq::empty()
    } else if n == 1 {
        chunks[0].of(s)
    } else {
        joined(s, chunks, n - 1).push('\n') + chunks[n - 1].of(s)
    }
}

proof fn lemma_last_prompt(s: Seq<char>, lines: Seq<LineRange>, marker: char, n: int)
    ensures
        last_prompt(s, lines, marker, n) matches Some(i) ==> 0 <= i < n && prompt_line(
            lines[i].of(s),
            marker,
        ),
    decreases n,
{
    if n > 0 {
        lemma_last_prompt(s, lines, marker, n - 1);
    }
}

proof fn lemma_first_prompt(s: Seq<char>, lines: Seq<LineRange>, marker: char, from: int, n: int)
    ensures
        first_prompt(s, lines, marker, from, n) matches Some(i) ==> from <= i < n && prompt_line(
            lines[i].of(s),
            marker,
        ),
    decreases n - from,
{
    if from < n {
        lemma_first_prompt(s, lines, marker, from + 1, n);
    }
}

/// A pane, ready to be looked up by line.
struct Surface {
    chars: Vec<char>,
    lines: Vec<LineRange>,
}

impl Surface {
    spec fn wf(self) -> bool {
        &&& self.lines@ == text::line_pieces(self.chars@)
        &&& forall|i: int| 0 <= i < self.lines@.len() ==> (#[trigger] self.lines@[i]).within(self.chars@)
    }

    fn new(s: &str) -> (r: Self)
        ensures
            r.wf(),
            r.chars@ == s@,
    {
        let chars: Vec<char> = text::chars_of(s);
        let lines: Vec<LineRange> = native_chrome::line_ranges(&chars);
        Surface { chars, lines }
    }

    fn line(&self, i: usize) -> (r: String)
        requires
            self.wf(),
            i < self.lines@.len(),
        ensures
            r@ == self.lines@[i as int].of(self.chars@),
    {
        native_chrome::line_text(&self.chars, self.lines[i])
    }

    fn is_blank(&self, i: usize) -> (r: bool)
        requires
            self.wf(),
            i < self.lines@.len(),
        ensures
            r == text::blank(self.lines@[i as int].of(self.chars@)),
    {
        let range: LineRange = self.lines[i];
        let (start, end) = text::trim_between(&self.chars, range.start, range.end);
        proof {
            text::lemma_blank_is_trimmed_away(range.of(self.chars@));
        }
        start == end
    }

    fn find_codex_footer(&self) -> (r: Option<usize>)
        requires
            self.wf(),
        ensures
            r is Some == last_codex_footer(
                self.chars@,
                self.lines@,
                self.lines@.len() as int,
            ) is Some,
            r matches Some(i) ==> i < self.lines@.len() && last_codex_footer(
                self.chars@,
                self.lines@,
                self.lines@.len() as int,
            ) == Some(i as int),
    {
        let mut n: usize = self.lines.len();
        while n > 0
            invariant
                self.wf(),
                n <= self.lines@.len(),
                last_codex_footer(self.chars@, self.lines@, n as int) == last_codex_footer(
                    self.chars@,
                    self.lines@,
                    self.lines@.len() as int,
                ),
            decreases n,
        {
            let line: String = self.line(n - 1);
            if native_chrome::is_known_footer(line.as_str()) || native_chrome::is_codex_queue_footer(
                line.as_str(),
            ) {
                return Some(n - 1);
            }
            n = n - 1;
        }
        None
    }

    fn find_last_prompt(&self, marker: char, below: usize) -> (r: Option<usize>)
        requires
            self.wf(),
            below <= self.lines@.len(),
        ensures
            r is Some == last_prompt(self.chars@, self.lines@, marker, below as int) is Some,
            r matches Some(i) ==> i < below && last_prompt(
                self.chars@,
                self.lines@,
                marker,
                below as int,
            ) == Some(i as int),
    {
        let mut n: usize = below;
        while n > 0
            invariant
                self.wf(),
                n <= below <= self.lines@.len(),
                last_prompt(self.chars@, self.lines@, marker, n as int) == last_prompt(
                    self.chars@,
                    self.lines@,
                    marker,
                    below as int,
                ),
            decreases n,
        {
            let line: String = self.line(n - 1);
            if native_chrome::composer_content_index(line.as_str(), marker).is_some() {
                return Some(n - 1);
            }
            n = n - 1;
        }
        None
    }

    fn find_claude_rule(&self, below: usize) -> (r: Option<usize>)
        requires
            self.wf(),
            below <= self.lines@.len(),
        ensures
            r is Some == last_claude_rule(self.chars@, self.lines@, below as int) is Some,
            r matches Some(i) ==> i < below && last_claude_rule(
                self.chars@,
                self.lines@,
                below as int,
            ) == Some(i as int),
    {
        let mut n: usize = below;
        while n > 0
            invariant
                self.wf(),
                n <= below <= self.lines@.len(),
                last_claude_rule(self.chars@, self.lines@, n as int) == last_claude_rule(
                    self.chars@,
                    self.lines@,
                    below as int,
                ),
            decreases n,
        {
            let line: String = self.line(n - 1);
            if native_chrome::is_pure_separator(line.as_str(), 16) {
                return Some(n - 1);
            }
            n = n - 1;
        }
        None
    }

    fn find_first_prompt(&self, marker: char, from: usize, to: usize) -> (r: Option<usize>)
        requires
            self.wf(),
            to <= self.lines@.len(),
        ensures
            r is Some == first_prompt(
                self.chars@,
                self.lines@,
                marker,
                from as int,
                to as int,
            ) is Some,
            r matches Some(i) ==> from <= i < to && first_prompt(
                self.chars@,
                self.lines@,
                marker,
                from as int,
                to as int,
            ) == Some(i as int),
    {
        let mut i: usize = from;
        while i < to
            invariant
                self.wf(),
                to <= self.lines@.len(),
                from <= i,
                first_prompt(self.chars@, self.lines@, marker, i as int, to as int) == first_prompt(
                    self.chars@,
                    self.lines@,
                    marker,
                    from as int,
                    to as int,
                ),
            decreases to - i,
        {
            let line: String = self.line(i);
            if native_chrome::composer_content_index(line.as_str(), marker).is_some() {
                return Some(i);
            }
            i = i + 1;
        }
        None
    }

    /// What the prompt line holds behind its marker.
    fn first_chunk(&self, prompt: usize, marker: char) -> (r: LineRange)
        requires
            self.wf(),
            prompt < self.lines@.len(),
            prompt_line(self.lines@[prompt as int].of(self.chars@), marker),
        ensures
            r == prompt_chunk(self.chars@, self.lines@[prompt as int], marker),
            r.within(self.chars@),
    {
        let line: String = self.line(prompt);
        let range: LineRange = self.lines[prompt];
        match native_chrome::composer_content_index(line.as_str(), marker) {
            Some(n) => LineRange { start: range.start + n, end: range.end },
            None => range,
        }
    }

    fn codex_content(&self) -> (r: Option<Vec<LineRange>>)
        requires
            self.wf(),
        ensures
            r is Some == codex_chunks(self.chars@, self.lines@) is Some,
            r matches Some(c) ==> codex_chunks(self.chars@, self.lines@) == Some(c@)
                && forall|i: int| 0 <= i < c@.len() ==> (#[trigger] c@[i]).within(self.chars@),
    {
        let ghost s = self.chars@;
        let ghost lines = self.lines@;
        let footer: usize = match self.find_codex_footer() {
            None => {
                return None;
            },
            Some(footer) => footer,
        };
        let total: usize = self.lines.len();
        let mut i: usize = footer + 1;
        while i < total
            invariant
                self.wf(),
                s == self.chars@,
                lines == self.lines@,
                total == lines.len(),
                footer < i <= total,
                forall|k: int| footer < k < i ==> below_codex_footer(#[trigger] lines[k].of(s)),
                last_codex_footer(s, lines, lines.len() as int) == Some(footer as int),
            decreases total - i,
        {
            let line: String = self.line(i);
            if !self.is_blank(i) && !native_chrome::is_known_footer_continuation(line.as_str()) {
                assert(!below_codex_footer(lines[i as int].of(s)));
                return None;
            }
            i = i + 1;
        }
        let prompt: usize = match self.find_last_prompt('›', footer) {
            None => {
                return None;
            },
            Some(prompt) => prompt,
        };
        proof {
            lemma_last_prompt(s, lines, '›', footer as int);
            reveal_strlit("  ");
        }
        let mut chunks: Vec<LineRange> = Vec::new();
        chunks.push(self.first_chunk(prompt, '›'));
        let ghost head = chunks@;
        assert(head + Seq::<LineRange>::empty() =~= head);
        let mut k: usize = prompt + 1;
        while k < footer
            invariant
                self.wf(),
                s == self.chars@,
                lines == self.lines@,
                prompt < k <= footer < lines.len(),
                "  "@.len() == 2,
                last_codex_footer(s, lines, lines.len() as int) == Some(footer as int),
                last_prompt(s, lines, '›', footer as int) == Some(prompt as int),
                head == seq![prompt_chunk(s, lines[prompt as int], '›')],
                indented_chunks(s, lines, prompt + 1, k as int) matches Some(rest) && chunks@ == head
                    + rest,
                forall|j: int| 0 <= j < chunks@.len() ==> (#[trigger] chunks@[j]).within(s),
            decreases footer - k,
        {
            let range: LineRange = self.lines[k];
            let ghost before = chunks@;
            let ghost rest = indented_chunks(s, lines, prompt + 1, k as int).unwrap();
            if range.start == range.end {
                chunks.push(range);
                assert(chunks@ =~= head + rest.push(range));
            } else {
                let line: String = self.line(k);
                if !native_chrome::starts_with(line.as_str(), "  ") {
                    proof {
                        lemma_indented_chunks_stay_none(s, lines, prompt + 1, k + 1, footer as int);
                    }
                    return None;
                }
                let inner = LineRange { start: range.start + 2, end: range.end };
                chunks.push(inner);
                assert(chunks@ =~= head + rest.push(inner));
            }
            k = k + 1;
        }
        Some(chunks)
    }

    fn claude_content(&self) -> (r: Option<Vec<LineRange>>)
        requires
            self.wf(),
        ensures
            r is Some == claude_chunks(self.chars@, self.lines@) is Some,
            r matches Some(c) ==> claude_chunks(self.chars@, self.lines@) == Some(c@)
                && forall|i: int| 0 <= i < c@.len() ==> (#[trigger] c@[i]).within(self.chars@),
    {
        let ghost s = self.chars@;
        let ghost lines = self.lines@;
        let total: usize = self.lines.len();
        let close: usize = match self.find_claude_rule(total) {
            None => {
                return None;
            },
            Some(close) => close,
        };
        let bullets: Vec<&'static str> = native_chrome::claude_role_prefixes();
        let mut i: usize = close + 1;
        while i < total
            invariant
                self.wf(),
                s == self.chars@,
                lines == self.lines@,
                total == lines.len(),
                close < i <= total,
                native_chrome::literals(bullets@) == native_chrome::claude_bullets(),
                last_claude_rule(s, lines, lines.len() as int) == Some(close as int),
                forall|k: int|
                    close < k < i ==> !native_chrome::opens_with_any(
                        #[trigger] lines[k].of(s),
                        native_chrome::claude_bullets(),
                    ),
            decreases total - i,
        {
            let line: String = self.line(i);
            if native_chrome::starts_with_any(line.as_str(), &bullets) {
                assert(native_chrome::opens_with_any(
                    lines[i as int].of(s),
                    native_chrome::claude_bullets(),
                ));
                return None;
            }
            i = i + 1;
        }
        let open: usize = match self.find_claude_rule(close) {
            None => {
                return None;
            },
            Some(open) => open,
        };
        let prompt: usize = match self.find_first_prompt('❯', open + 1, close) {
            None => {
                return None;
            },
            Some(prompt) => prompt,
        };
        proof {
            lemma_first_prompt(s, lines, '❯', open + 1, close as int);
        }
        let mut j: usize = open + 1;
        while j < prompt
            invariant
                self.wf(),
                s == self.chars@,
                lines == self.lines@,
                open < j <= prompt < close < lines.len(),
                last_claude_rule(s, lines, lines.len() as int) == Some(close as int),
                last_claude_rule(s, lines, close as int) == Some(open as int),
                first_prompt(s, lines, '❯', open + 1, close as int) == Some(prompt as int),
                forall|k: int| open < k < j ==> text::blank(#[trigger] lines[k].of(s)),
            decreases prompt - j,
        {
            if !self.is_blank(j) {
                assert(!text::blank(lines[j as int].of(s)));
                return None;
            }
            j = j + 1;
        }
        let mut chunks: Vec<LineRange> = Vec::new();
        chunks.push(self.first_chunk(prompt, '❯'));
        let ghost head = chunks@;
        let mut k: usize = prompt + 1;
        assert(head + lines.subrange(prompt + 1, k as int) =~= head);
        while k < close
            invariant
                self.wf(),
                lines == self.lines@,
                s == self.chars@,
                prompt < k <= close < lines.len(),
                chunks@ == head + lines.subrange(prompt + 1, k as int),
                forall|i: int| 0 <= i < chunks@.len() ==> (#[trigger] chunks@[i]).within(s),
            decreases close - k,
        {
            chunks.push(self.lines[k]);
            assert(chunks@ =~= head + lines.subrange(prompt + 1, k + 1));
            k = k + 1;
        }
        Some(chunks)
    }

    fn content(&self, kind: AgentKind) -> (r: Option<Vec<LineRange>>)
        requires
            self.wf(),
        ensures
            r is Some == content_chunks(kind, self.chars@) is Some,
            r matches Some(c) ==> content_chunks(kind, self.chars@) == Some(c@) && forall|i: int|
                0 <= i < c@.len() ==> (#[trigger] c@[i]).within(self.chars@),
    {
        match kind {
            AgentKind::Codex => self.codex_content(),
            AgentKind::Claude => self.claude_content(),
        }
    }
}

proof fn lemma_indented_chunks_stay_none(
    s: Seq<char>,
    lines: Seq<LineRange>,
    from: int,
    n: int,
    m: int,
)
    requires
        from < n <= m,
        indented_chunks(s, lines, from, n) is None,
    ensures
        indented_chunks(s, lines, from, m) is None,
    decreases m - n,
{
    if n < m {
        lemma_indented_chunks_stay_none(s, lines, from, n, m - 1);
    }
}

fn chunk_text(chars: &Vec<char>, chunks: &Vec<LineRange>) -> (r: String)
    requires
        forall|i: int| 0 <= i < chunks@.len() ==> (#[trigger] chunks@[i]).within(chars@),
    ensures
        r@ == joined(chars@, chunks@, chunks@.len() as int),
{
    let mut content = String::new();
    let mut i: usize = 0;
    while i < chunks.len()
        invariant
            i <= chunks@.len(),
            forall|k: int| 0 <= k < chunks@.len() ==> (#[trigger] chunks@[k]).within(chars@),
            content@ == joined(chars@, chunks@, i as int),
        decreases chunks@.len() - i,
    {
        if i > 0 {
            content.push('\n');
        }
        let ghost before = content@;
        let chunk: String = native_chrome::line_text(chars, chunks[i]);
        content.append(chunk.as_str());
        assert(content@ =~= joined(chars@, chunks@, i + 1));
        i = i + 1;
    }
    content
}

// ---------------------------------------------------------------------------
// Attachment markers
// ---------------------------------------------------------------------------

/// What the marker of an attachment opens with.
pub open spec fn attachment_marker() -> Seq<char> {
    "[Image #"@
}

/// The first index from `i` on that holds no ASCII white space.
pub open spec fn ascii_space_end(s: Seq<char>, i: int) -> int
    decreases s.len() - i,
{
    if i < s.len() && text::ascii_white_space(s[i]) {
        ascii_space_end(s, i + 1)
    } else {
        i
    }
}

/// The first index from `i` on that holds no white space.
pub open spec fn space_end(s: Seq<char>, i: int) -> int
    decreases s.len() - i,
{
    if i < s.len() && text::white_space(s[i]) {
        space_end(s, i + 1)
    } else {
        i
    }
}

/// The first index from `i` on that holds no digit.
pub open spec fn digits_end(s: Seq<char>, i: int) -> int
    decreases s.len() - i,
{
    if i < s.len() && text::ascii_digit(s[i]) {
        digits_end(s, i + 1)
    } else {
        i
    }
}

/// Where the digits of the marker at `i` start.
pub open spec fn number_start(i: int) -> int {
    i + attachment_marker().len()
}

/// Whether a whole marker stands at `i`: its opening, digits, and a bracket.
pub open spec fn marker_stands(s: Seq<char>, i: int) -> bool {
    let from = number_start(i);
    let to = digits_end(s, from);
    text::holds_at(s, i, attachment_marker()) && from < to < s.len() && s[to] == ']'
}

/// Where the marker at `i` ends.
pub open spec fn marker_end(s: Seq<char>, i: int) -> int {
    digits_end(s, number_start(i)) + 1
}

/// The number of the marker at `i`.
pub open spec fn marker_number(s: Seq<char>, i: int) -> nat {
    text::decimal(s.subrange(number_start(i), digits_end(s, number_start(i))))
}

pub proof fn lemma_digits_end(s: Seq<char>, i: int)
    requires
        0 <= i <= s.len(),
    ensures
        i <= digits_end(s, i) <= s.len(),
        forall|k: int| i <= k < digits_end(s, i) ==> text::ascii_digit(#[trigger] s[k]),
    decreases s.len() - i,
{
    if i < s.len() && text::ascii_digit(s[i]) {
        lemma_digits_end(s, i + 1);
    }
}

pub proof fn lemma_ascii_space_end(s: Seq<char>, i: int)
    requires
        0 <= i <= s.len(),
    ensures
        i <= ascii_space_end(s, i) <= s.len(),
    decreases s.len() - i,
{
    if i < s.len() && text::ascii_white_space(s[i]) {
        lemma_ascii_space_end(s, i + 1);
    }
}

pub proof fn lemma_space_end(s: Seq<char>, i: int)
    requires
        0 <= i <= s.len(),
    ensures
        i <= space_end(s, i) <= s.len(),
    decreases s.len() - i,
{
    if i < s.len() && text::white_space(s[i]) {
        lemma_space_end(s, i + 1);
    }
}

/// How many markers the text holds from `i` on, where it holds nothing else but
/// ASCII white space.
pub open spec fn count_from(s: Seq<char>, i: int) -> Option<nat>
    decreases s.len() - i,
{
    if i < 0 || i > s.len() {
        None
    } else {
        let at = ascii_space_end(s, i);
        if at >= s.len() {
            Some(0)
        } else if marker_stands(s, at) && (marker_end(s, at) >= s.len() || text::ascii_white_space(
            s[marker_end(s, at)],
        )) {
            proof {
                lemma_ascii_space_end(s, i);
                lemma_digits_end(s, number_start(at));
            }
            match count_from(s, marker_end(s, at)) {
                None => None,
                Some(n) => Some(n + 1),
            }
        } else {
            None
        }
    }
}

/// How many markers a text is made of, where it is made of markers.
pub open spec fn exact_count(s: Seq<char>) -> Option<nat> {
    match count_from(s, 0) {
        Some(n) => if n > 0 {
            Some(n)
        } else {
            None
        },
        None => None,
    }
}

/// Whether a marker that can be numbered stands behind the white space at `i`.
pub open spec fn numbered_marker(s: Seq<char>, i: int) -> bool {
    marker_stands(s, space_end(s, i)) && marker_number(s, space_end(s, i)) <= usize::MAX
}

/// The numbers of the markers that the text opens with from `i` on.
pub open spec fn markers_from(s: Seq<char>, i: int) -> Seq<usize>
    decreases s.len() - i,
{
    if 0 <= i <= s.len() && numbered_marker(s, i) {
        let at = space_end(s, i);
        proof {
            lemma_space_end(s, i);
            lemma_digits_end(s, number_start(at));
        }
        seq![marker_number(s, at) as usize] + markers_from(s, marker_end(s, at))
    } else {
        Seq::empty()
    }
}

/// Where the text behind the markers starts.
pub open spec fn rest_from(s: Seq<char>, i: int) -> int
    decreases s.len() - i,
{
    if 0 <= i <= s.len() && numbered_marker(s, i) {
        let at = space_end(s, i);
        proof {
            lemma_space_end(s, i);
            lemma_digits_end(s, number_start(at));
        }
        rest_from(s, marker_end(s, at))
    } else {
        space_end(s, i)
    }
}

/// Whether a marker opens anywhere from `i` on.
pub open spec fn marker_follows(s: Seq<char>, i: int) -> bool {
    exists|k: int| i <= k && #[trigger] text::holds_at(s, k, attachment_marker())
}

proof fn lemma_marker_shape(s: Seq<char>, i: int)
    requires
        text::holds_at(s, i, attachment_marker()),
    ensures
        attachment_marker().len() == 8,
        i < s.len(),
        s[i] == '[',
{
    reveal_strlit("[Image #");
    assert(s.subrange(i, i + 8)[0] == s[i]);
}

proof fn lemma_same_spaces(s: Seq<char>, i: int)
    requires
        0 <= i <= s.len(),
        ascii_space_end(s, i) < s.len(),
        s[ascii_space_end(s, i)] == '[',
    ensures
        space_end(s, i) == ascii_space_end(s, i),
    decreases s.len() - i,
{
    if text::ascii_white_space(s[i]) {
        lemma_same_spaces(s, i + 1);
    }
}

proof fn lemma_only_spaces(s: Seq<char>, i: int)
    requires
        0 <= i <= s.len(),
        ascii_space_end(s, i) >= s.len(),
    ensures
        space_end(s, i) == s.len(),
    decreases s.len() - i,
{
    if i < s.len() {
        lemma_only_spaces(s, i + 1);
    }
}

/// A text of nothing but markers opens with as many markers as it is counted to
/// hold, unless one of them bears a number that no machine word holds; then a
/// marker is left in what follows.
pub proof fn lemma_count_agrees_with_markers(s: Seq<char>, i: int)
    requires
        0 <= i <= s.len(),
        count_from(s, i) is Some,
        !marker_follows(s, rest_from(s, i)),
    ensures
        markers_from(s, i).len() == count_from(s, i).unwrap(),
        rest_from(s, i) == s.len(),
    decreases s.len() - i,
{
    let at = ascii_space_end(s, i);
    lemma_ascii_space_end(s, i);
    if at >= s.len() {
        lemma_only_spaces(s, i);
        if numbered_marker(s, i) {
            lemma_marker_shape(s, s.len() as int);
        }
    } else {
        lemma_marker_shape(s, at);
        lemma_same_spaces(s, i);
        lemma_digits_end(s, number_start(at));
        if marker_number(s, at) <= usize::MAX {
            lemma_count_agrees_with_markers(s, marker_end(s, at));
        } else {
            assert(text::holds_at(s, at, attachment_marker()));
        }
    }
}

fn marker_at(chars: &Vec<char>, at: usize) -> (r: bool)
    requires
        at <= chars@.len(),
    ensures
        r == text::holds_at(chars@, at as int, attachment_marker()),
{
    let marker: Vec<char> = text::chars_of("[Image #");
    let n: usize = chars.len();
    let r: bool = text::opens_with(chars, at, n, &marker);
    proof {
        let rest = chars@.subrange(at as int, n as int);
        let m = attachment_marker();
        if at + m.len() <= n {
            assert(rest.subrange(0, m.len() as int) =~= chars@.subrange(at as int, at + m.len()));
        }
    }
    r
}

fn skip_digits(chars: &Vec<char>, start: usize) -> (r: usize)
    requires
        start <= chars@.len(),
    ensures
        r == digits_end(chars@, start as int),
        start <= r <= chars@.len(),
{
    let mut i: usize = start;
    while i < chars.len() && text::is_ascii_digit(chars[i])
        invariant
            start <= i <= chars@.len(),
            digits_end(chars@, i as int) == digits_end(chars@, start as int),
        decreases chars@.len() - i,
    {
        i = i + 1;
    }
    i
}

/// Where the whole marker at an index ends, where one stands there.
fn whole_marker(chars: &Vec<char>, at: usize) -> (r: Option<(usize, usize)>)
    requires
        at <= chars@.len(),
    ensures
        r is Some == marker_stands(chars@, at as int),
        r matches Some((from, to)) ==> from == number_start(at as int) && to == digits_end(
            chars@,
            from as int,
        ) && from < to < chars@.len(),
{
    if !marker_at(chars, at) {
        return None;
    }
    proof {
        reveal_strlit("[Image #");
    }
    let total: usize = chars.len();
    assert(at + 8 <= total);
    let from: usize = at + 8;
    let to: usize = skip_digits(chars, from);
    if from < to && to < total && chars[to] == ']' {
        Some((from, to))
    } else {
        None
    }
}

fn exact_attachment_count(chars: &Vec<char>) -> (r: Option<usize>)
    ensures
        r is Some == exact_count(chars@) is Some,
        r matches Some(n) ==> exact_count(chars@) == Some(n as nat),
{
    let total: usize = chars.len();
    let mut index: usize = 0;
    let mut count: usize = 0;
    let ghost all = count_from(chars@, 0);
    loop
        invariant
            total == chars@.len(),
            index <= total,
            count <= index,
            all == count_from(chars@, 0),
            all is Some == count_from(chars@, index as int) is Some,
            all matches Some(n) ==> n == count + count_from(chars@, index as int).unwrap(),
        decreases total - index,
    {
        let ghost from = index as int;
        while index < total && text::is_ascii_white_space(chars[index])
            invariant
                total == chars@.len(),
                from <= index <= total,
                ascii_space_end(chars@, index as int) == ascii_space_end(chars@, from),
            decreases total - index,
        {
            index = index + 1;
        }
        if index == total {
            return if count > 0 {
                Some(count)
            } else {
                None
            };
        }
        match whole_marker(chars, index) {
            None => {
                return None;
            },
            Some((_, to)) => {
                if total - to > 1 && !text::is_ascii_white_space(chars[to + 1]) {
                    return None;
                }
                index = to + 1;
                count = count + 1;
            },
        }
    }
}

fn find_marker(chars: &Vec<char>, start: usize) -> (r: bool)
    requires
        start <= chars@.len(),
    ensures
        r == marker_follows(chars@, start as int),
{
    let mut i: usize = start;
    while i < chars.len()
        invariant
            start <= i <= chars@.len(),
            forall|k: int|
                start <= k < i ==> !(#[trigger] text::holds_at(chars@, k, attachment_marker())),
        decreases chars@.len() - i,
    {
        if marker_at(chars, i) {
            return true;
        }
        i = i + 1;
    }
    assert forall|k: int| start <= k implies !(#[trigger] text::holds_at(
        chars@,
        k,
        attachment_marker(),
    )) by {
        if text::holds_at(chars@, k, attachment_marker()) {
            lemma_marker_shape(chars@, k);
        }
    }
    false
}

/// Counts the attachment markers that open the content and gives where the rest
/// starts. A marker anywhere after the text means the two are interleaved.
fn split_attachments(chars: &Vec<char>) -> (r: Option<(Vec<usize>, usize)>)
    ensures
        r is Some == !marker_follows(chars@, rest_from(chars@, 0)),
        r matches Some((markers, rest)) ==> markers@ == markers_from(chars@, 0) && rest == rest_from(
            chars@,
            0,
        ) && rest <= chars@.len(),
{
    let total: usize = chars.len();
    let mut markers: Vec<usize> = Vec::new();
    let mut index: usize = 0;
    let ghost all = markers_from(chars@, 0);
    assert(markers@ + all =~= all);
    loop
        invariant
            total == chars@.len(),
            index <= total,
            all == markers_from(chars@, 0),
            markers@ + markers_from(chars@, index as int) == all,
            rest_from(chars@, index as int) == rest_from(chars@, 0),
        decreases total - index,
    {
        let ghost from = index as int;
        let ghost before = markers@;
        while index < total && text::is_white_space(chars[index])
            invariant
                total == chars@.len(),
                from <= index <= total,
                space_end(chars@, index as int) == space_end(chars@, from),
            decreases total - index,
        {
            index = index + 1;
        }
        let mut next: Option<(usize, usize)> = None;
        if let Some((start, end)) = whole_marker(chars, index) {
            proof {
                lemma_digits_end(chars@, start as int);
            }
            if let Some(number) = text::parse_number(chars, start, end) {
                next = Some((number, end + 1));
            }
        }
        match next {
            Some((number, end)) => {
                markers.push(number);
                proof {
                    let after = markers_from(chars@, end as int);
                    assert(markers_from(chars@, from) =~= seq![number] + after);
                    assert(markers@ + after =~= before + markers_from(chars@, from));
                }
                index = end;
            },
            None => {
                assert(markers_from(chars@, from) =~= Seq::<usize>::empty());
                assert(markers@ =~= all);
                return if find_marker(chars, index) {
                    None
                } else {
                    Some((markers, index))
                };
            },
        }
    }
}

// ---------------------------------------------------------------------------
// What the composer holds
// ---------------------------------------------------------------------------

/// Whether a run is drawn as faintly as a placeholder.
pub open spec fn placeholder_run(run: StyleRun) -> bool {
    ||| run.modifiers.dim && run.foreground is None
    ||| run.foreground == Some(AnsiColor::BrightBlack)
    ||| run.foreground == Some(AnsiColor::Indexed(8))
}

/// Whether one run covers these bytes and is drawn as a placeholder.
pub open spec fn placeholder_at(runs: Seq<StyleRun>, start: nat, end: nat) -> bool {
    exists|i: int|
        0 <= i < runs.len() && (#[trigger] runs[i]).start_byte <= start && end <= runs[i].end_byte
            && placeholder_run(runs[i])
}

/// Whether everything that can be seen of a chunk is drawn as a placeholder.
pub open spec fn placeholder_chunk(s: Seq<char>, runs: Seq<StyleRun>, chunk: LineRange) -> bool {
    forall|i: int|
        chunk.start <= i < chunk.end && !text::white_space(#[trigger] s[i]) ==> placeholder_at(
            runs,
            text::byte_at(s, i),
            text::byte_at(s, i + 1),
        )
}

/// What content there is in a composer.
pub open spec fn content_state(
    s: Seq<char>,
    runs: Seq<StyleRun>,
    chunks: Seq<LineRange>,
) -> NativeComposerState {
    let content = joined(s, chunks, chunks.len() as int);
    if text::blank(content) {
        NativeComposerState::Clear
    } else {
        match exact_count(content) {
            Some(n) => NativeComposerState::OwnedAttachments(n as usize),
            None => if forall|i: int|
                0 <= i < chunks.len() ==> placeholder_chunk(s, runs, #[trigger] chunks[i]) {
                NativeComposerState::Clear
            } else {
                NativeComposerState::Occupied
            },
        }
    }
}

/// What an agent's composer holds, as far as the pane shows it.
pub open spec fn composer_state(kind: AgentKind, surface: style::StyledView) -> NativeComposerState {
    if !style::runs_valid(surface.text, surface.runs) {
        NativeComposerState::Unknown
    } else {
        match content_chunks(kind, surface.text) {
            None => NativeComposerState::Unknown,
            Some(chunks) => content_state(surface.text, surface.runs, chunks),
        }
    }
}

/// All that a composer shows, markers and all.
pub open spec fn composer_content(kind: AgentKind, surface: style::StyledView) -> Option<Seq<char>> {
    if !style::runs_valid(surface.text, surface.runs) {
        None
    } else {
        match content_chunks(kind, surface.text) {
            None => None,
            Some(chunks) => Some(joined(surface.text, chunks, chunks.len() as int)),
        }
    }
}

/// The images a composer holds, and the text behind them.
pub ghost struct PartsView {
    pub markers: Seq<usize>,
    pub text: Seq<char>,
}

/// Content split into its images and the text beside them.
pub open spec fn split_content(content: Seq<char>) -> Option<PartsView> {
    let markers = markers_from(content, 0);
    let rest = text::trim(content.skip(rest_from(content, 0)));
    if marker_follows(content, rest_from(content, 0)) || (markers.len() == 0 && rest.len() == 0) {
        None
    } else {
        Some(PartsView { markers, text: rest })
    }
}

/// The images and the text of a composer, where it holds any.
pub open spec fn composer_parts(kind: AgentKind, surface: style::StyledView) -> Option<PartsView> {
    match composer_state(kind, surface) {
        NativeComposerState::Clear | NativeComposerState::Unknown => None,
        _ => split_content(composer_content(kind, surface).unwrap()),
    }
}

fn placeholder_style_at(runs: &Vec<StyleRun>, start: usize, end: usize) -> (r: bool)
    ensures
        r == placeholder_at(runs@, start as nat, end as nat),
{
    let mut i: usize = 0;
    while i < runs.len()
        invariant
            i <= runs@.len(),
            forall|k: int|
                0 <= k < i ==> !((#[trigger] runs@[k]).start_byte <= start && end
                    <= runs@[k].end_byte && placeholder_run(runs@[k])),
        decreases runs@.len() - i,
    {
        let run: StyleRun = runs[i];
        let faint: bool = match run.foreground {
            None => run.modifiers.dim,
            Some(AnsiColor::BrightBlack) => true,
            Some(AnsiColor::Indexed(n)) => n == 8,
            Some(_) => false,
        };
        assert(faint == placeholder_run(run));
        if run.start_byte <= start && run.end_byte >= end && faint {
            assert(runs@[i as int].start_byte <= start);
            return true;
        }
        i = i + 1;
    }
    false
}

fn is_placeholder(
    chars: &Vec<char>,
    offsets: &Vec<usize>,
    runs: &Vec<StyleRun>,
    chunk: LineRange,
) -> (r: bool)
    requires
        chunk.within(chars@),
        offsets@.len() == chars@.len() + 1,
        forall|i: int| 0 <= i <= chars@.len() ==> #[trigger] offsets@[i] == text::byte_at(chars@, i),
    ensures
        r == placeholder_chunk(chars@, runs@, chunk),
{
    let mut i: usize = chunk.start;
    while i < chunk.end
        invariant
            chunk.within(chars@),
            offsets@.len() == chars@.len() + 1,
            forall|k: int|
                0 <= k <= chars@.len() ==> #[trigger] offsets@[k] == text::byte_at(chars@, k),
            chunk.start <= i <= chunk.end,
            forall|k: int|
                chunk.start <= k < i && !text::white_space(#[trigger] chars@[k]) ==> placeholder_at(
                    runs@,
                    text::byte_at(chars@, k),
                    text::byte_at(chars@, k + 1),
                ),
        decreases chunk.end - i,
    {
        if !text::is_white_space(chars[i]) && !placeholder_style_at(
            runs,
            offsets[i],
            offsets[i + 1],
        ) {
            assert(!text::white_space(chars@[i as int]));
            return false;
        }
        i = i + 1;
    }
    true
}

fn classify_content(surface: &StyledText, pane: &Surface, chunks: &Vec<LineRange>) -> (r:
    NativeComposerState)
    requires
        pane.wf(),
        pane.chars@ == surface.text@,
        forall|i: int| 0 <= i < chunks@.len() ==> (#[trigger] chunks@[i]).within(pane.chars@),
    ensures
        r == content_state(surface.text@, surface.runs@, chunks@),
{
    let content: String = chunk_text(&pane.chars, chunks);
    let chars: Vec<char> = text::chars_of(content.as_str());
    let n: usize = chars.len();
    let (start, end) = text::trim_between(&chars, 0, n);
    proof {
        assert(chars@.subrange(0, n as int) =~= content@);
        text::lemma_blank_is_trimmed_away(content@);
    }
    if start == end {
        return NativeComposerState::Clear;
    }
    if let Some(count) = exact_attachment_count(&chars) {
        return NativeComposerState::OwnedAttachments(count);
    }
    let offsets: Vec<usize> = text::byte_offsets(surface.text.as_str(), &pane.chars);
    let mut i: usize = 0;
    while i < chunks.len()
        invariant
            pane.chars@ == surface.text@,
            i <= chunks@.len(),
            content@ == joined(surface.text@, chunks@, chunks@.len() as int),
            !text::blank(content@),
            exact_count(content@) is None,
            forall|k: int| 0 <= k < chunks@.len() ==> (#[trigger] chunks@[k]).within(pane.chars@),
            offsets@.len() == pane.chars@.len() + 1,
            forall|k: int|
                0 <= k <= pane.chars@.len() ==> #[trigger] offsets@[k] == text::byte_at(
                    pane.chars@,
                    k,
                ),
            forall|k: int|
                0 <= k < i ==> placeholder_chunk(
                    surface.text@,
                    surface.runs@,
                    #[trigger] chunks@[k],
                ),
        decreases chunks@.len() - i,
    {
        if !is_placeholder(&pane.chars, &offsets, &surface.runs, chunks[i]) {
            assert(!placeholder_chunk(surface.text@, surface.runs@, chunks@[i as int]));
            return NativeComposerState::Occupied;
        }
        i = i + 1;
    }
    NativeComposerState::Clear
}

/// What an agent's composer holds, as far as the pane shows it.
pub fn classify_native_composer(kind: AgentKind, surface: &StyledText) -> (r: NativeComposerState)
    ensures
        r == composer_state(kind, surface@),
{
    if !style::valid_styled_text(surface) {
        return NativeComposerState::Unknown;
    }
    let pane: Surface = Surface::new(surface.text.as_str());
    match pane.content(kind) {
        None => NativeComposerState::Unknown,
        Some(chunks) => classify_content(surface, &pane, &chunks),
    }
}

/// The raw text a native composer is showing, markers and all.
///
/// Unlike [`native_composer_parts`] this makes no sense of the content: it is
/// for looking at a composer mid-edit, when the markers and the text are not
/// yet in any tidy order.
pub fn native_composer_content(kind: AgentKind, surface: &StyledText) -> (r: Option<String>)
    ensures
        r is Some == composer_content(kind, surface@) is Some,
        r matches Some(content) ==> composer_content(kind, surface@) == Some(content@),
{
    if !style::valid_styled_text(surface) {
        return None;
    }
    let pane: Surface = Surface::new(surface.text.as_str());
    match pane.content(kind) {
        None => None,
        Some(chunks) => Some(chunk_text(&pane.chars, &chunks)),
    }
}

#[derive(Clone, Debug, PartialEq, Eq)]
pub struct ComposerParts {
    /// The number the pane printed for each image, in the order they appear.
    /// Agents number an image when it is pasted and keep that number for the
    /// rest of the session, so it identifies the image rather than its place.
    pub markers: Vec<usize>,
    pub text: String,
}

impl View for ComposerParts {
    type V = PartsView;

    open spec fn view(&self) -> PartsView {
        PartsView { markers: self.markers@, text: self.text@ }
    }
}

impl ComposerParts {
    pub fn attachments(&self) -> (n: usize)
        ensures
            n == self@.markers.len(),
    {
        self.markers.len()
    }
}

/// What a native composer is holding, split into the images it carries and the
/// text beside them.
///
/// An image cannot be carried anywhere: the marker is a reference to a buffer
/// the overlay has no access to. The text beside it can be lifted out, but only
/// when every marker precedes it.
pub fn native_composer_parts(kind: AgentKind, surface: &StyledText) -> (r: Option<ComposerParts>)
    ensures
        r is Some == composer_parts(kind, surface@) is Some,
        r matches Some(parts) ==> composer_parts(kind, surface@) == Some(parts@),
{
    match classify_native_composer(kind, surface) {
        NativeComposerState::Clear | NativeComposerState::Unknown => {
            return None;
        },
        _ => {},
    }
    let content: String = match native_composer_content(kind, surface) {
        None => {
            return None;
        },
        Some(content) => content,
    };
    let chars: Vec<char> = text::chars_of(content.as_str());
    let n: usize = chars.len();
    match split_attachments(&chars) {
        None => None,
        Some((markers, rest)) => {
            let (start, end) = text::trim_between(&chars, rest, n);
            assert(chars@.subrange(rest as int, n as int) =~= content@.skip(rest as int));
            if markers.len() == 0 && start == end {
                None
            } else {
                Some(ComposerParts { markers, text: text::string_between(&chars, start, end) })
            }
        },
    }
}

/// The text a native composer is holding, if it is holding any.
///
/// Only text the user typed is returned: a placeholder classifies as clear, and
/// attachment markers classify as owned attachments, so neither reaches here.
pub fn native_composer_text(kind: AgentKind, surface: &StyledText) -> (r: Option<String>)
    ensures
        r is Some == (composer_parts(kind, surface@) matches Some(parts) && parts.markers.len()
            == 0),
        r matches Some(held) ==> held@ == composer_parts(kind, surface@).unwrap().text,
{
    match native_composer_parts(kind, surface) {
        Some(parts) => {
            if parts.markers.len() == 0 {
                Some(parts.text)
            } else {
                None
            }
        },
        None => None,
    }
}

/// The numbers of the images that the native composer is holding, when that can
/// be told.
///
/// `None` means the pane could not be read well enough to say, and nothing
/// should be concluded from it.
pub fn native_attachment_markers(kind: AgentKind, surface: &StyledText) -> (r: Option<Vec<usize>>)
    ensures
        composer_state(kind, surface@) is Clear ==> r is Some && r.unwrap()@.len() == 0,
        composer_state(kind, surface@) is Unknown ==> r is None,
        composer_state(kind, surface@) is Occupied || composer_state(
            kind,
            surface@,
        ) is OwnedAttachments ==> {
            &&& r is Some == composer_parts(kind, surface@) is Some
            &&& r matches Some(markers) ==> markers@ == composer_parts(kind, surface@).unwrap().markers
        },
{
    match classify_native_composer(kind, surface) {
        NativeComposerState::Clear => Some(Vec::new()),
        NativeComposerState::Unknown => None,
        _ => {
            match native_composer_parts(kind, surface) {
                None => None,
                Some(parts) => Some(parts.markers),
            }
        },
    }
}

proof fn lemma_count_bound(s: Seq<char>, i: int)
    requires
        0 <= i <= s.len(),
    ensures
        count_from(s, i) matches Some(n) ==> n <= s.len() - i,
    decreases s.len() - i,
{
    let at = ascii_space_end(s, i);
    lemma_ascii_space_end(s, i);
    if at < s.len() && marker_stands(s, at) {
        lemma_digits_end(s, number_start(at));
        lemma_count_bound(s, marker_end(s, at));
    }
}

/// Where a composer holds images and nothing else, the parts that are taken out
/// of it hold as many images as were counted, and no text.
pub proof fn lemma_owned_attachments_are_all_parts(kind: AgentKind, surface: style::StyledView)
    requires
        composer_state(kind, surface) is OwnedAttachments,
        composer_parts(kind, surface) is Some,
        composer_content(kind, surface).unwrap().len() <= usize::MAX,
    ensures
        composer_state(kind, surface) == NativeComposerState::OwnedAttachments(
            composer_parts(kind, surface).unwrap().markers.len() as usize,
        ),
        composer_parts(kind, surface).unwrap().text.len() == 0,
{
    let content = composer_content(kind, surface).unwrap();
    lemma_count_agrees_with_markers(content, 0);
    lemma_count_bound(content, 0);
    text::lemma_blank_is_trimmed_away(content.skip(rest_from(content, 0)));
}

/// A composer that holds images the overlay owns and nothing else is ready for
/// exactly that many images.
pub proof fn lemma_ready_for_exactly_the_owned_images(state: NativeComposerState, expected: usize)
    ensures
        state.access_spec(expected) is Ready <==> (state is Clear && expected == 0) || state
            == NativeComposerState::OwnedAttachments(expected),
        state.access_spec(expected) is Unknown <==> state is Unknown,
{
}

// ---------------------------------------------------------------------------
// What the content is
// ---------------------------------------------------------------------------

/// What an agent's composer opens with.
pub open spec fn marker_of(kind: AgentKind) -> char {
    match kind {
        AgentKind::Codex => '›',
        AgentKind::Claude => '❯',
    }
}

/// Whether the first line of a composer holds this much: what stands behind the
/// marker and the white space that follows it.
pub open spec fn first_line_holds(kind: AgentKind, drawn: Seq<char>, part: Seq<char>) -> bool {
    &&& drawn.len() > 0
    &&& drawn[0] == marker_of(kind)
    &&& drawn.len() > 1 ==> text::white_space(drawn[1]) && part == drawn.skip(2)
    &&& drawn.len() == 1 ==> part.len() == 0
}

/// Whether a further line of a composer holds this much: all of it, but for the
/// two spaces that Codex indents it by.
pub open spec fn further_line_holds(kind: AgentKind, drawn: Seq<char>, part: Seq<char>) -> bool {
    match kind {
        AgentKind::Codex => (drawn.len() == 0 && part.len() == 0) || drawn == seq![' ', ' '] + part,
        AgentKind::Claude => part == drawn,
    }
}

/// Whether the lines from `first` up to `end` are those of the composer, by what
/// stands below them and around them.
pub open spec fn composer_between(
    kind: AgentKind,
    s: Seq<char>,
    lines: Seq<LineRange>,
    first: int,
    end: int,
) -> bool {
    &&& 0 <= first < end < lines.len()
    &&& prompt_line(lines[first].of(s), marker_of(kind))
    &&& match kind {
        AgentKind::Codex => {
            &&& codex_footer(lines[end].of(s))
            &&& forall|i: int| end < i < lines.len() ==> !codex_footer(#[trigger] lines[i].of(s))
            &&& forall|i: int|
                end < i < lines.len() ==> below_codex_footer(#[trigger] lines[i].of(s))
            &&& forall|i: int|
                first < i < end ==> !prompt_line(#[trigger] lines[i].of(s), marker_of(kind))
        },
        AgentKind::Claude => {
            &&& claude_rule(lines[end].of(s))
            &&& forall|i: int| end < i < lines.len() ==> !claude_rule(#[trigger] lines[i].of(s))
            &&& forall|i: int|
                end < i < lines.len() ==> !native_chrome::opens_with_any(
                    #[trigger] lines[i].of(s),
                    native_chrome::claude_bullets(),
                )
            &&& exists|open: int| #[trigger] box_opens(s, lines, open, first, end)
        },
    }
}

/// Whether the line at `open` is the upper rule of the prompt box whose prompt is
/// the line at `first`.
pub open spec fn box_opens(
    s: Seq<char>,
    lines: Seq<LineRange>,
    open: int,
    first: int,
    end: int,
) -> bool {
    &&& 0 <= open < first
    &&& claude_rule(lines[open].of(s))
    &&& forall|i: int| open < i < end ==> !claude_rule(#[trigger] lines[i].of(s))
    &&& forall|i: int|
        open < i < first ==> text::blank(#[trigger] lines[i].of(s)) && !prompt_line(
            lines[i].of(s),
            marker_of(AgentKind::Claude),
        )
}

/// Whether some content is what the lines from `first` up to `end` hold: as many
/// lines as they are, the first one first, and each what its line holds.
pub open spec fn reads_off(
    kind: AgentKind,
    s: Seq<char>,
    lines: Seq<LineRange>,
    first: int,
    end: int,
    content: Seq<char>,
) -> bool {
    let parts = text::pieces(content, '\n');
    &&& parts.len() == end - first
    &&& first_line_holds(kind, lines[first].of(s), parts[0].of(content))
    &&& forall|k: int|
        0 < k < parts.len() ==> further_line_holds(
            kind,
            lines[first + k].of(s),
            #[trigger] parts[k].of(content),
        )
}

/// Splitting what was joined gives back the parts in their order.
proof fn lemma_joined_splits(s: Seq<char>, chunks: Seq<LineRange>, n: int)
    requires
        0 < n <= chunks.len(),
        forall|i: int| 0 <= i < n ==> (#[trigger] chunks[i]).within(s),
        forall|i: int, k: int|
            0 <= i < n && (#[trigger] chunks[i]).start <= k < chunks[i].end ==> #[trigger] s[k]
                != '\n',
        joined(s, chunks, n).len() <= usize::MAX,
    ensures
        text::pieces(joined(s, chunks, n), '\n').len() == n,
        forall|i: int|
            0 <= i < n ==> (#[trigger] text::pieces(joined(s, chunks, n), '\n')[i]).of(
                joined(s, chunks, n),
            ) == chunks[i].of(s),
    decreases n,
{
    let content = joined(s, chunks, n);
    let parts = text::pieces(content, '\n');
    let added = chunks[n - 1].of(s);
    assert(chunks[n - 1].within(s));
    assert forall|k: int| 0 <= k < added.len() implies #[trigger] added[k] != '\n' by {
        assert(added[k] == s[chunks[n - 1].start + k]);
    }
    if n == 1 {
        text::lemma_one_more_piece(Seq::empty(), '\n', Seq::empty());
        assert(content.len() == added.len());
        if added.len() + 1 <= usize::MAX {
            text::lemma_one_more_piece(Seq::empty(), '\n', added);
        } else {
            lemma_single_piece(added);
        }
        assert(parts[0].of(content) =~= added);
    } else {
        lemma_joined_splits(s, chunks, n - 1);
        let before = joined(s, chunks, n - 1);
        text::lemma_one_more_piece(before, '\n', added);
        text::lemma_pieces_within(before, '\n');
        let earlier = text::pieces(before, '\n');
        assert forall|i: int| 0 <= i < n implies (#[trigger] parts[i]).of(content)
            == chunks[i].of(s) by {
            if i < n - 1 {
                assert(parts[i] == earlier[i]);
                assert(earlier[i].within(before));
                assert(earlier[i].of(content) =~= earlier[i].of(before));
            } else {
                assert(parts[i].of(content) =~= added);
            }
        }
    }
}

proof fn lemma_single_piece(s: Seq<char>)
    requires
        forall|k: int| 0 <= k < s.len() ==> #[trigger] s[k] != '\n',
        s.len() <= usize::MAX,
    ensures
        text::pieces(s, '\n') == seq![text::range(0, s.len() as int)],
{
    text::lemma_pieces_make_up_the_text(s, '\n');
    let parts = text::pieces(s, '\n');
    if parts.len() > 1 {
        assert(s[parts[1 - 1].end as int] == '\n' && parts[1].start == parts[0].end + 1);
    }
    assert(parts =~= seq![text::range(0, s.len() as int)]);
}

proof fn lemma_last_codex_footer(s: Seq<char>, lines: Seq<LineRange>, n: int)
    ensures
        match last_codex_footer(s, lines, n) {
            Some(at) => 0 <= at < n && codex_footer(lines[at].of(s)) && forall|i: int|
                at < i < n ==> !codex_footer(#[trigger] lines[i].of(s)),
            None => forall|i: int| 0 <= i < n ==> !codex_footer(#[trigger] lines[i].of(s)),
        },
    decreases n,
{
    if n > 0 {
        lemma_last_codex_footer(s, lines, n - 1);
    }
}

proof fn lemma_last_claude_rule(s: Seq<char>, lines: Seq<LineRange>, n: int)
    ensures
        match last_claude_rule(s, lines, n) {
            Some(at) => 0 <= at < n && claude_rule(lines[at].of(s)) && forall|i: int|
                at < i < n ==> !claude_rule(#[trigger] lines[i].of(s)),
            None => forall|i: int| 0 <= i < n ==> !claude_rule(#[trigger] lines[i].of(s)),
        },
    decreases n,
{
    if n > 0 {
        lemma_last_claude_rule(s, lines, n - 1);
    }
}

proof fn lemma_last_prompt_is_last(s: Seq<char>, lines: Seq<LineRange>, marker: char, n: int)
    ensures
        match last_prompt(s, lines, marker, n) {
            Some(at) => 0 <= at < n && prompt_line(lines[at].of(s), marker) && forall|i: int|
                at < i < n ==> !prompt_line(#[trigger] lines[i].of(s), marker),
            None => forall|i: int| 0 <= i < n ==> !prompt_line(#[trigger] lines[i].of(s), marker),
        },
    decreases n,
{
    if n > 0 {
        lemma_last_prompt_is_last(s, lines, marker, n - 1);
    }
}

proof fn lemma_first_prompt_is_first(
    s: Seq<char>,
    lines: Seq<LineRange>,
    marker: char,
    from: int,
    n: int,
)
    ensures
        match first_prompt(s, lines, marker, from, n) {
            Some(at) => from <= at < n && prompt_line(lines[at].of(s), marker) && forall|i: int|
                from <= i < at ==> !prompt_line(#[trigger] lines[i].of(s), marker),
            None => forall|i: int|
                from <= i < n ==> !prompt_line(#[trigger] lines[i].of(s), marker),
        },
    decreases n - from,
{
    if from < n {
        lemma_first_prompt_is_first(s, lines, marker, from + 1, n);
    }
}

/// What the chunk of a further line of Codex's composer is.
pub open spec fn indented_chunk(s: Seq<char>, line: LineRange) -> LineRange {
    if line.of(s).len() == 0 {
        line
    } else {
        text::range(line.start + 2, line.end as int)
    }
}

/// Whether a line is indented as a further line of Codex's composer is.
pub open spec fn indented(drawn: Seq<char>) -> bool {
    drawn.len() == 0 || (drawn.len() >= 2 && drawn[0] == ' ' && drawn[1] == ' ')
}

proof fn lemma_indented(drawn: Seq<char>)
    ensures
        "  "@.len() == 2,
        drawn.len() > 0 ==> "  "@.is_prefix_of(drawn) == indented(drawn),
{
    reveal_strlit("  ");
    assert("  "@.len() == 2 && "  "@[0] == ' ' && "  "@[1] == ' ');
    if "  "@.is_prefix_of(drawn) {
        assert(drawn.subrange(0, 2)[0] == drawn[0] && drawn.subrange(0, 2)[1] == drawn[1]);
    } else if drawn.len() > 0 && indented(drawn) {
        assert(drawn.subrange(0, 2) =~= "  "@);
    }
}

proof fn lemma_indented_chunks(s: Seq<char>, lines: Seq<LineRange>, from: int, n: int)
    requires
        0 <= from <= n <= lines.len(),
    ensures
        indented_chunks(s, lines, from, n) is Some <==> forall|i: int|
            from <= i < n ==> indented(#[trigger] lines[i].of(s)),
        indented_chunks(s, lines, from, n) is Some ==> {
            let rest = indented_chunks(s, lines, from, n).unwrap();
            &&& rest.len() == n - from
            &&& forall|i: int|
                from <= i < n ==> rest[i - from] == indented_chunk(s, #[trigger] lines[i])
        },
    decreases n - from,
{
    if n > from {
        lemma_indented_chunks(s, lines, from, n - 1);
        lemma_indented(lines[n - 1].of(s));
        if indented_chunks(s, lines, from, n) is Some {
            let before = indented_chunks(s, lines, from, n - 1).unwrap();
            let rest = indented_chunks(s, lines, from, n).unwrap();
            assert forall|i: int| from <= i < n implies rest[i - from] == indented_chunk(
                s,
                #[trigger] lines[i],
            ) by {
                if i < n - 1 {
                    assert(rest[i - from] == before[i - from]);
                } else {
                    assert(rest[i - from] == rest.last());
                }
            }
        } else if indented_chunks(s, lines, from, n - 1) is Some {
            assert(!indented(lines[n - 1].of(s)));
        }
    }
}

proof fn lemma_pane_lines(s: Seq<char>)
    requires
        s.len() <= usize::MAX,
    ensures
        forall|i: int|
            0 <= i < text::line_pieces(s).len() ==> (#[trigger] text::line_pieces(s)[i]).within(s),
        forall|i: int, k: int|
            0 <= i < text::line_pieces(s).len() && (#[trigger] text::line_pieces(s)[i]).start <= k
                < text::line_pieces(s)[i].end ==> #[trigger] s[k] != '\n',
{
    text::lemma_pieces_make_up_the_text(s, '\n');
}

/// Whether some chunks are what the lines from `first` up to `end` hold.
spec fn chunks_of_lines(
    kind: AgentKind,
    s: Seq<char>,
    lines: Seq<LineRange>,
    first: int,
    end: int,
    chunks: Seq<LineRange>,
) -> bool {
    &&& chunks.len() == end - first
    &&& chunks.len() > 0
    &&& first_line_holds(kind, lines[first].of(s), chunks[0].of(s))
    &&& forall|k: int|
        0 < k < chunks.len() ==> further_line_holds(
            kind,
            lines[first + k].of(s),
            #[trigger] chunks[k].of(s),
        )
    &&& forall|i: int| 0 <= i < chunks.len() ==> (#[trigger] chunks[i]).within(s)
    &&& forall|i: int, k: int|
        0 <= i < chunks.len() && (#[trigger] chunks[i]).start <= k < chunks[i].end
            ==> #[trigger] s[k] != '\n'
}

proof fn lemma_first_chunk(kind: AgentKind, s: Seq<char>, line: LineRange)
    requires
        line.within(s),
        prompt_line(line.of(s), marker_of(kind)),
    ensures
        ({
            let chunk = prompt_chunk(s, line, marker_of(kind));
            &&& chunk.within(s)
            &&& line.start <= chunk.start
            &&& chunk.end == line.end
            &&& first_line_holds(kind, line.of(s), chunk.of(s))
        }),
{
    let chunk = prompt_chunk(s, line, marker_of(kind));
    let drawn = line.of(s);
    if drawn.len() > 1 {
        assert(chunk.of(s) =~= drawn.skip(2));
    }
}

proof fn lemma_codex_chunks(s: Seq<char>)
    requires
        s.len() <= usize::MAX,
    ensures
        codex_chunks(s, text::line_pieces(s)) matches Some(chunks) ==> exists|first: int, end: int|
            #[trigger] composer_between(
                AgentKind::Codex,
                s,
                text::line_pieces(s),
                first,
                end,
            ) && chunks_of_lines(AgentKind::Codex, s, text::line_pieces(s), first, end, chunks),
{
    let lines = text::line_pieces(s);
    let n = lines.len() as int;
    lemma_pane_lines(s);
    if let Some(chunks) = codex_chunks(s, lines) {
        lemma_last_codex_footer(s, lines, n);
        let end = last_codex_footer(s, lines, n).unwrap();
        lemma_last_prompt_is_last(s, lines, '›', end);
        let first = last_prompt(s, lines, '›', end).unwrap();
        lemma_indented_chunks(s, lines, first + 1, end);
        lemma_first_chunk(AgentKind::Codex, s, lines[first]);
        let rest = indented_chunks(s, lines, first + 1, end).unwrap();
        assert forall|i: int| end < i < n implies below_codex_footer(
            #[trigger] lines[i].of(s),
        ) by {}
        assert(composer_between(AgentKind::Codex, s, lines, first, end));
        assert forall|i: int| 0 <= i < chunks.len() implies (#[trigger] chunks[i]).within(s)
            && lines[first + i].start <= chunks[i].start && chunks[i].end == lines[first + i].end by {
            if i > 0 {
                assert(chunks[i] == rest[i - 1]);
                assert(rest[first + i - (first + 1)] == indented_chunk(s, lines[first + i]));
                assert(lines[first + i].within(s));
                assert(indented(lines[first + i].of(s)));
            }
        }
        assert forall|i: int, k: int|
            0 <= i < chunks.len() && (#[trigger] chunks[i]).start <= k < chunks[i].end
            implies #[trigger] s[k] != '\n' by {
            assert(lines[first + i].start <= k < lines[first + i].end);
        }
        assert forall|k: int| 0 < k < chunks.len() implies further_line_holds(
            AgentKind::Codex,
            lines[first + k].of(s),
            #[trigger] chunks[k].of(s),
        ) by {
            assert(chunks[k] == rest[k - 1]);
            let drawn = lines[first + k].of(s);
            assert(rest[first + k - (first + 1)] == indented_chunk(s, lines[first + k]));
            assert(lines[first + k].within(s));
            assert(indented(drawn));
            if drawn.len() > 0 {
                assert(drawn =~= seq![' ', ' '] + chunks[k].of(s));
            }
        }
        assert(chunks_of_lines(AgentKind::Codex, s, lines, first, end, chunks));
    }
}

proof fn lemma_claude_chunks(s: Seq<char>)
    requires
        s.len() <= usize::MAX,
    ensures
        claude_chunks(s, text::line_pieces(s)) matches Some(chunks) ==> exists|first: int, end: int|
            #[trigger] composer_between(
                AgentKind::Claude,
                s,
                text::line_pieces(s),
                first,
                end,
            ) && chunks_of_lines(AgentKind::Claude, s, text::line_pieces(s), first, end, chunks),
{
    let lines = text::line_pieces(s);
    let n = lines.len() as int;
    lemma_pane_lines(s);
    if let Some(chunks) = claude_chunks(s, lines) {
        lemma_last_claude_rule(s, lines, n);
        let end = last_claude_rule(s, lines, n).unwrap();
        lemma_last_claude_rule(s, lines, end);
        let open = last_claude_rule(s, lines, end).unwrap();
        lemma_first_prompt_is_first(s, lines, '❯', open + 1, end);
        let first = first_prompt(s, lines, '❯', open + 1, end).unwrap();
        lemma_first_chunk(AgentKind::Claude, s, lines[first]);
        assert forall|i: int| end < i < n implies !native_chrome::opens_with_any(
            #[trigger] lines[i].of(s),
            native_chrome::claude_bullets(),
        ) by {}
        assert forall|i: int| open < i < first implies text::blank(#[trigger] lines[i].of(s))
            && !prompt_line(lines[i].of(s), marker_of(AgentKind::Claude)) by {}
        assert(box_opens(s, lines, open, first, end));
        assert(composer_between(AgentKind::Claude, s, lines, first, end));
        assert forall|i: int| 0 <= i < chunks.len() implies (#[trigger] chunks[i]).within(s)
            && lines[first + i].start <= chunks[i].start && chunks[i].end == lines[first + i].end by {
            if i > 0 {
                assert(chunks[i] == lines[first + i]);
            }
        }
        assert forall|i: int, k: int|
            0 <= i < chunks.len() && (#[trigger] chunks[i]).start <= k < chunks[i].end
            implies #[trigger] s[k] != '\n' by {
            assert(lines[first + i].start <= k < lines[first + i].end);
        }
        assert forall|k: int| 0 < k < chunks.len() implies further_line_holds(
            AgentKind::Claude,
            lines[first + k].of(s),
            #[trigger] chunks[k].of(s),
        ) by {
            assert(chunks[k] == lines[first + k]);
        }
        assert(chunks_of_lines(AgentKind::Claude, s, lines, first, end, chunks));
    }
}

/// The content read off a composer is what its lines hold, in the order in which
/// they stand in the pane and with one line feed between neighbours: splitting it
/// at its line feeds gives back the lines, the first one first.
pub proof fn lemma_content_is_the_lines_of_the_composer(
    kind: AgentKind,
    surface: style::StyledView,
)
    requires
        surface.text.len() <= usize::MAX,
        composer_content(kind, surface) matches Some(content) ==> content.len() <= usize::MAX,
    ensures
        composer_content(kind, surface) matches Some(content) ==> exists|first: int, end: int|
            #[trigger] composer_between(
                kind,
                surface.text,
                text::line_pieces(surface.text),
                first,
                end,
            ) && reads_off(
                kind,
                surface.text,
                text::line_pieces(surface.text),
                first,
                end,
                content,
            ),
{
    let s = surface.text;
    let lines = text::line_pieces(s);
    if let Some(content) = composer_content(kind, surface) {
        let chunks = content_chunks(kind, s).unwrap();
        match kind {
            AgentKind::Codex => lemma_codex_chunks(s),
            AgentKind::Claude => lemma_claude_chunks(s),
        }
        let (first, end) = choose|first: int, end: int|
            #[trigger] composer_between(kind, s, lines, first, end) && chunks_of_lines(
                kind,
                s,
                lines,
                first,
                end,
                chunks,
            );
        lemma_joined_splits(s, chunks, chunks.len() as int);
        let parts = text::pieces(content, '\n');
        assert(parts[0].of(content) == chunks[0].of(s));
        assert forall|k: int| 0 < k < parts.len() implies further_line_holds(
            kind,
            lines[first + k].of(s),
            #[trigger] parts[k].of(content),
        ) by {
            assert(parts[k].of(content) == chunks[k].of(s));
        }
        assert(reads_off(kind, s, lines, first, end, content));
    }
}

/// A composer is read wherever its lines can be told: where they stand as they do
/// in an agent's pane, there is content.
pub proof fn lemma_composer_is_found(
    kind: AgentKind,
    surface: style::StyledView,
    first: int,
    end: int,
)
    requires
        surface.text.len() <= usize::MAX,
        style::runs_valid(surface.text, surface.runs),
        composer_between(kind, surface.text, text::line_pieces(surface.text), first, end),
        kind is Codex ==> forall|i: int|
            first < i < end ==> indented(
                #[trigger] text::line_pieces(surface.text)[i].of(surface.text),
            ),
    ensures
        composer_content(kind, surface) is Some,
{
    let s = surface.text;
    let lines = text::line_pieces(s);
    let n = lines.len() as int;
    lemma_pane_lines(s);
    match kind {
        AgentKind::Codex => {
            lemma_last_codex_footer(s, lines, n);
            assert(codex_footer(lines[end].of(s)));
            let footer = last_codex_footer(s, lines, n).unwrap();
            assert(codex_footer(lines[footer].of(s)));
            assert(footer == end);
            lemma_last_prompt_is_last(s, lines, '›', end);
            assert(prompt_line(lines[first].of(s), '›'));
            let prompt = last_prompt(s, lines, '›', end).unwrap();
            assert(prompt_line(lines[prompt].of(s), '›'));
            assert(prompt == first);
            lemma_indented_chunks(s, lines, first + 1, end);
            assert forall|i: int| first + 1 <= i < end implies indented(
                #[trigger] lines[i].of(s),
            ) by {}
        },
        AgentKind::Claude => {
            let open = choose|open: int| #[trigger] box_opens(s, lines, open, first, end);
            lemma_last_claude_rule(s, lines, n);
            assert(claude_rule(lines[end].of(s)));
            let close = last_claude_rule(s, lines, n).unwrap();
            assert(claude_rule(lines[close].of(s)));
            assert(close == end);
            lemma_last_claude_rule(s, lines, end);
            assert(claude_rule(lines[open].of(s)));
            let upper = last_claude_rule(s, lines, end).unwrap();
            assert(claude_rule(lines[upper].of(s)));
            assert(upper == open);
            lemma_first_prompt_is_first(s, lines, '❯', open + 1, end);
            assert(prompt_line(lines[first].of(s), '❯'));
            let prompt = first_prompt(s, lines, '❯', open + 1, end).unwrap();
            assert(prompt_line(lines[prompt].of(s), '❯'));
            assert(prompt == first);
        },
    }
}

/// Whether the marker of the image with this number stands from `at` up to the
/// bracket at `to`.
pub open spec fn image_stands(content: Seq<char>, at: int, to: int, number: usize) -> bool {
    &&& 0 <= at
    &&& at + 8 < to < content.len()
    &&& content.subrange(at, at + 8) == seq!['[', 'I', 'm', 'a', 'g', 'e', ' ', '#']
    &&& text::all_digits(content.subrange(at + 8, to))
    &&& text::decimal(content.subrange(at + 8, to)) == number
    &&& content[to] == ']'
}

/// Whether nothing but white space stands between two places.
pub open spec fn gap(content: Seq<char>, from: int, to: int) -> bool {
    &&& 0 <= from <= to <= content.len()
    &&& forall|k: int| from <= k < to ==> text::white_space(#[trigger] content[k])
}

/// Whether images stand in some content from `from` up to `end`, one behind the
/// other with nothing but white space around them.
#[verifier::opaque]
pub open spec fn images_stand(
    content: Seq<char>,
    markers: Seq<usize>,
    places: Seq<(int, int)>,
    from: int,
    end: int,
) -> bool {
    &&& places.len() == markers.len()
    &&& forall|i: int|
        0 <= i < markers.len() ==> image_stands(
            content,
            (#[trigger] places[i]).0,
            places[i].1,
            markers[i],
        )
    &&& forall|i: int|
        0 <= i < markers.len() ==> gap(
            content,
            if i == 0 {
                from
            } else {
                places[i - 1].1 + 1
            },
            (#[trigger] places[i]).0,
        )
    &&& gap(
        content,
        if markers.len() == 0 {
            from
        } else {
            places.last().1 + 1
        },
        end,
    )
}

proof fn lemma_space_end_is_a_gap(s: Seq<char>, i: int)
    requires
        0 <= i <= s.len(),
    ensures
        gap(s, i, space_end(s, i)),
        space_end(s, i) < s.len() ==> !text::white_space(s[space_end(s, i)]),
    decreases s.len() - i,
{
    if i < s.len() && text::white_space(s[i]) {
        lemma_space_end_is_a_gap(s, i + 1);
    }
}

proof fn lemma_marker_stands_is_an_image(s: Seq<char>, at: int)
    requires
        0 <= at,
        marker_stands(s, at),
        marker_number(s, at) <= usize::MAX,
    ensures
        image_stands(
            s,
            at,
            digits_end(s, number_start(at)),
            marker_number(s, at) as usize,
        ),
        marker_end(s, at) == digits_end(s, number_start(at)) + 1,
        number_start(at) == at + 8,
{
    reveal_strlit("[Image #");
    let m = attachment_marker();
    assert(m =~= seq!['[', 'I', 'm', 'a', 'g', 'e', ' ', '#']);
    assert(s.subrange(at, at + 8) == m);
    lemma_digits_end(s, number_start(at));
    let digits = s.subrange(at + 8, digits_end(s, at + 8));
    assert forall|k: int| 0 <= k < digits.len() implies text::ascii_digit(#[trigger] digits[k]) by {
        assert(digits[k] == s[at + 8 + k]);
    }
}

proof fn lemma_one_more_image(
    s: Seq<char>,
    number: usize,
    at: int,
    to: int,
    later: Seq<usize>,
    rest: Seq<(int, int)>,
    from: int,
    end: int,
)
    requires
        images_stand(s, later, rest, to + 1, end),
        image_stands(s, at, to, number),
        gap(s, from, at),
    ensures
        images_stand(s, seq![number] + later, seq![(at, to)] + rest, from, end),
{
    reveal(images_stand);
    let places = seq![(at, to)] + rest;
    let markers = seq![number] + later;
    assert forall|k: int| 0 <= k < markers.len() implies image_stands(
        s,
        (#[trigger] places[k]).0,
        places[k].1,
        markers[k],
    ) && gap(
        s,
        if k == 0 {
            from
        } else {
            places[k - 1].1 + 1
        },
        places[k].0,
    ) by {
        if k > 0 {
            assert(places[k] == rest[k - 1]);
            assert(markers[k] == later[k - 1]);
            assert(image_stands(s, rest[k - 1].0, rest[k - 1].1, later[k - 1]));
            if k > 1 {
                assert(places[k - 1] == rest[k - 2]);
            }
        }
    }
    if later.len() > 0 {
        assert(places.last() == rest.last());
    } else {
        assert(places.last() == (at, to));
    }
}

proof fn lemma_markers_stand(s: Seq<char>, i: int) -> (places: Seq<(int, int)>)
    requires
        0 <= i <= s.len(),
    ensures
        images_stand(s, markers_from(s, i), places, i, rest_from(s, i)),
        i <= rest_from(s, i) <= s.len(),
        rest_from(s, i) < s.len() ==> !text::white_space(s[rest_from(s, i)]),
    decreases s.len() - i,
{
    lemma_space_end_is_a_gap(s, i);
    if numbered_marker(s, i) {
        let at = space_end(s, i);
        lemma_marker_stands_is_an_image(s, at);
        let to = digits_end(s, number_start(at));
        let number = marker_number(s, at) as usize;
        let rest = lemma_markers_stand(s, to + 1);
        let later = markers_from(s, to + 1);
        lemma_one_more_image(s, number, at, to, later, rest, i, rest_from(s, to + 1));
        assert(markers_from(s, i) == seq![number] + later);
        seq![(at, to)] + rest
    } else {
        reveal(images_stand);
        Seq::empty()
    }
}

/// Whether some content is made of images and the text behind them: the images
/// open it, in their order and with nothing but white space around them; the text
/// is all that follows but for the white space at its ends, and no image stands
/// in it.
pub open spec fn made_of(content: Seq<char>, parts: PartsView) -> bool {
    exists|places: Seq<(int, int)>, a: int, b: int|
        {
            &&& #[trigger] images_stand(content, parts.markers, places, 0, a)
            &&& #[trigger] gap(content, b, content.len() as int)
            &&& a <= b
            &&& parts.text == content.subrange(a, b)
            &&& parts.text.len() > 0 ==> !text::white_space(parts.text[0]) && !text::white_space(
                parts.text.last(),
            )
            &&& forall|k: int|
                a <= k ==> !(#[trigger] text::holds_at(content, k, attachment_marker()))
        }
}

proof fn lemma_text_behind_the_images(content: Seq<char>, rest: int) -> (b: int)
    requires
        0 <= rest <= content.len(),
        rest < content.len() ==> !text::white_space(content[rest]),
    ensures
        rest <= b <= content.len(),
        gap(content, b, content.len() as int),
        text::trim(content.skip(rest)) == content.subrange(rest, b),
        b > rest ==> !text::white_space(content[rest]) && !text::white_space(content[b - 1]),
{
    let tail = content.skip(rest);
    let (x, y) = text::lemma_trim_cuts_white_space_only(tail);
    if rest < content.len() {
        assert(tail[0] == content[rest]);
        if x > 0 {
            assert(text::white_space(tail.take(x)[0]));
        }
    }
    let b = rest + y;
    assert(x == 0);
    assert(text::trim(tail) =~= content.subrange(rest, b));
    assert forall|k: int| b <= k < content.len() implies text::white_space(#[trigger] content[k]) by {
        assert(tail.skip(y)[k - b] == content[k]);
    }
    b
}

/// What is taken out of a composer is what it holds: the images in their order,
/// and behind them the whole text.
pub proof fn lemma_parts_make_up_the_content(content: Seq<char>)
    ensures
        split_content(content) matches Some(parts) ==> made_of(content, parts) && (
        parts.markers.len() > 0 || parts.text.len() > 0),
{
    if let Some(parts) = split_content(content) {
        let rest = rest_from(content, 0);
        let places = lemma_markers_stand(content, 0);
        let b = lemma_text_behind_the_images(content, rest);
        assert(parts.text == content.subrange(rest, b));
        assert(images_stand(content, parts.markers, places, 0, rest));
    }
}

/// A draft that is taken out of a composer is what its lines read: images and
/// text are those of the content, which is never blank where there are any.
pub proof fn lemma_parts_are_those_of_the_composer(kind: AgentKind, surface: style::StyledView)
    ensures
        composer_parts(kind, surface) matches Some(parts) ==> (composer_content(
            kind,
            surface,
        ) matches Some(content) && made_of(content, parts) && !text::blank(content)),
        composer_parts(kind, surface) is Some ==> !(composer_state(kind, surface) is Clear)
            && !(composer_state(kind, surface) is Unknown),
{
    if let Some(parts) = composer_parts(kind, surface) {
        let content = composer_content(kind, surface).unwrap();
        lemma_parts_make_up_the_content(content);
    }
}

/// What a composer holds is told by its content alone: nothing to be seen, or all
/// of it as faint as a placeholder, is a clear composer; what could be read and is
/// neither is not; and what could not be read is never taken for either.
pub proof fn lemma_clear_means_nothing_typed(kind: AgentKind, surface: style::StyledView)
    ensures
        composer_state(kind, surface) is Unknown <==> composer_content(kind, surface) is None,
        composer_content(kind, surface) matches Some(content) && text::blank(content)
            ==> composer_state(kind, surface) is Clear,
        composer_state(kind, surface) is Clear ==> (composer_content(kind, surface) matches Some(
            content,
        ) && (text::blank(content) || forall|c: int, i: int|
            0 <= c < content_chunks(kind, surface.text).unwrap().len() && content_chunks(
                kind,
                surface.text,
            ).unwrap()[c].start <= i < (#[trigger] content_chunks(
                kind,
                surface.text,
            ).unwrap()[c]).end && !text::white_space(#[trigger] surface.text[i]) ==> exists|r: int|
                0 <= r < surface.runs.len() && (#[trigger] surface.runs[r]).start_byte
                    <= text::byte_at(surface.text, i) && text::byte_at(surface.text, i + 1)
                    <= surface.runs[r].end_byte && (surface.runs[r].foreground == Some(
                    AnsiColor::BrightBlack,
                ) || surface.runs[r].foreground == Some(AnsiColor::Indexed(8)) || (
                surface.runs[r].foreground is None && surface.runs[r].modifiers.dim)))),
{
    if composer_state(kind, surface) is Clear {
        let content = composer_content(kind, surface).unwrap();
        let chunks = content_chunks(kind, surface.text).unwrap();
        if !text::blank(content) {
            assert forall|c: int, i: int|
                0 <= c < chunks.len() && chunks[c].start <= i < (#[trigger] chunks[c]).end
                    && !text::white_space(#[trigger] surface.text[i]) implies exists|r: int|
                0 <= r < surface.runs.len() && (#[trigger] surface.runs[r]).start_byte
                    <= text::byte_at(surface.text, i) && text::byte_at(surface.text, i + 1)
                    <= surface.runs[r].end_byte && (surface.runs[r].foreground == Some(
                    AnsiColor::BrightBlack,
                ) || surface.runs[r].foreground == Some(AnsiColor::Indexed(8)) || (
                surface.runs[r].foreground is None && surface.runs[r].modifiers.dim)) by {
                assert(placeholder_chunk(surface.text, surface.runs, chunks[c]));
                assert(placeholder_at(
                    surface.runs,
                    text::byte_at(surface.text, i),
                    text::byte_at(surface.text, i + 1),
                ));
            }
        }
    }
}


/// A composer may be written to with one number of images of its own at most: none where
/// it is clear, those that it shows where it shows images alone. One that holds anything
/// else, or could not be read, may not.
pub proof fn lemma_written_to_with_its_own_images(state: NativeComposerState, a: usize, b: usize)
    ensures
        state.access_spec(a) is Ready && state.access_spec(b) is Ready ==> a == b,
        NativeComposerState::Clear.access_spec(0) is Ready,
        NativeComposerState::OwnedAttachments(a).access_spec(a) is Ready,
        state.access_spec(a) is Ready ==> state is Clear || state is OwnedAttachments,
        state.access_spec(a) is Unknown <==> state is Unknown,
{
}

}
