//! The styled final answer, found again in a captured pane.
//!
//! The transcript says what an answer reads. The pane says how the agent drew
//! it. The two are joined only where the pane shows exactly one region that
//! reads as the transcript does and that stands at the tail of the pane.

use super::sanitize_ansi;
use crate::agent::AgentKind;
use crate::ansi;
use crate::ansi::captured;
use crate::native_chrome;
use crate::style;
use crate::style::{StyleRun, StyledText};
use crate::text;
use crate::text::LineRange;
use vstd::prelude::*;

verus! {

/// What an agent prints below its composer.
#[derive(Clone, Copy, Debug, PartialEq, Eq, Structural)]
pub enum TrailingRule {
    /// Codex ends with a real `model · cwd` footer.
    KnownFooter,
    /// The other agent ends with a closing rule and chrome that names neither the model
    /// nor the working directory, so authorship is all there is to check.
    AgentFree,
}

/// How an agent frames an answer in its pane.
pub struct NativeChrome {
    pub role_prefixes: Vec<&'static str>,
    pub continuation_prefixes: Vec<&'static str>,
    pub separator_min_width: usize,
    pub trailing_boundary_prefixes: Vec<&'static str>,
    pub composer_marker: char,
    pub trailing: TrailingRule,
}

pub ghost struct ChromeView {
    pub role_prefixes: Seq<Seq<char>>,
    pub continuation_prefixes: Seq<Seq<char>>,
    pub separator_min_width: nat,
    pub trailing_boundary_prefixes: Seq<Seq<char>>,
    pub composer_marker: char,
    pub trailing: TrailingRule,
}

impl View for NativeChrome {
    type V = ChromeView;

    open spec fn view(&self) -> ChromeView {
        ChromeView {
            role_prefixes: native_chrome::literals(self.role_prefixes@),
            continuation_prefixes: native_chrome::literals(self.continuation_prefixes@),
            separator_min_width: self.separator_min_width as nat,
            trailing_boundary_prefixes: native_chrome::literals(self.trailing_boundary_prefixes@),
            composer_marker: self.composer_marker,
            trailing: self.trailing,
        }
    }
}

/// The chrome of each agent.
pub open spec fn chrome_of(kind: AgentKind) -> ChromeView {
    match kind {
        AgentKind::Codex => ChromeView {
            role_prefixes: seq!["• "@],
            continuation_prefixes: seq!["  "@],
            separator_min_width: 8,
            trailing_boundary_prefixes: seq!["─ Worked for "@],
            composer_marker: '›',
            trailing: TrailingRule::KnownFooter,
        },
        AgentKind::Claude => ChromeView {
            role_prefixes: native_chrome::claude_bullets(),
            continuation_prefixes: seq!["  "@],
            separator_min_width: 16,
            trailing_boundary_prefixes: Seq::empty(),
            composer_marker: '❯',
            trailing: TrailingRule::AgentFree,
        },
    }
}

fn chrome_for(kind: AgentKind) -> (r: NativeChrome)
    ensures
        r@ == chrome_of(kind),
{
    let mut continuation_prefixes: Vec<&'static str> = Vec::new();
    continuation_prefixes.push("  ");
    assert(native_chrome::literals(continuation_prefixes@) =~= seq!["  "@]);
    match kind {
        AgentKind::Codex => {
            let mut role_prefixes: Vec<&'static str> = Vec::new();
            role_prefixes.push("• ");
            assert(native_chrome::literals(role_prefixes@) =~= seq!["• "@]);
            let mut trailing_boundary_prefixes: Vec<&'static str> = Vec::new();
            trailing_boundary_prefixes.push("─ Worked for ");
            assert(native_chrome::literals(trailing_boundary_prefixes@) =~= seq!["─ Worked for "@]);
            NativeChrome {
                role_prefixes,
                continuation_prefixes,
                separator_min_width: 8,
                trailing_boundary_prefixes,
                composer_marker: '›',
                trailing: TrailingRule::KnownFooter,
            }
        },
        AgentKind::Claude => {
            let trailing_boundary_prefixes: Vec<&'static str> = Vec::new();
            assert(native_chrome::literals(trailing_boundary_prefixes@) =~= Seq::<
                Seq<char>,
            >::empty());
            NativeChrome {
                role_prefixes: native_chrome::claude_role_prefixes(),
                continuation_prefixes,
                separator_min_width: 16,
                trailing_boundary_prefixes,
                composer_marker: '❯',
                trailing: TrailingRule::AgentFree,
            }
        },
    }
}

// ---------------------------------------------------------------------------
// Lines of a pane
// ---------------------------------------------------------------------------

/// How long the first prefix is that a line opens with.
pub open spec fn opening(line: Seq<char>, prefixes: Seq<Seq<char>>) -> Option<nat>
    decreases prefixes.len(),
{
    if prefixes.len() == 0 {
        None
    } else if prefixes[0].is_prefix_of(line) {
        Some(prefixes[0].len())
    } else {
        opening(line, prefixes.skip(1))
    }
}

fn opening_len(line: &str, prefixes: &Vec<&'static str>) -> (r: Option<usize>)
    ensures
        r is Some == opening(line@, native_chrome::literals(prefixes@)) is Some,
        r matches Some(n) ==> n <= line@.len() && opening(
            line@,
            native_chrome::literals(prefixes@),
        ) == Some(n as nat),
{
    let ghost all = native_chrome::literals(prefixes@);
    let mut i: usize = 0;
    assert(all.skip(0) =~= all);
    while i < prefixes.len()
        invariant
            all == native_chrome::literals(prefixes@),
            i <= prefixes@.len(),
            opening(line@, all.skip(i as int)) == opening(line@, all),
        decreases prefixes@.len() - i,
    {
        let ghost rest = all.skip(i as int);
        assert(rest[0] == all[i as int]);
        assert(rest.skip(1) =~= all.skip(i + 1));
        if native_chrome::starts_with(line, prefixes[i]) {
            let prefix: Vec<char> = text::chars_of(prefixes[i]);
            return Some(prefix.len());
        }
        i = i + 1;
    }
    None
}

/// A separator with a label in it, such as `─ Worked for 3s ────`.
pub open spec fn decorated_boundary(line: Seq<char>, prefix: Seq<char>, minimum: nat) -> bool {
    &&& line.len() >= minimum
    &&& prefix.is_prefix_of(line)
    &&& exists|k: int| labelled_at(line.skip(prefix.len() as int), k)
}

/// Whether the last space of a text is at `k`, with an elapsed time before it
/// and nothing but the rule behind it.
pub open spec fn labelled_at(rest: Seq<char>, k: int) -> bool {
    &&& 0 <= k < rest.len()
    &&& rest[k] == ' '
    &&& native_chrome::elapsed_label(rest.take(k))
    &&& rest.skip(k + 1).len() > 0
    &&& native_chrome::all_rule(rest.skip(k + 1))
}

fn matches_decorated_boundary(line: &str, prefix: &str, minimum_width: usize) -> (r: bool)
    ensures
        r == decorated_boundary(line@, prefix@, minimum_width as nat),
{
    let chars: Vec<char> = text::chars_of(line);
    if chars.len() < minimum_width || !native_chrome::starts_with(line, prefix) {
        return false;
    }
    let start: usize = text::chars_of(prefix).len();
    let ghost rest = line@.skip(start as int);
    let n: usize = chars.len();
    let mut at: usize = n;
    while at > start && chars[at - 1] != ' '
        invariant
            chars@ == line@,
            n == chars@.len(),
            start <= at <= n,
            forall|k: int| at <= k < n ==> #[trigger] chars@[k] != ' ',
        decreases at,
    {
        at = at - 1;
    }
    if at == start {
        assert forall|k: int| !labelled_at(rest, k) by {
            if 0 <= k < rest.len() {
                assert(rest[k] == chars@[start + k]);
            }
        }
        return false;
    }
    let label: String = text::string_between(&chars, start, at - 1);
    proof {
        let k0 = at - 1 - start;
        assert(label@ =~= rest.take(k0));
        assert(chars@.skip(at as int) =~= rest.skip(k0 + 1));
        assert(rest[k0] == ' ');
        assert forall|k: int| labelled_at(rest, k) implies k == k0 by {
            assert(rest[k] == chars@[start + k]);
            if k < k0 {
                assert(rest.skip(k + 1)[k0 - k - 1] == rest[k0]);
            }
        }
    }
    let ok: bool = native_chrome::valid_elapsed_label(label.as_str()) && at < n
        && native_chrome::is_all_rule(&chars, at);
    if ok {
        assert(labelled_at(rest, at - 1 - start));
    }
    ok
}

/// Whether a line closes an answer.
pub open spec fn trailing_boundary(line: Seq<char>, chrome: ChromeView) -> bool {
    native_chrome::pure_separator(line, chrome.separator_min_width) || exists|i: int|
        0 <= i < chrome.trailing_boundary_prefixes.len() && decorated_boundary(
            line,
            #[trigger] chrome.trailing_boundary_prefixes[i],
            chrome.separator_min_width,
        )
}

fn is_trailing_boundary(line: &str, chrome: &NativeChrome) -> (r: bool)
    ensures
        r == trailing_boundary(line@, chrome@),
{
    if native_chrome::is_pure_separator(line, chrome.separator_min_width) {
        return true;
    }
    let mut i: usize = 0;
    while i < chrome.trailing_boundary_prefixes.len()
        invariant
            i <= chrome.trailing_boundary_prefixes@.len(),
            forall|k: int|
                0 <= k < i ==> !decorated_boundary(
                    line@,
                    #[trigger] chrome@.trailing_boundary_prefixes[k],
                    chrome@.separator_min_width,
                ),
        decreases chrome.trailing_boundary_prefixes@.len() - i,
    {
        let here: bool = matches_decorated_boundary(
            line,
            chrome.trailing_boundary_prefixes[i],
            chrome.separator_min_width,
        );
        assert(chrome@.trailing_boundary_prefixes[i as int]
            == chrome.trailing_boundary_prefixes@[i as int]@);
        if here {
            return true;
        }
        i = i + 1;
    }
    false
}

/// Whether a line is the agent's composer.
pub open spec fn composer_line(line: Seq<char>, chrome: ChromeView) -> bool {
    native_chrome::content_index(line, chrome.composer_marker) is Some
}

fn is_composer_line(line: &str, chrome: &NativeChrome) -> (r: bool)
    ensures
        r == composer_line(line@, chrome@),
{
    native_chrome::composer_content_index(line, chrome.composer_marker).is_some()
}

/// The lines from `from` up to `n` that hold something.
pub open spec fn filled(s: Seq<char>, lines: Seq<LineRange>, from: int, n: int) -> Seq<Seq<char>>
    decreases n - from,
{
    if n <= from {
        Seq::empty()
    } else if text::blank(lines[n - 1].of(s)) {
        filled(s, lines, from, n - 1)
    } else {
        filled(s, lines, from, n - 1).push(lines[n - 1].of(s))
    }
}

/// Whether all of these lines are the agent's own chrome.
pub open spec fn chrome_only(trailing: Seq<Seq<char>>, chrome: ChromeView) -> bool {
    match chrome.trailing {
        TrailingRule::KnownFooter => trailing.len() == 0 || {
            &&& native_chrome::known_footer(trailing[0])
            &&& forall|i: int|
                1 <= i < trailing.len() ==> native_chrome::known_footer(#[trigger] trailing[i])
                    || native_chrome::footer_continuation(trailing[i])
        },
        TrailingRule::AgentFree => forall|i: int|
            0 <= i < trailing.len() ==> !native_chrome::opens_with_any(
                #[trigger] trailing[i],
                chrome.role_prefixes,
            ),
    }
}

/// Everything below the composer has to be the agent's own chrome, so that a
/// matched region is really the tail of the pane and not an older answer.
fn trailing_is_chrome(
    chars: &Vec<char>,
    lines: &Vec<LineRange>,
    from: usize,
    chrome: &NativeChrome,
) -> (r: bool)
    requires
        from <= lines@.len(),
        forall|i: int| 0 <= i < lines@.len() ==> (#[trigger] lines@[i]).within(chars@),
    ensures
        r == chrome_only(filled(chars@, lines@, from as int, lines@.len() as int), chrome@),
{
    let mut trailing: Vec<String> = Vec::new();
    let mut i: usize = from;
    while i < lines.len()
        invariant
            from <= i <= lines@.len(),
            forall|k: int| 0 <= k < lines@.len() ==> (#[trigger] lines@[k]).within(chars@),
            text::texts(trailing@) =~= filled(chars@, lines@, from as int, i as int),
        decreases lines@.len() - i,
    {
        let (start, end) = text::trim_between(chars, lines[i].start, lines[i].end);
        proof {
            text::lemma_blank_is_trimmed_away(lines@[i as int].of(chars@));
        }
        if start < end {
            trailing.push(native_chrome::line_text(chars, lines[i]));
        }
        i = i + 1;
    }
    let ghost t = filled(chars@, lines@, from as int, lines@.len() as int);
    assert(trailing@.len() == t.len());
    assert forall|k: int| 0 <= k < trailing@.len() implies (#[trigger] trailing@[k])@ == t[k] by {
        assert(text::texts(trailing@)[k] == trailing@[k]@);
    }
    let mut k: usize = 0;
    while k < trailing.len()
        invariant
            k <= trailing@.len(),
            trailing@.len() == t.len(),
            forall|j: int| 0 <= j < trailing@.len() ==> (#[trigger] trailing@[j])@ == t[j],
            t == filled(chars@, lines@, from as int, lines@.len() as int),
            chrome.trailing is KnownFooter ==> (k > 0 ==> native_chrome::known_footer(t[0])),
            chrome.trailing is KnownFooter ==> forall|j: int|
                1 <= j < k ==> native_chrome::known_footer(#[trigger] t[j])
                    || native_chrome::footer_continuation(t[j]),
            chrome.trailing is AgentFree ==> forall|j: int|
                0 <= j < k ==> !native_chrome::opens_with_any(
                    #[trigger] t[j],
                    chrome@.role_prefixes,
                ),
        decreases trailing@.len() - k,
    {
        let line: &str = trailing[k].as_str();
        assert(line@ == t[k as int]);
        match chrome.trailing {
            TrailingRule::KnownFooter => {
                if !native_chrome::is_known_footer(line) && (k == 0
                    || !native_chrome::is_known_footer_continuation(line)) {
                    return false;
                }
            },
            TrailingRule::AgentFree => {
                if native_chrome::starts_with_any(line, &chrome.role_prefixes) {
                    return false;
                }
            },
        }
        k = k + 1;
    }
    true
}

// ---------------------------------------------------------------------------
// Runs, moved from the pane to the answer
// ---------------------------------------------------------------------------

/// Bytes of the pane, and the byte of the answer that the first of them
/// becomes.
#[derive(Clone, Copy, Debug, PartialEq, Eq, Structural)]
pub struct Mapping {
    pub start: usize,
    pub end: usize,
    pub destination: usize,
}

pub open spec fn mapping(start: nat, end: nat, destination: nat) -> Mapping {
    Mapping { start: start as usize, end: end as usize, destination: destination as usize }
}

/// Whether the answer can hold what is moved there.
pub open spec fn mapping_fits(m: Mapping) -> bool {
    m.start <= m.end && m.destination + (m.end - m.start) <= usize::MAX
}

/// Where the part of a run that lies in a mapping starts.
pub open spec fn moved_start(run: StyleRun, m: Mapping) -> int {
    if run.start_byte < m.start {
        m.start as int
    } else {
        run.start_byte as int
    }
}

/// Where the part of a run that lies in a mapping ends.
pub open spec fn moved_end(run: StyleRun, m: Mapping) -> int {
    if run.end_byte < m.end {
        run.end_byte as int
    } else {
        m.end as int
    }
}

/// The part of a run that a mapping moves, where it moves any.
pub open spec fn moved_run(run: StyleRun, m: Mapping) -> Option<StyleRun> {
    let start = moved_start(run, m);
    let end = moved_end(run, m);
    if start >= end {
        None
    } else {
        Some(
            style::run_over(
                (m.destination + (start - m.start)) as nat,
                (m.destination + (end - m.start)) as nat,
                run.style_spec(),
            ),
        )
    }
}

/// The runs so far, and behind them what one mapping moves of the first `n`
/// runs.
pub open spec fn moved_runs(
    runs: Seq<StyleRun>,
    m: Mapping,
    n: int,
    before: Seq<StyleRun>,
) -> Seq<StyleRun>
    decreases n,
{
    if n <= 0 {
        before
    } else {
        match moved_run(runs[n - 1], m) {
            None => moved_runs(runs, m, n - 1, before),
            Some(run) => style::merge_run(moved_runs(runs, m, n - 1, before), run),
        }
    }
}

/// What the first `n` mappings move of the runs.
pub open spec fn sliced_runs(runs: Seq<StyleRun>, mappings: Seq<Mapping>, n: int) -> Seq<StyleRun>
    decreases n,
{
    if n <= 0 {
        Seq::empty()
    } else {
        moved_runs(
            runs,
            mappings[n - 1],
            runs.len() as int,
            sliced_runs(runs, mappings, n - 1),
        )
    }
}

fn slice_mapped_runs(runs: &Vec<StyleRun>, mappings: &Vec<Mapping>) -> (r: Vec<StyleRun>)
    requires
        forall|i: int| 0 <= i < mappings@.len() ==> mapping_fits(#[trigger] mappings@[i]),
    ensures
        r@ == sliced_runs(runs@, mappings@, mappings@.len() as int),
{
    let mut sliced: Vec<StyleRun> = Vec::new();
    let mut i: usize = 0;
    while i < mappings.len()
        invariant
            i <= mappings@.len(),
            forall|k: int| 0 <= k < mappings@.len() ==> mapping_fits(#[trigger] mappings@[k]),
            sliced@ == sliced_runs(runs@, mappings@, i as int),
        decreases mappings@.len() - i,
    {
        let m: Mapping = mappings[i];
        let ghost before = sliced@;
        let mut k: usize = 0;
        while k < runs.len()
            invariant
                k <= runs@.len(),
                mapping_fits(m),
                sliced@ == moved_runs(runs@, m, k as int, before),
            decreases runs@.len() - k,
        {
            let run: StyleRun = runs[k];
            let start: usize = if run.start_byte < m.start {
                m.start
            } else {
                run.start_byte
            };
            let end: usize = if run.end_byte < m.end {
                run.end_byte
            } else {
                m.end
            };
            if start < end {
                let moved = StyleRun {
                    start_byte: m.destination + (start - m.start),
                    end_byte: m.destination + (end - m.start),
                    foreground: run.foreground,
                    background: run.background,
                    modifiers: run.modifiers,
                };
                style::push_run(&mut sliced, moved);
            }
            k = k + 1;
        }
        i = i + 1;
    }
    sliced
}

// ---------------------------------------------------------------------------
// An answer drawn line for line
// ---------------------------------------------------------------------------

/// The prefixes that may open the line `offset` of an answer.
pub open spec fn prefixes_at(chrome: ChromeView, offset: int) -> Seq<Seq<char>> {
    if offset == 0 {
        chrome.role_prefixes
    } else {
        chrome.continuation_prefixes
    }
}

/// Where the content of a drawn line starts, where it can be a line of an
/// answer at all. An empty line is drawn without a prefix.
pub open spec fn content_at(
    line: Seq<char>,
    expected: Seq<char>,
    prefixes: Seq<Seq<char>>,
) -> Option<nat> {
    if line.len() == 0 && expected.len() == 0 {
        Some(0)
    } else {
        opening(line, prefixes)
    }
}

/// Whether a drawn line shows exactly the expected one.
pub open spec fn shows(line: Seq<char>, expected: Seq<char>, prefixes: Seq<Seq<char>>) -> bool {
    content_at(line, expected, prefixes) matches Some(n) && line.skip(n as int) == expected
}

/// Whether the answer stands between a rule at `b` and a trailing boundary
/// right above the composer, line for line.
pub open spec fn strict_at(
    s: Seq<char>,
    lines: Seq<LineRange>,
    expected: Seq<char>,
    chrome: ChromeView,
    b: int,
) -> bool {
    let parts = text::pieces(expected, '\n');
    let trailing = b + 1 + parts.len();
    &&& native_chrome::pure_separator(lines[b].of(s), chrome.separator_min_width)
    &&& trailing + 1 < lines.len()
    &&& trailing_boundary(lines[trailing].of(s), chrome)
    &&& composer_line(lines[trailing + 1].of(s), chrome)
    &&& forall|k: int|
        0 <= k < parts.len() ==> shows(
            lines[b + 1 + k].of(s),
            #[trigger] parts[k].of(expected),
            prefixes_at(chrome, k),
        )
}

/// How the first `n` lines of the answer map onto the lines from `first` on,
/// with the line feed between two of them.
pub open spec fn line_mappings(
    s: Seq<char>,
    lines: Seq<LineRange>,
    expected: Seq<char>,
    chrome: ChromeView,
    first: int,
    n: int,
) -> Seq<Mapping>
    decreases n,
{
    if n <= 0 {
        Seq::empty()
    } else {
        let parts = text::pieces(expected, '\n');
        let drawn = lines[first + n - 1];
        let part = parts[n - 1];
        let start = content_at(drawn.of(s), part.of(expected), prefixes_at(chrome, n - 1)).unwrap();
        let upto = line_mappings(s, lines, expected, chrome, first, n - 1).push(
            mapping(
                text::byte_at(s, drawn.start + start),
                text::byte_at(s, drawn.end as int),
                text::byte_at(expected, part.start as int),
            ),
        );
        if n < parts.len() {
            upto.push(
                mapping(
                    text::byte_at(s, drawn.end as int),
                    text::byte_at(s, drawn.end + 1),
                    text::byte_at(expected, part.end as int),
                ),
            )
        } else {
            upto
        }
    }
}

/// The runs of the answer, and the line of the composer below it.
pub ghost struct Candidate {
    pub runs: Seq<StyleRun>,
    pub composer: int,
}

/// The candidates below the first `n` lines.
pub open spec fn strict_candidates(
    s: Seq<char>,
    runs: Seq<StyleRun>,
    lines: Seq<LineRange>,
    expected: Seq<char>,
    chrome: ChromeView,
    n: int,
) -> Seq<Candidate>
    decreases n,
{
    if n <= 0 {
        Seq::empty()
    } else {
        let before = strict_candidates(s, runs, lines, expected, chrome, n - 1);
        if strict_at(s, lines, expected, chrome, n - 1) {
            let count = text::pieces(expected, '\n').len() as int;
            let mappings = line_mappings(s, lines, expected, chrome, n, count);
            before.push(
                Candidate {
                    runs: sliced_runs(runs, mappings, mappings.len() as int),
                    composer: n + count + 1,
                },
            )
        } else {
            before
        }
    }
}

/// A candidate with its runs at hand.
struct FoundCandidate {
    runs: Vec<StyleRun>,
    composer: usize,
}

spec fn candidates_of(v: Seq<FoundCandidate>) -> Seq<Candidate> {
    Seq::new(v.len(), |i: int| Candidate { runs: v[i].runs@, composer: v[i].composer as int })
}

/// A captured pane, ready to be looked up by line.
struct Pane {
    chars: Vec<char>,
    offsets: Vec<usize>,
    runs: Vec<StyleRun>,
    lines: Vec<LineRange>,
}

impl Pane {
    spec fn wf(self) -> bool {
        &&& self.offsets@.len() == self.chars@.len() + 1
        &&& forall|i: int|
            0 <= i <= self.chars@.len() ==> #[trigger] self.offsets@[i] == text::byte_at(
                self.chars@,
                i,
            )
        &&& self.lines@ == text::line_pieces(self.chars@)
        &&& self.chars@.len() <= usize::MAX
    }

    proof fn lines_within(self)
        requires
            self.wf(),
        ensures
            forall|i: int| 0 <= i < self.lines@.len() ==> (#[trigger] self.lines@[i]).within(self.chars@),
            forall|i: int|
                0 <= i < self.lines@.len() - 1 ==> (#[trigger] self.lines@[i]).end < self.chars@.len()
                    && self.chars@[self.lines@[i].end as int] == '\n',
    {
        text::lemma_pieces_within(self.chars@, '\n');
    }

    fn line(&self, i: usize) -> (r: String)
        requires
            self.wf(),
            i < self.lines@.len(),
        ensures
            r@ == self.lines@[i as int].of(self.chars@),
    {
        proof {
            self.lines_within();
        }
        native_chrome::line_text(&self.chars, self.lines[i])
    }
}

/// The answer as the transcript gives it, ready to be looked up by line.
struct Expected {
    chars: Vec<char>,
    offsets: Vec<usize>,
    parts: Vec<LineRange>,
}

impl Expected {
    spec fn wf(self) -> bool {
        &&& self.offsets@.len() == self.chars@.len() + 1
        &&& forall|i: int|
            0 <= i <= self.chars@.len() ==> #[trigger] self.offsets@[i] == text::byte_at(
                self.chars@,
                i,
            )
        &&& self.parts@ == text::pieces(self.chars@, '\n')
        &&& self.chars@.len() <= usize::MAX
        &&& forall|i: int| 0 <= i < self.parts@.len() ==> (#[trigger] self.parts@[i]).within(self.chars@)
    }
}

/// Whether the line at `at` shows one line of the answer, and from where.
fn shown_from(pane: &Pane, at: usize, expected: &Expected, k: usize, chrome: &NativeChrome) -> (r:
    Option<usize>)
    requires
        pane.wf(),
        expected.wf(),
        at < pane.lines@.len(),
        k < expected.parts@.len(),
    ensures
        r is Some == shows(
            pane.lines@[at as int].of(pane.chars@),
            expected.parts@[k as int].of(expected.chars@),
            prefixes_at(chrome@, k as int),
        ),
        r matches Some(n) ==> n <= pane.lines@[at as int].of(pane.chars@).len() && content_at(
            pane.lines@[at as int].of(pane.chars@),
            expected.parts@[k as int].of(expected.chars@),
            prefixes_at(chrome@, k as int),
        ) == Some(n as nat),
{
    let line: String = pane.line(at);
    let part: LineRange = expected.parts[k];
    let wanted: String = native_chrome::line_text(&expected.chars, part);
    let drawn: Vec<char> = text::chars_of(line.as_str());
    let n: usize = drawn.len();
    let start: usize = if n == 0 && part.start == part.end {
        0
    } else {
        let found: Option<usize> = if k == 0 {
            opening_len(line.as_str(), &chrome.role_prefixes)
        } else {
            opening_len(line.as_str(), &chrome.continuation_prefixes)
        };
        match found {
            None => {
                return None;
            },
            Some(start) => start,
        }
    };
    let content: String = text::string_between(&drawn, start, n);
    assert(content@ =~= line@.skip(start as int));
    if text::same_text(content.as_str(), wanted.as_str()) {
        Some(start)
    } else {
        None
    }
}

/// The mappings of an answer that stands below the rule at `b`.
fn strict_mappings(pane: &Pane, expected: &Expected, chrome: &NativeChrome, b: usize) -> (r: Option<
    Vec<Mapping>,
>)
    requires
        pane.wf(),
        expected.wf(),
        b < pane.lines@.len(),
    ensures
        r is Some == strict_at(pane.chars@, pane.lines@, expected.chars@, chrome@, b as int),
        r matches Some(m) ==> m@ == line_mappings(
            pane.chars@,
            pane.lines@,
            expected.chars@,
            chrome@,
            b + 1,
            expected.parts@.len() as int,
        ) && forall|i: int| 0 <= i < m@.len() ==> mapping_fits(#[trigger] m@[i]),
{
    let ghost s = pane.chars@;
    let ghost lines = pane.lines@;
    let ghost e = expected.chars@;
    let ghost parts = expected.parts@;
    let above: String = pane.line(b);
    if !native_chrome::is_pure_separator(above.as_str(), chrome.separator_min_width) {
        return None;
    }
    let count: usize = expected.parts.len();
    let total: usize = pane.lines.len();
    if total - b <= count || total - b - count <= 2 {
        return None;
    }
    let first: usize = b + 1;
    let trailing: usize = first + count;
    let closing: String = pane.line(trailing);
    let below: String = pane.line(trailing + 1);
    if !is_trailing_boundary(closing.as_str(), chrome) || !is_composer_line(
        below.as_str(),
        chrome,
    ) {
        return None;
    }
    let mut mappings: Vec<Mapping> = Vec::new();
    let mut k: usize = 0;
    while k < count
        invariant
            s == pane.chars@,
            lines == pane.lines@,
            e == expected.chars@,
            parts == expected.parts@,
            pane.wf(),
            expected.wf(),
            count == parts.len(),
            total == lines.len(),
            first == b + 1,
            first + count + 1 < total,
            k <= count,
            forall|j: int|
                0 <= j < k ==> shows(
                    lines[first + j].of(s),
                    #[trigger] parts[j].of(e),
                    prefixes_at(chrome@, j),
                ),
            mappings@ == line_mappings(s, lines, e, chrome@, first as int, k as int),
            forall|i: int| 0 <= i < mappings@.len() ==> mapping_fits(#[trigger] mappings@[i]),
        decreases count - k,
    {
        let drawn: LineRange = pane.lines[first + k];
        let part: LineRange = expected.parts[k];
        let start: usize = match shown_from(pane, first + k, expected, k, chrome) {
            None => {
                assert(!shows(lines[b + 1 + k].of(s), parts[k as int].of(e), prefixes_at(chrome@, k as int)));
                return None;
            },
            Some(start) => start,
        };
        proof {
            pane.lines_within();
            text::lemma_pieces_within(e, '\n');
            let content = lines[first + k].of(s).skip(start as int);
            assert(content =~= s.subrange(drawn.start + start, drawn.end as int));
            text::lemma_byte_len_subrange(s, drawn.start + start, drawn.end as int);
            text::lemma_byte_len_subrange(e, part.start as int, part.end as int);
            text::lemma_byte_at_monotone(s, drawn.start + start, drawn.end as int);
            assert(expected.offsets@[part.start as int] == text::byte_at(e, part.start as int));
            assert(expected.offsets@[part.end as int] == text::byte_at(e, part.end as int));
        }
        let here = Mapping {
            start: pane.offsets[drawn.start + start],
            end: pane.offsets[drawn.end],
            destination: expected.offsets[part.start],
        };
        assert(mapping_fits(here));
        mappings.push(here);
        if k + 1 < count {
            proof {
                text::lemma_byte_at_step(s, drawn.end as int);
                text::lemma_byte_at_step(e, part.end as int);
                assert(expected.offsets@[part.end + 1] == text::byte_at(e, part.end + 1));
            }
            let feed = Mapping {
                start: pane.offsets[drawn.end],
                end: pane.offsets[drawn.end + 1],
                destination: expected.offsets[part.end],
            };
            assert(mapping_fits(feed));
            mappings.push(feed);
        }
        k = k + 1;
    }
    Some(mappings)
}

fn strict_final_candidates(pane: &Pane, expected: &Expected, chrome: &NativeChrome) -> (r: Vec<
    FoundCandidate,
>)
    requires
        pane.wf(),
        expected.wf(),
    ensures
        candidates_of(r@) == strict_candidates(
            pane.chars@,
            pane.runs@,
            pane.lines@,
            expected.chars@,
            chrome@,
            pane.lines@.len() as int,
        ),
        forall|i: int| 0 <= i < r@.len() ==> (#[trigger] r@[i]).composer < pane.lines@.len(),
{
    let mut r: Vec<FoundCandidate> = Vec::new();
    let mut b: usize = 0;
    while b < pane.lines.len()
        invariant
            pane.wf(),
            expected.wf(),
            b <= pane.lines@.len(),
            candidates_of(r@) =~= strict_candidates(
                pane.chars@,
                pane.runs@,
                pane.lines@,
                expected.chars@,
                chrome@,
                b as int,
            ),
            forall|i: int| 0 <= i < r@.len() ==> (#[trigger] r@[i]).composer < pane.lines@.len(),
        decreases pane.lines@.len() - b,
    {
        if let Some(mappings) = strict_mappings(pane, expected, chrome, b) {
            let runs: Vec<StyleRun> = slice_mapped_runs(&pane.runs, &mappings);
            let count: usize = expected.parts.len();
            let bound: usize = pane.lines.len();
            assert(b + count + 2 < bound);
            r.push(FoundCandidate { runs, composer: b + count + 2 });
        }
        b = b + 1;
    }
    r
}

// ---------------------------------------------------------------------------
// An answer drawn with more line breaks
// ---------------------------------------------------------------------------

/// The indices of the characters between two indices that are not white space.
pub open spec fn solid(s: Seq<char>, from: int, to: int) -> Seq<int>
    decreases to - from,
{
    if to <= from {
        Seq::empty()
    } else if text::white_space(s[to - 1]) {
        solid(s, from, to - 1)
    } else {
        solid(s, from, to - 1).push(to - 1)
    }
}

/// The solid characters of the content of the lines from `first` up to `n`,
/// where each of them can be a line of an answer.
pub open spec fn solid_lines(
    s: Seq<char>,
    lines: Seq<LineRange>,
    chrome: ChromeView,
    first: int,
    n: int,
) -> Option<Seq<int>>
    decreases n - first,
{
    if n <= first {
        Some(Seq::empty())
    } else {
        match solid_lines(s, lines, chrome, first, n - 1) {
            None => None,
            Some(before) => {
                let line = lines[n - 1];
                if line.of(s).len() == 0 {
                    Some(before)
                } else {
                    match opening(line.of(s), prefixes_at(chrome, n - 1 - first)) {
                        None => None,
                        Some(start) => Some(before + solid(s, line.start + start, line.end as int)),
                    }
                }
            },
        }
    }
}

/// Whether two lists of indices pick the same characters.
pub open spec fn same_solids(s: Seq<char>, source: Seq<int>, t: Seq<char>, target: Seq<int>) -> bool {
    &&& source.len() == target.len()
    &&& forall|i: int| 0 <= i < source.len() ==> s[#[trigger] source[i]] == t[target[i]]
}

/// What a line shows of an answer.
pub open spec fn line_content(line: Seq<char>, prefixes: Seq<Seq<char>>) -> Seq<char> {
    match opening(line, prefixes) {
        Some(start) => line.skip(start as int),
        None => Seq::empty(),
    }
}

/// What the lines from `first` up to `n` show of an answer.
pub open spec fn drawn_text(
    s: Seq<char>,
    lines: Seq<LineRange>,
    chrome: ChromeView,
    first: int,
    n: int,
) -> Seq<char>
    decreases n - first,
{
    if n <= first {
        Seq::empty()
    } else {
        let here = line_content(lines[n - 1].of(s), prefixes_at(chrome, n - 1 - first));
        if n - 1 == first {
            here
        } else {
            drawn_text(s, lines, chrome, first, n - 1).push('\n') + here
        }
    }
}

/// Whether a character that is drawn stands for one of the answer: for itself,
/// or where a line was broken for the space at which it was.
pub open spec fn stands_for(drawn: char, expected: char) -> bool {
    drawn == expected || (drawn == '\n' && expected == ' ')
}

/// Whether what is drawn is the answer, character by character, with line breaks
/// in place of some of its spaces and with nothing below it but empty lines.
pub open spec fn reads_as(drawn: Seq<char>, expected: Seq<char>) -> bool {
    &&& expected.len() <= drawn.len()
    &&& forall|i: int|
        0 <= i < expected.len() ==> stands_for(#[trigger] drawn[i], expected[i])
    &&& forall|i: int| expected.len() <= i < drawn.len() ==> #[trigger] drawn[i] == '\n'
}

/// The runs of an answer that is drawn from `first` up to `trailing` with line
/// breaks of its own.
pub open spec fn reflowed_runs(
    s: Seq<char>,
    runs: Seq<StyleRun>,
    lines: Seq<LineRange>,
    expected: Seq<char>,
    chrome: ChromeView,
    first: int,
    trailing: int,
) -> Option<Seq<StyleRun>> {
    match solid_lines(s, lines, chrome, first, trailing) {
        None => None,
        Some(source) => {
            let target = solid(expected, 0, expected.len() as int);
            if target.len() > 0 && same_solids(s, source, expected, target) && reads_as(
                drawn_text(s, lines, chrome, first, trailing),
                expected,
            ) {
                let mappings = Seq::new(
                    source.len(),
                    |i: int|
                        mapping(
                            text::byte_at(s, source[i]),
                            text::byte_at(s, source[i] + 1),
                            text::byte_at(expected, target[i]),
                        ),
                );
                Some(sliced_runs(runs, mappings, mappings.len() as int))
            } else {
                None
            }
        },
    }
}

/// The candidates that end at `trailing` and start on one of the first `n`
/// lines.
pub open spec fn reflow_candidates_at(
    s: Seq<char>,
    runs: Seq<StyleRun>,
    lines: Seq<LineRange>,
    expected: Seq<char>,
    chrome: ChromeView,
    trailing: int,
    n: int,
) -> Seq<Candidate>
    decreases n,
{
    if n <= 0 {
        Seq::empty()
    } else {
        let before = reflow_candidates_at(s, runs, lines, expected, chrome, trailing, n - 1);
        if native_chrome::opens_with_any(lines[n - 1].of(s), chrome.role_prefixes) {
            match reflowed_runs(s, runs, lines, expected, chrome, n - 1, trailing) {
                None => before,
                Some(found) => before.push(Candidate { runs: found, composer: trailing + 1 }),
            }
        } else {
            before
        }
    }
}

/// The candidates that end at one of the first `n` lines.
pub open spec fn reflow_candidates(
    s: Seq<char>,
    runs: Seq<StyleRun>,
    lines: Seq<LineRange>,
    expected: Seq<char>,
    chrome: ChromeView,
    n: int,
) -> Seq<Candidate>
    decreases n,
{
    if n <= 0 {
        Seq::empty()
    } else {
        let before = reflow_candidates(s, runs, lines, expected, chrome, n - 1);
        if trailing_boundary(lines[n - 1].of(s), chrome) && n < lines.len() && composer_line(
            lines[n].of(s),
            chrome,
        ) {
            before + reflow_candidates_at(s, runs, lines, expected, chrome, n - 1, n - 1)
        } else {
            before
        }
    }
}

proof fn lemma_solid(s: Seq<char>, from: int, to: int)
    requires
        0 <= from <= to <= s.len(),
    ensures
        forall|i: int| 0 <= i < solid(s, from, to).len() ==> from <= #[trigger] solid(s, from, to)[i] < to,
    decreases to - from,
{
    if from < to {
        lemma_solid(s, from, to - 1);
        let before = solid(s, from, to - 1);
        let here = solid(s, from, to);
        assert forall|i: int| 0 <= i < here.len() implies from <= #[trigger] here[i] < to by {
            if i < before.len() {
                assert(here[i] == before[i]);
            }
        }
    }
}

spec fn indices(v: Seq<usize>) -> Seq<int> {
    Seq::new(v.len(), |i: int| v[i] as int)
}

/// Appends the indices of the solid characters between two indices.
fn push_solids(chars: &Vec<char>, start: usize, end: usize, found: &mut Vec<usize>)
    requires
        start <= end <= chars@.len(),
        forall|i: int| 0 <= i < old(found)@.len() ==> (#[trigger] old(found)@[i]) < chars@.len(),
    ensures
        indices(final(found)@) == indices(old(found)@) + solid(chars@, start as int, end as int),
        forall|i: int| 0 <= i < final(found)@.len() ==> (#[trigger] final(found)@[i]) < chars@.len(),
{
    let mut i: usize = start;
    assert(indices(found@) =~= indices(old(found)@) + solid(chars@, start as int, start as int));
    while i < end
        invariant
            start <= i <= end <= chars@.len(),
            indices(found@) == indices(old(found)@) + solid(chars@, start as int, i as int),
            forall|k: int| 0 <= k < found@.len() ==> (#[trigger] found@[k]) < chars@.len(),
        decreases end - i,
    {
        if !text::is_white_space(chars[i]) {
            let ghost before = found@;
            found.push(i);
            assert(indices(found@) =~= indices(before).push(i as int));
            assert(indices(found@) =~= indices(old(found)@) + solid(chars@, start as int, i + 1));
        }
        i = i + 1;
    }
}

/// The solid characters of the content of some lines.
fn solids_of_lines(pane: &Pane, chrome: &NativeChrome, first: usize, trailing: usize) -> (r: Option<
    Vec<usize>,
>)
    requires
        pane.wf(),
        first <= trailing <= pane.lines@.len(),
    ensures
        r is Some == solid_lines(
            pane.chars@,
            pane.lines@,
            chrome@,
            first as int,
            trailing as int,
        ) is Some,
        r matches Some(v) ==> Some(indices(v@)) == solid_lines(
            pane.chars@,
            pane.lines@,
            chrome@,
            first as int,
            trailing as int,
        ) && forall|i: int| 0 <= i < v@.len() ==> (#[trigger] v@[i]) < pane.chars@.len(),
{
    let mut found: Vec<usize> = Vec::new();
    let mut at: usize = first;
    assert(indices(found@) =~= Seq::<int>::empty());
    while at < trailing
        invariant
            pane.wf(),
            first <= at <= trailing <= pane.lines@.len(),
            solid_lines(pane.chars@, pane.lines@, chrome@, first as int, at as int) == Some(
                indices(found@),
            ),
            forall|k: int| 0 <= k < found@.len() ==> (#[trigger] found@[k]) < pane.chars@.len(),
        decreases trailing - at,
    {
        proof {
            pane.lines_within();
        }
        let range: LineRange = pane.lines[at];
        if range.start < range.end {
            let line: String = pane.line(at);
            let opened: Option<usize> = if at == first {
                opening_len(line.as_str(), &chrome.role_prefixes)
            } else {
                opening_len(line.as_str(), &chrome.continuation_prefixes)
            };
            match opened {
                None => {
                    proof {
                        lemma_solid_lines_stay_none(
                            pane.chars@,
                            pane.lines@,
                            chrome@,
                            first as int,
                            at + 1,
                            trailing as int,
                        );
                    }
                    return None;
                },
                Some(start) => {
                    push_solids(&pane.chars, range.start + start, range.end, &mut found);
                },
            }
        }
        at = at + 1;
    }
    Some(found)
}

proof fn lemma_solid_lines_stay_none(
    s: Seq<char>,
    lines: Seq<LineRange>,
    chrome: ChromeView,
    first: int,
    n: int,
    m: int,
)
    requires
        first < n <= m,
        solid_lines(s, lines, chrome, first, n) is None,
    ensures
        solid_lines(s, lines, chrome, first, m) is None,
    decreases m - n,
{
    if n < m {
        lemma_solid_lines_stay_none(s, lines, chrome, first, n, m - 1);
    }
}

/// What some lines show of an answer.
fn drawn_chars(pane: &Pane, chrome: &NativeChrome, first: usize, trailing: usize) -> (r: Vec<char>)
    requires
        pane.wf(),
        first <= trailing <= pane.lines@.len(),
    ensures
        r@ == drawn_text(pane.chars@, pane.lines@, chrome@, first as int, trailing as int),
{
    let mut r: Vec<char> = Vec::new();
    let mut at: usize = first;
    while at < trailing
        invariant
            pane.wf(),
            first <= at <= trailing <= pane.lines@.len(),
            r@ == drawn_text(pane.chars@, pane.lines@, chrome@, first as int, at as int),
        decreases trailing - at,
    {
        proof {
            pane.lines_within();
        }
        if at > first {
            r.push('\n');
        }
        let ghost head = r@;
        let range: LineRange = pane.lines[at];
        let line: String = pane.line(at);
        let opened: Option<usize> = if at == first {
            opening_len(line.as_str(), &chrome.role_prefixes)
        } else {
            opening_len(line.as_str(), &chrome.continuation_prefixes)
        };
        let ghost here = line_content(line@, prefixes_at(chrome@, at - first));
        assert(head + here.take(0) =~= head);
        if let Some(start) = opened {
            let from: usize = range.start + start;
            let mut i: usize = from;
            while i < range.end
                invariant
                    pane.wf(),
                    from <= i <= range.end <= pane.chars@.len(),
                    from == range.start + start,
                    line@ == pane.chars@.subrange(range.start as int, range.end as int),
                    here == line@.skip(start as int),
                    r@ == head + here.take(i - from),
                decreases range.end - i,
            {
                r.push(pane.chars[i]);
                assert(here[i - from] == pane.chars@[i as int]);
                assert(r@ =~= head + here.take(i + 1 - from));
                i = i + 1;
            }
            assert(here.take(here.len() as int) =~= here);
        }
        assert(r@ =~= head + here);
        at = at + 1;
    }
    r
}

fn shows_answer(drawn: &Vec<char>, expected: &Vec<char>) -> (r: bool)
    ensures
        r == reads_as(drawn@, expected@),
{
    let n: usize = expected.len();
    if drawn.len() < n {
        return false;
    }
    let mut i: usize = 0;
    while i < drawn.len()
        invariant
            n == expected@.len() <= drawn@.len(),
            i <= drawn@.len(),
            forall|k: int| 0 <= k < i && k < n ==> stands_for(#[trigger] drawn@[k], expected@[k]),
            forall|k: int| n <= k < i ==> #[trigger] drawn@[k] == '\n',
        decreases drawn@.len() - i,
    {
        let c: char = drawn[i];
        if i < n {
            let e: char = expected[i];
            if c != e && !(c == '\n' && e == ' ') {
                assert(!stands_for(drawn@[i as int], expected@[i as int]));
                return false;
            }
        } else if c != '\n' {
            assert(drawn@[i as int] != '\n');
            return false;
        }
        i = i + 1;
    }
    true
}

fn reflow_candidate_runs(
    pane: &Pane,
    first: usize,
    trailing: usize,
    expected: &Expected,
    chrome: &NativeChrome,
) -> (r: Option<Vec<StyleRun>>)
    requires
        pane.wf(),
        expected.wf(),
        first <= trailing <= pane.lines@.len(),
    ensures
        r is Some == reflowed_runs(
            pane.chars@,
            pane.runs@,
            pane.lines@,
            expected.chars@,
            chrome@,
            first as int,
            trailing as int,
        ) is Some,
        r matches Some(runs) ==> reflowed_runs(
            pane.chars@,
            pane.runs@,
            pane.lines@,
            expected.chars@,
            chrome@,
            first as int,
            trailing as int,
        ) == Some(runs@),
{
    let source: Vec<usize> = match solids_of_lines(pane, chrome, first, trailing) {
        None => {
            return None;
        },
        Some(source) => source,
    };
    let mut target: Vec<usize> = Vec::new();
    let n: usize = expected.chars.len();
    push_solids(&expected.chars, 0, n, &mut target);
    let ghost s = pane.chars@;
    let ghost e = expected.chars@;
    let ghost from = indices(source@);
    let ghost to = solid(e, 0, e.len() as int);
    assert(indices(target@) =~= to);
    if target.len() == 0 || source.len() != target.len() {
        return None;
    }
    let drawn: Vec<char> = drawn_chars(pane, chrome, first, trailing);
    if !shows_answer(&drawn, &expected.chars) {
        return None;
    }
    let mut mappings: Vec<Mapping> = Vec::new();
    let mut i: usize = 0;
    while i < source.len()
        invariant
            pane.wf(),
            expected.wf(),
            s == pane.chars@,
            e == expected.chars@,
            from == indices(source@),
            to == indices(target@),
            to == solid(e, 0, e.len() as int),
            source@.len() == target@.len(),
            target@.len() > 0,
            solid_lines(s, pane.lines@, chrome@, first as int, trailing as int) == Some(from),
            reads_as(drawn_text(s, pane.lines@, chrome@, first as int, trailing as int), e),
            i <= source@.len(),
            forall|k: int| 0 <= k < source@.len() ==> (#[trigger] source@[k]) < s.len(),
            forall|k: int| 0 <= k < target@.len() ==> (#[trigger] target@[k]) < e.len(),
            forall|k: int| 0 <= k < i ==> s[#[trigger] from[k]] == e[to[k]],
            mappings@.len() == i,
            forall|k: int|
                0 <= k < i ==> #[trigger] mappings@[k] == mapping(
                    text::byte_at(s, from[k]),
                    text::byte_at(s, from[k] + 1),
                    text::byte_at(e, to[k]),
                ),
            forall|k: int| 0 <= k < i ==> mapping_fits(#[trigger] mappings@[k]),
        decreases source@.len() - i,
    {
        let a: usize = source[i];
        let b: usize = target[i];
        assert(from[i as int] == a && to[i as int] == b);
        if pane.chars[a] != expected.chars[b] {
            return None;
        }
        proof {
            text::lemma_byte_at_step(s, a as int);
            text::lemma_byte_at_step(e, b as int);
            assert(expected.offsets@[b as int] == text::byte_at(e, b as int));
            assert(expected.offsets@[b + 1] == text::byte_at(e, b + 1));
        }
        let here = Mapping {
            start: pane.offsets[a],
            end: pane.offsets[a + 1],
            destination: expected.offsets[b],
        };
        assert(mapping_fits(here));
        mappings.push(here);
        i = i + 1;
    }
    proof {
        let want = Seq::new(
            from.len(),
            |i: int|
                mapping(
                    text::byte_at(s, from[i]),
                    text::byte_at(s, from[i] + 1),
                    text::byte_at(e, to[i]),
                ),
        );
        assert(mappings@ =~= want);
    }
    Some(slice_mapped_runs(&pane.runs, &mappings))
}

fn reflow_final_candidates(pane: &Pane, expected: &Expected, chrome: &NativeChrome) -> (r: Vec<
    FoundCandidate,
>)
    requires
        pane.wf(),
        expected.wf(),
    ensures
        candidates_of(r@) == reflow_candidates(
            pane.chars@,
            pane.runs@,
            pane.lines@,
            expected.chars@,
            chrome@,
            pane.lines@.len() as int,
        ),
        forall|i: int| 0 <= i < r@.len() ==> (#[trigger] r@[i]).composer < pane.lines@.len(),
{
    let ghost s = pane.chars@;
    let ghost lines = pane.lines@;
    let total: usize = pane.lines.len();
    let mut r: Vec<FoundCandidate> = Vec::new();
    let mut trailing: usize = 0;
    while trailing < total
        invariant
            pane.wf(),
            expected.wf(),
            s == pane.chars@,
            lines == pane.lines@,
            total == lines.len(),
            trailing <= lines.len(),
            candidates_of(r@) =~= reflow_candidates(
                s,
                pane.runs@,
                lines,
                expected.chars@,
                chrome@,
                trailing as int,
            ),
            forall|i: int| 0 <= i < r@.len() ==> (#[trigger] r@[i]).composer < lines.len(),
        decreases lines.len() - trailing,
    {
        let closing: String = pane.line(trailing);
        let mut framed: bool = is_trailing_boundary(closing.as_str(), chrome) && total - trailing > 1;
        if framed {
            let below: String = pane.line(trailing + 1);
            framed = is_composer_line(below.as_str(), chrome);
        }
        if framed {
            let ghost before = candidates_of(r@);
            let mut first: usize = 0;
            assert(before + reflow_candidates_at(
                s,
                pane.runs@,
                lines,
                expected.chars@,
                chrome@,
                trailing as int,
                0,
            ) =~= before);
            while first < trailing
                invariant
                    pane.wf(),
                    expected.wf(),
                    s == pane.chars@,
                    lines == pane.lines@,
                    first <= trailing,
                    total == lines.len(),
                    trailing + 1 < total,
                    candidates_of(r@) =~= before + reflow_candidates_at(
                        s,
                        pane.runs@,
                        lines,
                        expected.chars@,
                        chrome@,
                        trailing as int,
                        first as int,
                    ),
                    forall|i: int| 0 <= i < r@.len() ==> (#[trigger] r@[i]).composer < lines.len(),
                decreases trailing - first,
            {
                let line: String = pane.line(first);
                let ghost listed = r@;
                if native_chrome::starts_with_any(line.as_str(), &chrome.role_prefixes) {
                    if let Some(runs) = reflow_candidate_runs(
                        pane,
                        first,
                        trailing,
                        expected,
                        chrome,
                    ) {
                        r.push(FoundCandidate { runs, composer: trailing + 1 });
                        assert(candidates_of(r@) =~= candidates_of(listed).push(
                            Candidate { runs: runs@, composer: trailing + 1 },
                        ));
                    }
                }
                first = first + 1;
            }
        }
        trailing = trailing + 1;
    }
    r
}

// ---------------------------------------------------------------------------
// The answer
// ---------------------------------------------------------------------------

/// The one candidate there is: the one drawn line for line, or where there is
/// none the one drawn with line breaks at some of its spaces.
pub open spec fn only_candidate(
    captured: style::StyledView,
    expected: Seq<char>,
    chrome: ChromeView,
) -> Option<Candidate> {
    let s = captured.text;
    let lines = text::line_pieces(s);
    let n = lines.len() as int;
    let strict = strict_candidates(s, captured.runs, lines, expected, chrome, n);
    let reflowed = reflow_candidates(s, captured.runs, lines, expected, chrome, n);
    if strict.len() == 1 {
        Some(strict[0])
    } else if strict.len() == 0 && reflowed.len() == 1 {
        Some(reflowed[0])
    } else {
        None
    }
}

/// The styled answer that a captured text shows at its tail.
pub open spec fn native_final(
    captured: style::StyledView,
    expected: Seq<char>,
    chrome: ChromeView,
) -> Option<style::StyledView> {
    let lines = text::line_pieces(captured.text);
    if expected.len() == 0 || expected.contains('\r') {
        None
    } else {
        match only_candidate(captured, expected, chrome) {
            None => None,
            Some(candidate) => {
                let trailing = filled(
                    captured.text,
                    lines,
                    candidate.composer + 1,
                    lines.len() as int,
                );
                if chrome_only(trailing, chrome) {
                    Some(style::StyledView { text: expected, runs: candidate.runs })
                } else {
                    None
                }
            },
        }
    }
}

fn contains(chars: &Vec<char>, c: char) -> (r: bool)
    ensures
        r == chars@.contains(c),
{
    let mut i: usize = 0;
    while i < chars.len()
        invariant
            i <= chars@.len(),
            forall|k: int| 0 <= k < i ==> #[trigger] chars@[k] != c,
        decreases chars@.len() - i,
    {
        if chars[i] == c {
            return true;
        }
        i = i + 1;
    }
    false
}

/// Takes the candidate out of a list that holds just one.
fn take_only(candidates: Vec<FoundCandidate>) -> (r: Option<FoundCandidate>)
    ensures
        r is Some == (candidates@.len() == 1),
        r matches Some(c) ==> c == candidates@[0],
{
    let mut candidates = candidates;
    if candidates.len() == 1 {
        candidates.pop()
    } else {
        None
    }
}

/// Finds the answer that the transcript expects in a captured pane, and gives
/// it the styles it is drawn in there. Nothing is given where the pane does not
/// show it, shows it more than once, or shows anything but the agent's own
/// chrome below it.
pub fn extract_native_final(ansi: &str, expected_visible: &str, kind: AgentKind) -> (r: Option<
    StyledText,
>)
    ensures
        r is Some == native_final(ansi::sanitized(ansi@), expected_visible@, chrome_of(kind)) is Some,
        r matches Some(styled) ==> native_final(
            ansi::sanitized(ansi@),
            expected_visible@,
            chrome_of(kind),
        ) == Some(styled@),
        r matches Some(styled) ==> styled.text@ == expected_visible@ && style::runs_valid(
            styled.text@,
            styled.runs@,
        ),
{
    let chars: Vec<char> = text::chars_of(expected_visible);
    if chars.len() == 0 || contains(&chars, '\r') {
        return None;
    }
    let parts: Vec<LineRange> = text::split_ranges(&chars, '\n');
    let offsets: Vec<usize> = text::byte_offsets(expected_visible, &chars);
    let wanted: usize = chars.len();
    let expected = Expected { chars, offsets, parts };
    let captured: StyledText = sanitize_ansi(ansi);
    let chars: Vec<char> = text::chars_of(captured.text.as_str());
    let offsets: Vec<usize> = text::byte_offsets(captured.text.as_str(), &chars);
    let lines: Vec<LineRange> = native_chrome::line_ranges(&chars);
    let shown: usize = chars.len();
    let pane = Pane { chars, offsets, runs: captured.runs, lines };
    let chrome: NativeChrome = chrome_for(kind);
    assert(pane.wf() && expected.wf());
    proof {
        text::lemma_byte_at_ends(captured.text@);
        text::lemma_byte_at_ends(expected_visible@);
        assert(pane.offsets@[shown as int] == text::byte_len(captured.text@));
        assert(expected.offsets@[wanted as int] == text::byte_len(expected_visible@));
        captured::lemma_captured_styles_describe_the_answer(
            ansi::sanitized(ansi@),
            expected_visible@,
            chrome_of(kind),
        );
    }
    let strict: Vec<FoundCandidate> = strict_final_candidates(&pane, &expected, &chrome);
    let ghost want = only_candidate(ansi::sanitized(ansi@), expected_visible@, chrome_of(kind));
    let found: Option<FoundCandidate> = if strict.len() == 0 {
        let reflowed: Vec<FoundCandidate> = reflow_final_candidates(&pane, &expected, &chrome);
        let ghost listed = candidates_of(reflowed@);
        let only: Option<FoundCandidate> = take_only(reflowed);
        assert(only matches Some(c) ==> listed[0] == (Candidate {
            runs: c.runs@,
            composer: c.composer as int,
        }));
        only
    } else {
        let ghost listed = candidates_of(strict@);
        let only: Option<FoundCandidate> = take_only(strict);
        assert(only matches Some(c) ==> listed[0] == (Candidate {
            runs: c.runs@,
            composer: c.composer as int,
        }));
        only
    };
    assert(found is Some == want is Some);
    match found {
        None => None,
        Some(candidate) => {
            assert(want == Some(
                Candidate { runs: candidate.runs@, composer: candidate.composer as int },
            ));
            proof {
                pane.lines_within();
            }
            let total: usize = pane.lines.len();
            assert(candidate.composer < total);
            if trailing_is_chrome(&pane.chars, &pane.lines, candidate.composer + 1, &chrome) {
                Some(StyledText { text: expected_visible.to_owned(), runs: candidate.runs })
            } else {
                None
            }
        },
    }
}

}
