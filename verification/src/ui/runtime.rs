//! What the workers around the overlay decide between two looks at the pane.

use crate::agent::{AgentIdentity, AgentKind, AgentStatus};
use crate::agent;
use crate::ansi;
use crate::ansi::{extract_native_final, sanitize_ansi};
use crate::ansi::native_final;
use crate::composer;
use crate::composer::{classify_native_composer, NativeComposerState};
use crate::native_chrome;
use crate::style;
use crate::style::{MessagePresentation, StyledText};
use crate::text;
use crate::text::LineRange;
use vstd::prelude::*;

verus! {

// ---------------------------------------------------------------------------
// Watching the pane
// ---------------------------------------------------------------------------

pub const LIFECYCLE_RETRY_INITIAL_MS: u64 = 200;

pub const LIFECYCLE_RETRY_MAX_MS: u64 = 1000;

/// How long to wait after another failure to watch the pane: twice as long as
/// before, up to a second.
pub fn next_lifecycle_retry(current_ms: u64) -> (r: u64)
    ensures
        2 * current_ms <= LIFECYCLE_RETRY_MAX_MS ==> r == 2 * current_ms,
        2 * current_ms > LIFECYCLE_RETRY_MAX_MS ==> r == LIFECYCLE_RETRY_MAX_MS,
{
    if current_ms > LIFECYCLE_RETRY_MAX_MS / 2 {
        LIFECYCLE_RETRY_MAX_MS
    } else {
        2 * current_ms
    }
}

/// What to do next about a pane that is watched.
#[derive(Clone, Copy, Debug, PartialEq, Eq, Structural)]
pub enum LifecycleStep {
    /// Report the pane as closed, and stop.
    Closed,
    /// Watch on.
    Watch,
    /// Pause for so many milliseconds, then watch on.
    PauseThenWatch(u64),
}

/// A watch for the end of the source pane.
#[derive(Clone, Copy, Debug, PartialEq, Eq, Structural)]
pub struct LifecycleWatch {
    /// How long to pause after the next failure.
    pub retry_ms: u64,
}

impl LifecycleWatch {
    pub fn begin() -> (r: Self)
        ensures
            r.retry_ms == LIFECYCLE_RETRY_INITIAL_MS,
    {
        LifecycleWatch { retry_ms: LIFECYCLE_RETRY_INITIAL_MS }
    }

    /// Takes in one wait for the pane to close: whether it closed, `None` where
    /// the wait failed; and whether the pane can no longer be found. A wait that
    /// failed is paused for, longer each time in a row.
    pub fn waited(&mut self, closed: Option<bool>, gone: bool) -> (r: LifecycleStep)
        ensures
            closed == Some(true) || gone ==> r is Closed && *final(self) == *old(self),
            closed == Some(false) && !gone ==> r is Watch && final(self).retry_ms
                == LIFECYCLE_RETRY_INITIAL_MS,
            closed is None && !gone ==> r == LifecycleStep::PauseThenWatch(old(self).retry_ms)
                && (2 * old(self).retry_ms <= LIFECYCLE_RETRY_MAX_MS ==> final(self).retry_ms == 2
                * old(self).retry_ms) && (2 * old(self).retry_ms > LIFECYCLE_RETRY_MAX_MS
                ==> final(self).retry_ms == LIFECYCLE_RETRY_MAX_MS),
    {
        let was_closed: bool = match closed {
            Some(value) => value,
            None => false,
        };
        if was_closed || gone {
            return LifecycleStep::Closed;
        }
        if closed.is_some() {
            self.retry_ms = LIFECYCLE_RETRY_INITIAL_MS;
            LifecycleStep::Watch
        } else {
            let pause_ms: u64 = self.retry_ms;
            self.retry_ms = next_lifecycle_retry(pause_ms);
            LifecycleStep::PauseThenWatch(pause_ms)
        }
    }
}

/// The longest that a worker sleeps before it looks whether it should stop.
pub const LIFECYCLE_STOP_POLL_MS: u64 = 50;

/// Splits off the next stretch of a pause. Returns the stretch and what is left.
pub fn next_stretch(remaining_ms: u64) -> (r: (u64, u64))
    ensures
        r.0 + r.1 == remaining_ms,
        r.0 <= LIFECYCLE_STOP_POLL_MS,
        r.1 > 0 ==> r.0 == LIFECYCLE_STOP_POLL_MS,
{
    if remaining_ms > LIFECYCLE_STOP_POLL_MS {
        (LIFECYCLE_STOP_POLL_MS, remaining_ms - LIFECYCLE_STOP_POLL_MS)
    } else {
        (remaining_ms, 0)
    }
}

/// What became of a request for a worker.
#[derive(Clone, Copy, Debug, PartialEq, Eq, Structural)]
pub enum Queued {
    Sent,
    Full,
    Stopped,
}

/// Answers a request to look for the styles of an answer: whether it was queued.
/// A full queue is no error, since the answer is shown either way.
pub fn capture_queued(queued: Queued) -> (r: Result<bool, String>)
    ensures
        queued is Sent ==> r == Ok::<bool, String>(true),
        queued is Full ==> r == Ok::<bool, String>(false),
        queued is Stopped ==> (r matches Err(why) && why@
            == "final style capture worker has stopped"@),
{
    match queued {
        Queued::Sent => Ok(true),
        Queued::Full => Ok(false),
        Queued::Stopped => Err("final style capture worker has stopped".to_owned()),
    }
}

/// Answers a request to act on the pane. It is lost where the queue is full.
pub fn action_queued(queued: Queued) -> (r: Result<(), String>)
    ensures
        queued is Sent ==> r is Ok,
        queued is Full ==> (r matches Err(why) && why@ == "agent action queue is full"@),
        queued is Stopped ==> (r matches Err(why) && why@ == "agent action worker has stopped"@),
{
    match queued {
        Queued::Sent => Ok(()),
        Queued::Full => Err("agent action queue is full".to_owned()),
        Queued::Stopped => Err("agent action worker has stopped".to_owned()),
    }
}

/// Whether the transcript still has to be followed closely.
pub fn follower_is_active(status: AgentStatus) -> (r: bool)
    ensures
        r == status.turn_open(),
{
    status.keeps_turn_open()
}

/// What the follower of the transcript is told of the agent.
pub fn follower_status(active: bool) -> (r: AgentStatus)
    ensures
        active ==> r is Working,
        !active ==> r is Done,
{
    if active {
        AgentStatus::Working
    } else {
        AgentStatus::Done
    }
}

/// What one look at the source pane shows.
#[derive(Clone, Debug, PartialEq, Eq)]
pub struct SourceObservation {
    pub identity: AgentIdentity,
    pub status_text: String,
    pub native_composer: NativeComposerState,
    pub blocked_surface: Option<StyledText>,
}

/// A line without the carriage return in front of the line feed that ends it.
pub open spec fn without_return(s: Seq<char>, line: LineRange) -> LineRange {
    if line.start < line.end < s.len() && s[line.end - 1] == '\r' {
        text::range(line.start as int, line.end - 1)
    } else {
        line
    }
}

/// What a line says.
pub open spec fn line_said(s: Seq<char>, line: LineRange) -> Seq<char> {
    without_return(s, line).of(s)
}

/// The last of the first `n` lines that is a footer.
pub open spec fn last_footer(s: Seq<char>, lines: Seq<LineRange>, n: int) -> Option<int>
    decreases n,
{
    if n <= 0 {
        None
    } else if !text::blank(line_said(s, lines[n - 1])) && native_chrome::known_footer(
        line_said(s, lines[n - 1]),
    ) {
        Some(n - 1)
    } else {
        last_footer(s, lines, n - 1)
    }
}

/// The last of the first `n` lines that holds something.
pub open spec fn last_filled(s: Seq<char>, lines: Seq<LineRange>, n: int) -> Option<int>
    decreases n,
{
    if n <= 0 {
        None
    } else if !text::blank(line_said(s, lines[n - 1])) {
        Some(n - 1)
    } else {
        last_filled(s, lines, n - 1)
    }
}

/// The line of a pane that holds the agent's status: for Codex the last footer,
/// and the last line that holds something where there is none.
pub open spec fn status_line(kind: AgentKind, s: Seq<char>) -> Seq<char> {
    let lines = text::pieces(s, '\n');
    let n = lines.len() as int;
    let footer = if kind is Codex {
        last_footer(s, lines, n)
    } else {
        None
    };
    let at = match footer {
        Some(i) => Some(i),
        None => last_filled(s, lines, n),
    };
    match at {
        Some(i) => line_said(s, lines[i]),
        None => Seq::empty(),
    }
}

fn drop_return(chars: &Vec<char>, line: LineRange) -> (r: LineRange)
    requires
        line.within(chars@),
    ensures
        r == without_return(chars@, line),
        r.within(chars@),
{
    if line.start < line.end && line.end < chars.len() && chars[line.end - 1] == '\r' {
        LineRange { start: line.start, end: line.end - 1 }
    } else {
        line
    }
}

fn is_blank(chars: &Vec<char>, line: LineRange) -> (r: bool)
    requires
        line.within(chars@),
    ensures
        r == text::blank(line.of(chars@)),
{
    let (start, end) = text::trim_between(chars, line.start, line.end);
    proof {
        text::lemma_blank_is_trimmed_away(line.of(chars@));
    }
    start == end
}

/// The line that holds the agent's status, in text that was read off a pane.
pub fn observation_status_text(kind: AgentKind, s: &str) -> (r: String)
    ensures
        r@ == status_line(kind, s@),
{
    let chars: Vec<char> = text::chars_of(s);
    let lines: Vec<LineRange> = text::split_ranges(&chars, '\n');
    let total: usize = lines.len();
    let codex: bool = match kind {
        AgentKind::Codex => true,
        AgentKind::Claude => false,
    };
    if codex {
        let mut n: usize = total;
        while n > 0
            invariant
                chars@ == s@,
                lines@ == text::pieces(s@, '\n'),
                forall|k: int| 0 <= k < lines@.len() ==> (#[trigger] lines@[k]).within(chars@),
                n <= total,
                total == lines@.len(),
                codex == (kind is Codex),
                codex,
                last_footer(s@, lines@, n as int) == last_footer(s@, lines@, total as int),
            decreases n,
        {
            let said: LineRange = drop_return(&chars, lines[n - 1]);
            let line: String = native_chrome::line_text(&chars, said);
            if !is_blank(&chars, said) && native_chrome::is_known_footer(line.as_str()) {
                return line;
            }
            n = n - 1;
        }
    }
    let mut n: usize = total;
    while n > 0
        invariant
            chars@ == s@,
            lines@ == text::pieces(s@, '\n'),
            forall|k: int| 0 <= k < lines@.len() ==> (#[trigger] lines@[k]).within(chars@),
            n <= total,
            total == lines@.len(),
            kind is Codex ==> last_footer(s@, lines@, total as int) is None,
            last_filled(s@, lines@, n as int) == last_filled(s@, lines@, total as int),
        decreases n,
    {
        let said: LineRange = drop_return(&chars, lines[n - 1]);
        if !is_blank(&chars, said) {
            return native_chrome::line_text(&chars, said);
        }
        n = n - 1;
    }
    String::new()
}

/// Whether an observation is what a captured pane shows of an agent.
pub open spec fn observes(
    observation: SourceObservation,
    identity: agent::IdentityView,
    captured: Seq<char>,
) -> bool {
    let surface = ansi::sanitized(captured);
    &&& observation.identity@ == identity
    &&& observation.status_text@ == status_line(identity.kind, surface.text)
    &&& observation.native_composer == composer::composer_state(identity.kind, surface)
    &&& observation.blocked_surface is Some == (identity.status is Blocked)
    &&& observation.blocked_surface matches Some(styled) ==> styled@ == surface
}

/// Reads the status, the composer and a question off one look at the pane, so
/// that they cannot disagree.
pub fn complete_observation(identity: AgentIdentity, reading: Result<String, String>) -> (r: Result<
    SourceObservation,
    String,
>)
    ensures
        r is Ok == reading is Ok,
        r matches Ok(observation) ==> observes(observation, identity@, reading.unwrap()@),
        r matches Err(error) ==> reading matches Err(why) && error@ == why@,
{
    let captured: String = match reading {
        Ok(captured) => captured,
        Err(error) => {
            return Err(error);
        },
    };
    let surface: StyledText = sanitize_ansi(captured.as_str());
    let status_text: String = observation_status_text(identity.kind, surface.text.as_str());
    let native_composer: NativeComposerState = classify_native_composer(identity.kind, &surface);
    let blocked_surface: Option<StyledText> = match identity.status {
        AgentStatus::Blocked => Some(surface),
        _ => None,
    };
    Ok(SourceObservation { identity, status_text, native_composer, blocked_surface })
}

// ---------------------------------------------------------------------------
// Capturing the styles of an answer
// ---------------------------------------------------------------------------

/// Chrome that has to share the pane with the answer: the rule above it, the
/// rule below it and the composer line.
pub const CAPTURE_CHROME_LINES: usize = 3;

/// How many lines a text has.
pub open spec fn line_count(s: Seq<char>) -> nat {
    text::pieces(s, '\n').len()
}

fn count_lines(s: &str) -> (r: usize)
    ensures
        r == line_count(s@),
{
    let chars: Vec<char> = text::chars_of(s);
    text::split_ranges(&chars, '\n').len()
}

/// Whether a captured pane has room for an answer and the chrome around it.
pub open spec fn can_fit(captured: Seq<char>, expected_lines: int) -> bool {
    expected_lines + CAPTURE_CHROME_LINES <= line_count(ansi::sanitized(captured).text)
}

/// Whether the pane could hold the answer at all. An answer taller than the pane
/// can never match, so it is not looked for again.
pub fn answer_can_fit(captured: &str, expected_lines: usize) -> (r: bool)
    ensures
        r == can_fit(captured@, expected_lines as int),
{
    let surface: StyledText = sanitize_ansi(captured);
    let pane_lines: usize = count_lines(surface.text.as_str());
    pane_lines >= CAPTURE_CHROME_LINES && expected_lines <= pane_lines - CAPTURE_CHROME_LINES
}

/// What to do next about the styles of an answer.
#[derive(Clone, Debug, PartialEq, Eq)]
pub enum CaptureStep {
    /// Read the pane.
    Read,
    /// Wait a moment, then read the pane again.
    Retry,
    /// Show the answer so, and say what kept going wrong.
    Resolved { presentation: MessagePresentation, diagnostic: Option<String> },
}

pub ghost enum StepView {
    Read,
    Retry,
    Resolved { presentation: style::PresentationView, diagnostic: Option<Seq<char>> },
}

impl View for CaptureStep {
    type V = StepView;

    open spec fn view(&self) -> StepView {
        match self {
            CaptureStep::Read => StepView::Read,
            CaptureStep::Retry => StepView::Retry,
            CaptureStep::Resolved { presentation, diagnostic } => StepView::Resolved {
                presentation: presentation@,
                diagnostic: text::optional(*diagnostic),
            },
        }
    }
}

/// A search for the styles of an answer in the pane.
#[derive(Clone, Debug, PartialEq, Eq)]
pub struct CaptureSearch {
    pub kind: AgentKind,
    /// What the answer reads once its markup is gone.
    pub expected: String,
    /// How often the pane may still be read.
    pub attempts_left: usize,
    pub last_error: Option<String>,
}

/// The answer as Markdown, with what went wrong last.
pub open spec fn fallback(last_error: Option<Seq<char>>) -> StepView {
    StepView::Resolved {
        presentation: style::PresentationView::MarkdownFallback,
        diagnostic: last_error,
    }
}

/// What follows a reading that did not settle the matter.
pub open spec fn try_again(attempts_left: int, last_error: Option<Seq<char>>) -> StepView {
    if attempts_left > 0 {
        StepView::Retry
    } else {
        fallback(last_error)
    }
}

/// What follows a reading of the pane, where it may be read that often more.
pub open spec fn step_after(
    kind: AgentKind,
    expected: Seq<char>,
    reading: Result<Seq<char>, Seq<char>>,
    attempts_left: int,
    last_error: Option<Seq<char>>,
) -> StepView {
    match reading {
        Ok(captured) => {
            let found = native_final::native_final(
                ansi::sanitized(captured),
                expected,
                native_final::chrome_of(kind),
            );
            match found {
                Some(styled) => StepView::Resolved {
                    presentation: style::PresentationView::NativeAnsi(styled),
                    diagnostic: None,
                },
                None => if can_fit(captured, line_count(expected) as int) {
                    try_again(attempts_left, last_error)
                } else {
                    fallback(last_error)
                },
            }
        },
        Err(error) => try_again(attempts_left, Some(error)),
    }
}

/// The last thing that went wrong after a reading.
pub open spec fn error_after(
    reading: Result<Seq<char>, Seq<char>>,
    last_error: Option<Seq<char>>,
) -> Option<Seq<char>> {
    match reading {
        Ok(_) => last_error,
        Err(error) => Some(error),
    }
}

/// What a reading says.
pub open spec fn reading_view(reading: Result<String, String>) -> Result<Seq<char>, Seq<char>> {
    match reading {
        Ok(s) => Ok(s@),
        Err(e) => Err(e@),
    }
}

impl CaptureSearch {
    /// Begins a search for an answer. Without a single attempt there is nothing
    /// to do but to show it as Markdown.
    pub fn begin(kind: AgentKind, expected: &str, attempts: usize) -> (r: (Self, CaptureStep))
        ensures
            r.0.kind == kind,
            r.0.expected@ == expected@,
            r.0.attempts_left == attempts,
            r.0.last_error is None,
            attempts > 0 ==> r.1@ == StepView::Read,
            attempts == 0 ==> r.1@ == fallback(None),
    {
        let search = CaptureSearch {
            kind,
            expected: expected.to_owned(),
            attempts_left: attempts,
            last_error: None,
        };
        let step: CaptureStep = if attempts > 0 {
            CaptureStep::Read
        } else {
            CaptureStep::Resolved {
                presentation: MessagePresentation::MarkdownFallback,
                diagnostic: None,
            }
        };
        (search, step)
    }

    fn give_up(&self) -> (r: CaptureStep)
        ensures
            r@ == fallback(text::optional(self.last_error)),
    {
        CaptureStep::Resolved {
            presentation: MessagePresentation::MarkdownFallback,
            diagnostic: text::copy_optional(&self.last_error),
        }
    }

    fn retry(&self) -> (r: CaptureStep)
        ensures
            r@ == try_again(self.attempts_left as int, text::optional(self.last_error)),
    {
        if self.attempts_left > 0 {
            CaptureStep::Retry
        } else {
            self.give_up()
        }
    }

    /// Takes in a reading of the pane.
    pub fn read(&mut self, reading: Result<String, String>) -> (r: CaptureStep)
        requires
            old(self).attempts_left > 0,
        ensures
            final(self).kind == old(self).kind,
            final(self).expected == old(self).expected,
            final(self).attempts_left == old(self).attempts_left - 1,
            text::optional(final(self).last_error) == error_after(
                reading_view(reading),
                text::optional(old(self).last_error),
            ),
            r@ == step_after(
                old(self).kind,
                old(self).expected@,
                reading_view(reading),
                old(self).attempts_left - 1,
                text::optional(old(self).last_error),
            ),
    {
        self.attempts_left = self.attempts_left - 1;
        match reading {
            Ok(captured) => {
                match extract_native_final(captured.as_str(), self.expected.as_str(), self.kind) {
                    Some(styled) => CaptureStep::Resolved {
                        presentation: MessagePresentation::NativeAnsi(styled),
                        diagnostic: None,
                    },
                    None => {
                        let lines: usize = count_lines(self.expected.as_str());
                        if answer_can_fit(captured.as_str(), lines) {
                            self.retry()
                        } else {
                            self.give_up()
                        }
                    },
                }
            },
            Err(error) => {
                self.last_error = Some(error);
                self.retry()
            },
        }
    }
}

/// An answer whose styles are looked for.
#[derive(Clone, Debug, PartialEq, Eq)]
pub struct CaptureCommand {
    pub stable_id: String,
    pub canonical_text: String,
}

/// How an answer is shown, for the answer it was found for.
#[derive(Clone, Debug, PartialEq, Eq)]
pub struct FinalPresentation {
    pub stable_id: String,
    pub text_fingerprint: u64,
    pub presentation: MessagePresentation,
}

/// Ties what was found to the answer that was asked about.
pub fn captured_presentation(
    command: CaptureCommand,
    text_fingerprint: u64,
    presentation: MessagePresentation,
) -> (r: FinalPresentation)
    ensures
        r.stable_id@ == command.stable_id@,
        r.text_fingerprint == text_fingerprint,
        r.presentation@ == presentation@,
{
    FinalPresentation { stable_id: command.stable_id, text_fingerprint, presentation }
}

/// The step that a search is at after its first `n` readings, counted from the
/// first; nothing once it was settled before.
pub open spec fn search_step(
    kind: AgentKind,
    expected: Seq<char>,
    readings: Seq<Result<Seq<char>, Seq<char>>>,
    attempts: int,
    n: int,
) -> Option<StepView>
    decreases n,
{
    if n <= 0 {
        Some(
            if attempts > 0 {
                StepView::Read
            } else {
                fallback(None)
            },
        )
    } else {
        match search_step(kind, expected, readings, attempts, n - 1) {
            Some(StepView::Read) | Some(StepView::Retry) => Some(
                step_after(
                    kind,
                    expected,
                    readings[n - 1],
                    attempts - n,
                    search_error(readings, n - 1),
                ),
            ),
            _ => None,
        }
    }
}

/// The last thing that went wrong among the first `n` readings.
pub open spec fn search_error(readings: Seq<Result<Seq<char>, Seq<char>>>, n: int) -> Option<
    Seq<char>,
>
    decreases n,
{
    if n <= 0 {
        None
    } else {
        error_after(readings[n - 1], search_error(readings, n - 1))
    }
}

/// However the readings turn out, a search is settled after as many readings as
/// it was given, at the latest.
pub proof fn lemma_search_is_bounded(
    kind: AgentKind,
    expected: Seq<char>,
    readings: Seq<Result<Seq<char>, Seq<char>>>,
    attempts: int,
    n: int,
)
    requires
        0 <= attempts <= n,
    ensures
        search_step(kind, expected, readings, attempts, n) matches Some(step) ==> step is Resolved,
{
}

/// A search that finds the answer shows it in the words of the transcript, in
/// its native styles, and with no complaint.
pub proof fn lemma_found_answer_reads_as_expected(
    kind: AgentKind,
    expected: Seq<char>,
    reading: Result<Seq<char>, Seq<char>>,
    attempts_left: int,
    last_error: Option<Seq<char>>,
)
    ensures
        step_after(kind, expected, reading, attempts_left, last_error) matches StepView::Resolved {
            presentation: style::PresentationView::NativeAnsi(styled),
            diagnostic,
        } ==> styled.text == expected && diagnostic is None,
{
}

}
