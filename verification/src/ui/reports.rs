//! What becomes of what the workers report.

use crate::agent::{AgentIdentity, AgentKind, AgentStatus};
use crate::ansi;
use crate::ansi::native_final;
use crate::app::AppState;
use crate::composer;
use crate::model;
use crate::model::Attachment;
use crate::native_chrome;
use crate::style;
use crate::text;
use crate::text::LineRange;
use crate::ui::adopt;
use crate::ui::bindings;
use crate::ui::events;
use crate::ui::events::{
    CapturePolicy, Effect, FollowerView, RuntimeEvent, TranscriptStepView,
};
use crate::ui::keys;
use crate::ui::keys::DraftChange;
use crate::ui::runtime;
use crate::ui::runtime::StepView;
use vstd::prelude::*;

verus! {

// ---------------------------------------------------------------------------
// The transcript
// ---------------------------------------------------------------------------

/// Whether the step at `j` follows the answer whose styles it looks for, by its id and
/// its text.
pub open spec fn follows_its_answer(steps: Seq<TranscriptStepView>, j: int) -> bool {
    steps[j] matches TranscriptStepView::Capture { stable_id, canonical_text } ==> 0 < j && (
    steps[j - 1] matches TranscriptStepView::Final(message) && message.stable_id == stable_id
        && message.text == canonical_text)
}

proof fn lemma_captures_follow(events: Seq<FollowerView>, policy: CapturePolicy, n: int)
    requires
        0 <= n <= events.len(),
    ensures
        forall|j: int|
            0 <= j < events::steps_upto(events, policy, n).len() ==> #[trigger] follows_its_answer(
                events::steps_upto(events, policy, n),
                j,
            ),
        forall|j: int|
            0 <= j < events::steps_upto(events, policy, n).len() ==> !((#[trigger] events::steps_upto(
                events,
                policy,
                n,
            )[j]) is Reload) && !(events::steps_upto(events, policy, n)[j] is ReplayComplete),
    decreases n,
{
    if n > 0 {
        lemma_captures_follow(events, policy, n - 1);
        let before = events::steps_upto(events, policy, n - 1);
        let here = events::steps_for(events, policy, n - 1);
        let all = events::steps_upto(events, policy, n);
        assert forall|j: int| 0 <= j < all.len() implies #[trigger] follows_its_answer(all, j) by {
            if j < before.len() {
                assert(follows_its_answer(before, j));
                assert(all[j] == before[j]);
                if j > 0 {
                    assert(all[j - 1] == before[j - 1]);
                }
            } else {
                assert(all[j] == here[j - before.len()]);
                if j > before.len() {
                    assert(all[j - 1] == here[j - 1 - before.len()]);
                }
            }
        }
        assert forall|j: int| 0 <= j < all.len() implies !((#[trigger] all[j]) is Reload)
            && !(all[j] is ReplayComplete) by {
            if j < before.len() {
                assert(all[j] == before[j]);
            } else {
                assert(all[j] == here[j - before.len()]);
            }
        }
    }
}

/// Styles are looked for right behind the answer that they belong to, by its id and in
/// its words. A replay is opened and closed once, around everything else, and nothing
/// else is.
pub proof fn lemma_styles_are_looked_for_behind_their_answer(
    events: Seq<FollowerView>,
    policy: CapturePolicy,
)
    ensures
        ({
            let plan = events::transcript_plan(events, policy);
            let n = plan.len() as int;
            let replay = policy is NewestFinalOnly || events.contains(FollowerView::Reloaded);
            &&& forall|j: int| 0 <= j < n ==> #[trigger] follows_its_answer(plan, j)
            &&& replay ==> n >= 2 && plan[0] is Reload && plan[n - 1] is ReplayComplete
            &&& forall|j: int|
                0 <= j < n && (#[trigger] plan[j]) is Reload ==> replay && j == 0
            &&& forall|j: int|
                0 <= j < n && (#[trigger] plan[j]) is ReplayComplete ==> replay && j == n - 1
        }),
{
    let m = events.len() as int;
    let steps = events::steps_upto(events, policy, m);
    let plan = events::transcript_plan(events, policy);
    lemma_captures_follow(events, policy, m);
    if events.contains(FollowerView::Reloaded) {
        let i = choose|i: int| 0 <= i < events.len() && events[i] == FollowerView::Reloaded;
        assert(events[i] is Reloaded);
    }
    if events::replays(events, policy) {
        if !(policy is NewestFinalOnly) {
            let i = choose|i: int| 0 <= i < events.len() && (#[trigger] events[i]) is Reloaded;
            assert(events[i] == FollowerView::Reloaded);
            assert(events.contains(FollowerView::Reloaded));
        }
        assert forall|j: int| 0 < j < plan.len() - 1 implies #[trigger] plan[j] == steps[j - 1] by {}
        assert forall|j: int| 0 <= j < plan.len() implies #[trigger] follows_its_answer(
            plan,
            j,
        ) by {
            if 0 < j < plan.len() - 1 {
                assert(follows_its_answer(steps, j - 1));
                assert(plan[j] == steps[j - 1]);
                if j > 1 {
                    assert(plan[j - 1] == steps[j - 2]);
                }
            }
        }
    }
}

proof fn lemma_newest_is_last(events: Seq<FollowerView>, n: int)
    requires
        0 <= n <= events.len(),
    ensures
        events::newest_final(events, n) matches Some(k) ==> 0 <= k < n && events::is_final(events[k])
            && forall|i: int| k < i < n ==> !events::is_final(#[trigger] events[i]),
        events::newest_final(events, n) is None ==> forall|i: int|
            0 <= i < n ==> !events::is_final(#[trigger] events[i]),
    decreases n,
{
    if n > 0 {
        lemma_newest_is_last(events, n - 1);
    }
}

proof fn lemma_newest_captured_last(events: Seq<FollowerView>, n: int)
    requires
        0 <= n <= events.len(),
    ensures
        ({
            let steps = events::steps_upto(events, CapturePolicy::NewestFinalOnly, n);
            let newest = events::newest_final(events, events.len() as int);
            &&& forall|j: int|
                0 <= j < steps.len() && (#[trigger] steps[j]) is Capture ==> (newest matches Some(k)
                    && k < n)
            &&& forall|j: int, k: int|
                0 <= j < k < steps.len() && (#[trigger] steps[j]) is Capture ==> !((
                #[trigger] steps[k]) is Final)
        }),
    decreases n,
{
    if n > 0 {
        lemma_newest_captured_last(events, n - 1);
        lemma_newest_is_last(events, events.len() as int);
        let policy = CapturePolicy::NewestFinalOnly;
        let newest = events::newest_final(events, events.len() as int);
        let before = events::steps_upto(events, policy, n - 1);
        let here = events::steps_for(events, policy, n - 1);
        let all = events::steps_upto(events, policy, n);
        assert forall|j: int| 0 <= j < all.len() && (#[trigger] all[j]) is Capture implies (
        newest matches Some(k) && k < n) by {
            if j < before.len() {
                assert(all[j] == before[j]);
            } else {
                assert(all[j] == here[j - before.len()]);
            }
        }
        assert forall|j: int, k: int|
            0 <= j < k < all.len() && (#[trigger] all[j]) is Capture implies !((
        #[trigger] all[k]) is Final) by {
            if k < before.len() {
                assert(all[j] == before[j] && all[k] == before[k]);
            } else {
                assert(all[k] == here[k - before.len()]);
                if j < before.len() {
                    assert(all[j] == before[j]);
                    if all[k] is Final {
                        assert(events::is_final(events[n - 1]));
                    }
                } else {
                    assert(all[j] == here[j - before.len()]);
                }
            }
        }
    }
}

/// A replay looks for the styles of the newest answer: no answer comes behind the one
/// whose styles it looks for.
pub proof fn lemma_replay_looks_for_the_newest(events: Seq<FollowerView>, j: int, k: int)
    requires
        0 <= j < k < events::transcript_plan(events, CapturePolicy::NewestFinalOnly).len(),
        events::transcript_plan(events, CapturePolicy::NewestFinalOnly)[j] is Capture,
    ensures
        !(events::transcript_plan(events, CapturePolicy::NewestFinalOnly)[k] is Final),
{
    let policy = CapturePolicy::NewestFinalOnly;
    let m = events.len() as int;
    let steps = events::steps_upto(events, policy, m);
    let plan = events::transcript_plan(events, policy);
    lemma_newest_captured_last(events, m);
    if k < plan.len() - 1 {
        assert(plan[j] == steps[j - 1]);
        assert(plan[k] == steps[k - 1]);
    }
}

/// What could not be read in a transcript, in its order.
pub open spec fn complaints(events: Seq<FollowerView>, n: int) -> Seq<Seq<char>>
    decreases n,
{
    if n <= 0 {
        Seq::empty()
    } else {
        match events[n - 1] {
            FollowerView::ParseError { line, message } => complaints(events, n - 1).push(
                "transcript line "@ + text::decimal_text(line) + ": "@ + message,
            ),
            _ => complaints(events, n - 1),
        }
    }
}

/// What is said about a transcript, in order.
pub open spec fn said_of(steps: Seq<TranscriptStepView>, n: int) -> Seq<Seq<char>>
    decreases n,
{
    if n <= 0 {
        Seq::empty()
    } else {
        match steps[n - 1] {
            TranscriptStepView::Report(message) => said_of(steps, n - 1).push(message),
            _ => said_of(steps, n - 1),
        }
    }
}

proof fn lemma_said_of_prefix(a: Seq<TranscriptStepView>, b: Seq<TranscriptStepView>, n: int)
    requires
        0 <= n <= a.len(),
        n <= b.len(),
        forall|i: int| 0 <= i < n ==> #[trigger] a[i] == b[i],
    ensures
        said_of(a, n) == said_of(b, n),
    decreases n,
{
    if n > 0 {
        lemma_said_of_prefix(a, b, n - 1);
        assert(a[n - 1] == b[n - 1]);
    }
}

proof fn lemma_complaints_upto(events: Seq<FollowerView>, policy: CapturePolicy, n: int)
    requires
        0 <= n <= events.len(),
    ensures
        said_of(
            events::steps_upto(events, policy, n),
            events::steps_upto(events, policy, n).len() as int,
        ) == complaints(events, n),
    decreases n,
{
    if n > 0 {
        lemma_complaints_upto(events, policy, n - 1);
        let before = events::steps_upto(events, policy, n - 1);
        let here = events::steps_for(events, policy, n - 1);
        let all = events::steps_upto(events, policy, n);
        lemma_said_of_prefix(before, all, before.len() as int);
        reveal_with_fuel(said_of, 3);
        if here.len() > 0 {
            assert(all[before.len() as int] == here[0]);
        }
        if here.len() > 1 {
            assert(all[before.len() as int + 1] == here[1]);
        }
    }
}

/// Every line of a transcript that could not be read is named once, with its number and
/// what is wrong with it, in the order of the lines.
pub proof fn lemma_unreadable_lines_are_named(events: Seq<FollowerView>, policy: CapturePolicy)
    ensures
        said_of(
            events::transcript_plan(events, policy),
            events::transcript_plan(events, policy).len() as int,
        ) == complaints(events, events.len() as int),
{
    let m = events.len() as int;
    let steps = events::steps_upto(events, policy, m);
    let plan = events::transcript_plan(events, policy);
    lemma_complaints_upto(events, policy, m);
    if events::replays(events, policy) {
        lemma_said_behind_a_reload(steps, steps.len() as int);
        let most = seq![TranscriptStepView::Reload] + steps;
        lemma_said_of_prefix(most, plan, most.len() as int);
        assert(plan[most.len() as int] is ReplayComplete);
    }
}

proof fn lemma_said_behind_a_reload(steps: Seq<TranscriptStepView>, n: int)
    requires
        0 <= n <= steps.len(),
    ensures
        said_of(seq![TranscriptStepView::Reload] + steps, n + 1) == said_of(steps, n),
    decreases n,
{
    let all = seq![TranscriptStepView::Reload] + steps;
    if n > 0 {
        lemma_said_behind_a_reload(steps, n - 1);
        assert(all[n] == steps[n - 1]);
    } else {
        assert(all[0] is Reload);
        assert(said_of(all, 0) =~= Seq::<Seq<char>>::empty());
    }
}

// ---------------------------------------------------------------------------
// Everything else
// ---------------------------------------------------------------------------

/// An image is taken out of a list by its id: none with that id is left, all the others
/// are, and in their order.
pub proof fn lemma_only_that_image_goes(a: Seq<Attachment>, x: Attachment, id: Seq<char>)
    ensures
        forall|i: int|
            0 <= i < events::without(a, id).len() ==> (#[trigger] events::without(a, id)[i]).id@
                != id && a.contains(events::without(a, id)[i]),
        events::without(a.push(x), id) == (if x.id@ == id {
            events::without(a, id)
        } else {
            events::without(a, id).push(x)
        }),
        (forall|i: int| 0 <= i < a.len() ==> (#[trigger] a[i]).id@ != id) ==> events::without(a, id)
            == a,
    decreases a.len(),
{
    assert(a.push(x).drop_last() =~= a);
    if a.len() > 0 {
        let rest = a.drop_last();
        lemma_only_that_image_goes(rest, x, id);
        let kept = events::without(rest, id);
        let here = events::without(a, id);
        assert forall|i: int| 0 <= i < here.len() implies (#[trigger] here[i]).id@ != id
            && a.contains(here[i]) by {
            if i < kept.len() {
                assert(here[i] == kept[i]);
                assert(rest.contains(kept[i]));
                let j = choose|j: int| 0 <= j < rest.len() && rest[j] == kept[i];
                assert(a[j] == here[i]);
            } else {
                assert(a[a.len() - 1] == here[i]);
            }
        }
        if forall|i: int| 0 <= i < a.len() ==> (#[trigger] a[i]).id@ != id {
            assert forall|i: int| 0 <= i < rest.len() implies (#[trigger] rest[i]).id@ != id by {
                assert(rest[i] == a[i]);
            }
            assert(a.last() == a[a.len() - 1]);
            assert(here =~= a);
        }
    }
}

/// The work of an agent is counted from when it is first seen at work, and no longer than
/// it is.
pub proof fn lemma_work_is_timed(app: AppState, status: AgentStatus, now_ms: u64)
    requires
        app.working_since_ms is Some <==> app.agent_status is Working,
    ensures
        events::working_since(app, status, now_ms) is Some <==> status is Working,
        status is Working && app.agent_status is Working ==> events::working_since(
            app,
            status,
            now_ms,
        ) == app.working_since_ms,
        status is Working && !(app.agent_status is Working) ==> events::working_since(
            app,
            status,
            now_ms,
        ) == Some(now_ms),
{
}

/// An image that the pane took is put into the draft under its own id, with a label that
/// says the number the pane gave it. One that the pane did not take is dropped, and why
/// is said. Either way it is no longer waited for, and the other images are.
pub proof fn lemma_image_is_labelled_by_the_pane(
    attachment: Attachment,
    result: Result<usize, String>,
    original: AgentIdentity,
    before: AppState,
    after: AppState,
    now_ms: u64,
    r: (Effect, DraftChange),
)
    requires
        events::applied(
            RuntimeEvent::ImageForwarded { attachment, result },
            original,
            before,
            after,
            now_ms,
            r,
        ),
    ensures
        after.pending_action is None,
        result matches Ok(marker) ==> (r.0 matches Effect::InsertAttachment(shown) && shown@.id
            == attachment@.id && keys::label_number(shown@.display) == Some(marker)
            && after.send_error == before.send_error),
        result matches Err(why) ==> r.0 is Nothing && after.send_error == Some(why),
        model::attachment_views(after.pending_attachments@) == model::attachment_views(
            events::without(before.pending_attachments@, attachment.id@),
        ),
        after.draft_attachments == before.draft_attachments,
{
    if let Ok(marker) = result {
        bindings::lemma_label_reads_back(marker as nat);
    }
}

/// No report touches the conversation, the images of the draft or the place that is read:
/// what it asks for there is handed back. Each kind of failure is said in its own place.
pub proof fn lemma_reports_keep_to_their_place(
    event: RuntimeEvent,
    original: AgentIdentity,
    before: AppState,
    after: AppState,
    now_ms: u64,
    r: (Effect, DraftChange),
)
    requires
        events::applied(event, original, before, after, now_ms, r),
    ensures
        after.turns == before.turns,
        after.draft_attachments == before.draft_attachments,
        after.scroll_from_bottom == before.scroll_from_bottom,
        after.status_line == before.status_line,
        after.composer_width == before.composer_width,
        after.interaction_error == before.interaction_error,
        event matches RuntimeEvent::TranscriptError(e) ==> after.transcript_error == Some(e),
        event is Transcript ==> after.transcript_error is None && r.0 is Transcript,
        event matches RuntimeEvent::Submitted { local_id, result: Err(why) } ==> r.0
            == (Effect::SendFailed { local_id, reason: why }) && r.1 is Immediate,
        event matches RuntimeEvent::Interrupted(Err(e)) ==> after.send_error == Some(e),
        event matches RuntimeEvent::InteractionForwarded(result) ==> r.0
            == Effect::InteractionSettled(result),
        event matches RuntimeEvent::FinalPresentation(p) ==> r.0 == Effect::ShowFinal(p),
        event matches RuntimeEvent::AttachmentRemoved { id, result: Ok(_) } ==> r.0
            == (Effect::RemoveAttachment { id, clear_to: before.clearing_line_to })
            && after.pending_action is None,
        event matches RuntimeEvent::AttachmentRemoved { id, result: Err(e) }
            ==> after.background_error == Some(e) && after.clearing_line_to is None
            && after.pending_action is None,
{
}

/// The history is drawn again after a batch exactly where the batch changed it.
pub proof fn lemma_changes_are_drawn(steps: Seq<TranscriptStepView>, n: int)
    requires
        0 <= n <= steps.len(),
    ensures
        events::redraw_count(steps, n) > 0 <==> exists|j: int|
            0 <= j < n && ((#[trigger] steps[j]) is Reload || steps[j] is User || steps[j] is Final),
    decreases n,
{
    if n > 0 {
        lemma_changes_are_drawn(steps, n - 1);
    }
}

// ---------------------------------------------------------------------------
// The status line
// ---------------------------------------------------------------------------

proof fn lemma_last_footer(s: Seq<char>, lines: Seq<LineRange>, n: int)
    ensures
        runtime::last_footer(s, lines, n) matches Some(i) ==> 0 <= i < n
            && native_chrome::known_footer(runtime::line_said(s, lines[i])) && !text::blank(
            runtime::line_said(s, lines[i]),
        ) && forall|k: int|
            i < k < n ==> text::blank(runtime::line_said(s, #[trigger] lines[k]))
                || !native_chrome::known_footer(runtime::line_said(s, lines[k])),
        runtime::last_footer(s, lines, n) is None ==> forall|k: int|
            0 <= k < n ==> text::blank(runtime::line_said(s, #[trigger] lines[k]))
                || !native_chrome::known_footer(runtime::line_said(s, lines[k])),
    decreases n,
{
    if n > 0 {
        lemma_last_footer(s, lines, n - 1);
    }
}

proof fn lemma_last_filled(s: Seq<char>, lines: Seq<LineRange>, n: int)
    ensures
        runtime::last_filled(s, lines, n) matches Some(i) ==> 0 <= i < n && !text::blank(
            runtime::line_said(s, lines[i]),
        ) && forall|k: int|
            i < k < n ==> text::blank(runtime::line_said(s, #[trigger] lines[k])),
        runtime::last_filled(s, lines, n) is None ==> forall|k: int|
            0 <= k < n ==> text::blank(runtime::line_said(s, #[trigger] lines[k])),
    decreases n,
{
    if n > 0 {
        lemma_last_filled(s, lines, n - 1);
    }
}

/// The status is read off the line of a pane that comes last among those that count: for
/// an agent with a footer of its own the footers, if there are any; and else the lines
/// that hold something. Where there is none it is empty.
pub proof fn lemma_status_is_read_off_the_last_line(kind: AgentKind, s: Seq<char>, i: int)
    requires
        0 <= i < text::pieces(s, '\n').len(),
        !text::blank(runtime::line_said(s, text::pieces(s, '\n')[i])),
        forall|k: int|
            i < k < text::pieces(s, '\n').len() ==> text::blank(
                runtime::line_said(s, #[trigger] text::pieces(s, '\n')[k]),
            ) || (kind is Codex && native_chrome::known_footer(
                runtime::line_said(s, text::pieces(s, '\n')[i]),
            ) && !native_chrome::known_footer(
                runtime::line_said(s, text::pieces(s, '\n')[k]),
            )),
        kind is Codex && !native_chrome::known_footer(
            runtime::line_said(s, text::pieces(s, '\n')[i]),
        ) ==> forall|k: int|
            0 <= k < i ==> !native_chrome::known_footer(
                runtime::line_said(s, #[trigger] text::pieces(s, '\n')[k]),
            ),
    ensures
        runtime::status_line(kind, s) == runtime::line_said(s, text::pieces(s, '\n')[i]),
{
    let lines = text::pieces(s, '\n');
    let n = lines.len() as int;
    lemma_last_footer(s, lines, n);
    lemma_last_filled(s, lines, n);
    assert(lines[i] == text::pieces(s, '\n')[i]);
    if let Some(k) = runtime::last_footer(s, lines, n) {
        assert(lines[k] == text::pieces(s, '\n')[k]);
    }
    if let Some(k) = runtime::last_filled(s, lines, n) {
        assert(lines[k] == text::pieces(s, '\n')[k]);
    }
}

/// A pane that shows nothing has no status.
pub proof fn lemma_empty_pane_has_no_status(kind: AgentKind, s: Seq<char>)
    requires
        forall|k: int|
            0 <= k < text::pieces(s, '\n').len() ==> text::blank(
                runtime::line_said(s, #[trigger] text::pieces(s, '\n')[k]),
            ),
    ensures
        runtime::status_line(kind, s) == Seq::<char>::empty(),
{
    let lines = text::pieces(s, '\n');
    lemma_last_footer(s, lines, lines.len() as int);
    lemma_last_filled(s, lines, lines.len() as int);
    if let Some(k) = runtime::last_footer(s, lines, lines.len() as int) {
        assert(lines[k] == text::pieces(s, '\n')[k]);
    }
    if let Some(k) = runtime::last_filled(s, lines, lines.len() as int) {
        assert(lines[k] == text::pieces(s, '\n')[k]);
    }
}

// ---------------------------------------------------------------------------
// Looking for styles
// ---------------------------------------------------------------------------

/// A reading that shows the answer settles a search. One that failed, or does not show it,
/// is tried again while attempts are left; but an answer that needs more lines than the
/// pane has, with the three that surround it, is never looked for again.
pub proof fn lemma_when_a_search_goes_on(
    kind: AgentKind,
    expected: Seq<char>,
    reading: Result<Seq<char>, Seq<char>>,
    attempts_left: int,
    last_error: Option<Seq<char>>,
)
    ensures
        ({
            let step = runtime::step_after(kind, expected, reading, attempts_left, last_error);
            let fallback = style::PresentationView::MarkdownFallback;
            match reading {
                Err(error) => {
                    &&& attempts_left > 0 ==> step is Retry
                    &&& attempts_left <= 0 ==> step == (StepView::Resolved {
                        presentation: fallback,
                        diagnostic: Some(error),
                    })
                },
                Ok(captured) => {
                    let surface = ansi::sanitized(captured);
                    let found = native_final::native_final(
                        surface,
                        expected,
                        native_final::chrome_of(kind),
                    );
                    let room = text::pieces(surface.text, '\n').len() >= text::pieces(
                        expected,
                        '\n',
                    ).len() + 3;
                    &&& found matches Some(styled) ==> step == (StepView::Resolved {
                        presentation: style::PresentationView::NativeAnsi(styled),
                        diagnostic: None,
                    })
                    &&& found is None && room && attempts_left > 0 ==> step is Retry
                    &&& found is None && (!room || attempts_left <= 0) ==> step
                        == (StepView::Resolved { presentation: fallback, diagnostic: last_error })
                },
            }
        }),
{
}

/// What is said to have gone wrong in a search is what went wrong last.
pub proof fn lemma_last_error_is_said(readings: Seq<Result<Seq<char>, Seq<char>>>, n: int)
    requires
        0 <= n <= readings.len(),
    ensures
        runtime::search_error(readings, n) is None <==> forall|k: int|
            0 <= k < n ==> (#[trigger] readings[k]) is Ok,
        runtime::search_error(readings, n) matches Some(error) ==> exists|i: int|
            0 <= i < n && #[trigger] readings[i] == Err::<Seq<char>, Seq<char>>(error)
                && forall|k: int| i < k < n ==> (#[trigger] readings[k]) is Ok,
    decreases n,
{
    if n > 0 {
        lemma_last_error_is_said(readings, n - 1);
        if readings[n - 1] is Ok {
            if let Some(error) = runtime::search_error(readings, n - 1) {
                let i = choose|i: int|
                    0 <= i < n - 1 && #[trigger] readings[i] == Err::<Seq<char>, Seq<char>>(error)
                        && forall|k: int| i < k < n - 1 ==> (#[trigger] readings[k]) is Ok;
                assert(readings[i] == Err::<Seq<char>, Seq<char>>(error));
            }
        } else {
            assert(readings[n - 1] == Err::<Seq<char>, Seq<char>>(readings[n - 1]->Err_0));
        }
    }
}

// ---------------------------------------------------------------------------
// Taking a draft over
// ---------------------------------------------------------------------------

/// A draft of several lines stays beside an image. One without text is taken as it is; one
/// with text has to be removed first, or is taken with a copy left behind where that may
/// not be tried.
pub proof fn lemma_how_a_draft_is_taken_over(parts: composer::PartsView, attempts: nat)
    ensures
        ({
            let takeover = adopt::takeover_of(parts, attempts);
            let stays = parts.markers.len() > 0 && parts.text.contains('\n');
            &&& takeover is Leave <==> stays
            &&& takeover matches adopt::TakeoverView::Adopt(adopted) ==> (adopted.cleared
                <==> parts.text.len() == 0)
            &&& takeover is Remove <==> !stays && parts.text.len() > 0 && attempts > 0
            &&& takeover matches adopt::TakeoverView::Remove { attempts_left, pressed, .. }
                ==> attempts_left == attempts && !pressed
        }),
{
    if parts.text.len() == 0 && parts.text.contains('\n') {
        let i = choose|i: int| 0 <= i < parts.text.len() && parts.text[i] == '\n';
    }
}

/// Beside no image a draft is removed by going to the end of its line, killing the line
/// and pressing backspace once for each character; beside an image without the kill.
pub proof fn lemma_keys_of_a_removal(attachments: nat, n: nat)
    ensures
        adopt::all_keys(adopt::presses_for(attachments, n)) == (if attachments == 0 {
            seq!["ctrl+e"@, "ctrl+u"@]
        } else {
            seq!["ctrl+e"@]
        }) + Seq::new(n, |i: int| "backspace"@),
{
    let all = adopt::presses_for(attachments, n);
    adopt::lemma_removal_never_overshoots(n);
    assert(all.skip(1) =~= adopt::batches(n));
    assert(all[0] == adopt::prefix_keys(attachments));
    assert(adopt::backspaces(n) =~= Seq::new(n, |i: int| "backspace"@));
}

/// A line is read without the line feed that ends it, and without the carriage return
/// before that.
pub proof fn lemma_line_is_read_without_its_end(t: Seq<char>, rest: Seq<char>)
    requires
        t.len() + rest.len() + 2 <= usize::MAX,
    ensures
        runtime::line_said(
            t + seq!['\r', '\n'] + rest,
            text::range(0, t.len() as int + 1),
        ) == t,
        t.len() == 0 || t.last() != '\r' ==> runtime::line_said(
            t + seq!['\n'] + rest,
            text::range(0, t.len() as int),
        ) == t,
        runtime::line_said(t, text::range(0, t.len() as int)) == t,
{
    let both = t + seq!['\r', '\n'] + rest;
    assert(both[t.len() as int] == '\r');
    assert(runtime::line_said(both, text::range(0, t.len() as int + 1)) =~= t);
    let one = t + seq!['\n'] + rest;
    if t.len() > 0 {
        assert(one[t.len() - 1] == t.last());
    }
    if t.len() == 0 || t.last() != '\r' {
        assert(runtime::line_said(one, text::range(0, t.len() as int)) =~= t);
    }
    assert(runtime::line_said(t, text::range(0, t.len() as int)) =~= t);
}

/// What is handed back of a look at the pane is what is needed to read its status: the
/// line, and whose pane it is. What goes wrong with the styles of an answer is said of
/// the transcript, and a pane that closed is handed back as closed.
pub proof fn lemma_what_is_handed_back(
    event: RuntimeEvent,
    original: AgentIdentity,
    before: AppState,
    after: AppState,
    now_ms: u64,
    r: (Effect, DraftChange),
)
    requires
        events::applied(event, original, before, after, now_ms, r),
    ensures
        event matches RuntimeEvent::CaptureDiagnostic(e) ==> (after.transcript_error matches Some(
            said,
        ) && said@ == "final style capture: "@ + e@),
        event is SourcePaneClosed ==> r.0 is PaneClosed,
        event matches RuntimeEvent::Observation(Ok(look)) ==> (!before.source_pane_closed ==> (
        r.0 matches Effect::Observed { kind, status_text, cwd } && kind == original.kind
            && status_text@ == look.status_text@ && cwd@ == original.cwd@)
            && after.native_composer == look.native_composer && after.connection_error is None
            && after.input_enabled),
        event matches RuntimeEvent::Observation(Err(e)) ==> (!before.source_pane_closed
            ==> after.connection_error == Some(e)),
{
}


/// The images that a composer is known to hold are those of the draft that is taken over;
/// a clear composer holds none, and of one that could not be read nothing is known.
pub proof fn lemma_known_images_are_those_taken_over(
    kind: AgentKind,
    surface: style::StyledView,
    attempts: nat,
)
    ensures
        composer::composer_parts(kind, surface) matches Some(parts) ==> adopt::known_markers(
            kind,
            surface,
        ) == Some(parts.markers) && (adopt::takeover_of(parts, attempts) matches
            adopt::TakeoverView::Adopt(adopted) ==> adopt::known_markers(kind, surface) == Some(
            adopted.markers,
        )),
        composer::composer_content(kind, surface) is None ==> adopt::known_markers(
            kind,
            surface,
        ) is None,
        composer::composer_content(kind, surface) matches Some(content) ==> (text::blank(content)
            ==> adopt::known_markers(kind, surface) == Some(Seq::<usize>::empty())),
{
    composer::lemma_parts_are_those_of_the_composer(kind, surface);
    composer::lemma_clear_means_nothing_typed(kind, surface);
}


/// A wait ends as much later as it is long, or where the clock ends.
pub proof fn lemma_waits_are_as_long_as_they_say(now_ms: u64, wait_ms: u64)
    ensures
        events::later(now_ms, wait_ms) >= now_ms,
        events::later(now_ms, wait_ms) < u64::MAX ==> events::later(now_ms, wait_ms) - now_ms
            == wait_ms,
        now_ms + wait_ms < u64::MAX ==> events::later(now_ms, wait_ms) < u64::MAX,
{
}


/// Whether a step changes what the history shows.
pub open spec fn changes_history(step: TranscriptStepView) -> bool {
    step is Reload || step is User || step is Final
}

proof fn lemma_messages_change_history(events: Seq<FollowerView>, policy: CapturePolicy, n: int)
    requires
        0 <= n <= events.len(),
    ensures
        (exists|j: int|
            0 <= j < events::steps_upto(events, policy, n).len() && changes_history(
                #[trigger] events::steps_upto(events, policy, n)[j],
            )) <==> (exists|i: int| 0 <= i < n && (#[trigger] events[i]) is Conversation),
    decreases n,
{
    if n > 0 {
        lemma_messages_change_history(events, policy, n - 1);
        let before = events::steps_upto(events, policy, n - 1);
        let more = events::steps_for(events, policy, n - 1);
        let here = events::steps_upto(events, policy, n);
        assert forall|j: int| 0 <= j < before.len() implies here[j] == #[trigger] before[j] by {}
        assert forall|j: int| 0 <= j < more.len() implies here[before.len() + j]
            == #[trigger] more[j] by {}
        if exists|i: int| 0 <= i < n && (#[trigger] events[i]) is Conversation {
            if events[n - 1] is Conversation {
                assert(changes_history(more[0]));
                assert(changes_history(here[before.len() as int]));
            } else {
                let i = choose|i: int| 0 <= i < n && (#[trigger] events[i]) is Conversation;
                assert(i < n - 1);
                let j = choose|j: int| 0 <= j < before.len() && changes_history(#[trigger] before[j]);
                assert(changes_history(here[j]));
            }
        }
        if exists|j: int| 0 <= j < here.len() && changes_history(#[trigger] here[j]) {
            let j = choose|j: int| 0 <= j < here.len() && changes_history(#[trigger] here[j]);
            if j < before.len() {
                assert(changes_history(before[j]));
                let i = choose|i: int| 0 <= i < n - 1 && (#[trigger] events[i]) is Conversation;
                assert(events[i] is Conversation);
            } else {
                assert(here[j] == more[j - before.len()]);
                assert(events[n - 1] is Conversation);
            }
        }
    }
}

/// The history is outdated by a message of the transcript, by a transcript that is read
/// again, by styles that were found for an answer and by a prompt that could not be sent;
/// and by no other report.
pub proof fn lemma_what_outdates_the_history(event: RuntimeEvent)
    ensures
        match event {
            RuntimeEvent::Transcript(v) => {
                let batch = events::follower_views(v@);
                events::redraws_of(event) > 0 <==> exists|i: int|
                    0 <= i < batch.len() && ((#[trigger] batch[i]) is Conversation
                        || batch[i] is Reloaded)
            },
            RuntimeEvent::Submitted { result, .. } => events::redraws_of(event) > 0
                <==> result is Err,
            RuntimeEvent::FinalPresentation(_) => events::redraws_of(event) > 0,
            _ => events::redraws_of(event) == 0,
        },
{
    if let RuntimeEvent::Transcript(v) = event {
        let batch = events::follower_views(v@);
        let policy = CapturePolicy::AllFinals;
        let m = batch.len() as int;
        let steps = events::steps_upto(batch, policy, m);
        let plan = events::transcript_plan(batch, policy);
        let n = plan.len() as int;
        lemma_messages_change_history(batch, policy, m);
        lemma_changes_are_drawn(plan, n);
        if events::replays(batch, policy) {
            let i = choose|i: int| 0 <= i < batch.len() && (#[trigger] batch[i]) is Reloaded;
            assert(batch[i] is Reloaded);
            assert(plan[0] is Reload);
        } else {
            assert(plan == steps);
            if exists|i: int| 0 <= i < m && (#[trigger] batch[i]) is Conversation {
                let j = choose|j: int| 0 <= j < steps.len() && changes_history(#[trigger] steps[j]);
                assert(changes_history(plan[j]));
            }
            if events::redraw_count(plan, n) > 0 {
                let j = choose|j: int|
                    0 <= j < n && ((#[trigger] plan[j]) is Reload || plan[j] is User
                        || plan[j] is Final);
                assert(changes_history(steps[j]));
                let i = choose|i: int| 0 <= i < m && (#[trigger] batch[i]) is Conversation;
                assert(batch[i] is Conversation);
            }
        }
    }
}

}
