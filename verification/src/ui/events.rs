//! What the workers report, and what it changes.
//!
//! The state is changed here. What has to be asked of the conversation, of the
//! editor or of the pane is handed back as an effect.

use crate::agent::{AgentIdentity, AgentKind, AgentStatus};
use crate::app;
use crate::app::{AppState, BlockedSurface};
use crate::composer::NativeComposerState;
use crate::model;
use crate::model::{Attachment, ConversationEvent, Message};
use crate::text;
use crate::ui::history;
use crate::ui::history::HistoryRenderCache;
use crate::ui::keys;
use crate::ui::keys::DraftChange;
use crate::ui::runtime::{CaptureCommand, FinalPresentation, SourceObservation};
use vstd::prelude::*;

verus! {

// ---------------------------------------------------------------------------
// The transcript
// ---------------------------------------------------------------------------

/// What the follower of a transcript reports.
#[derive(Clone, Debug, PartialEq, Eq)]
pub enum FollowerEvent {
    Conversation(ConversationEvent),
    /// The transcript was replaced, and everything that follows is a replay.
    Reloaded,
    ParseError { line: usize, message: String },
}

pub ghost enum FollowerView {
    Conversation(model::EventView),
    Reloaded,
    ParseError { line: nat, message: Seq<char> },
}

impl View for FollowerEvent {
    type V = FollowerView;

    open spec fn view(&self) -> FollowerView {
        match self {
            FollowerEvent::Conversation(event) => FollowerView::Conversation(event@),
            FollowerEvent::Reloaded => FollowerView::Reloaded,
            FollowerEvent::ParseError { line, message } => FollowerView::ParseError {
                line: *line as nat,
                message: message@,
            },
        }
    }
}

pub open spec fn follower_views(events: Seq<FollowerEvent>) -> Seq<FollowerView> {
    Seq::new(events.len(), |i: int| events[i]@)
}

/// Which answers get their native styles looked for.
#[derive(Clone, Copy, Debug, PartialEq, Eq, Structural)]
pub enum CapturePolicy {
    /// The newest one: the others have left the pane.
    NewestFinalOnly,
    AllFinals,
}

/// One thing to do about a batch of the transcript.
#[derive(Clone, Debug, PartialEq, Eq)]
pub enum TranscriptStep {
    /// A replay begins.
    Reload,
    /// Take in a prompt.
    User(Message),
    /// Take in an answer.
    Final(Message),
    /// Look for the native styles of the answer just taken in.
    Capture(CaptureCommand),
    /// Say what is wrong with the transcript.
    Report(String),
    /// A replay is over.
    ReplayComplete,
}

pub ghost enum TranscriptStepView {
    Reload,
    User(model::MessageView),
    Final(model::MessageView),
    Capture { stable_id: Seq<char>, canonical_text: Seq<char> },
    Report(Seq<char>),
    ReplayComplete,
}

impl View for TranscriptStep {
    type V = TranscriptStepView;

    open spec fn view(&self) -> TranscriptStepView {
        match self {
            TranscriptStep::Reload => TranscriptStepView::Reload,
            TranscriptStep::User(message) => TranscriptStepView::User(message@),
            TranscriptStep::Final(message) => TranscriptStepView::Final(message@),
            TranscriptStep::Capture(command) => TranscriptStepView::Capture {
                stable_id: command.stable_id@,
                canonical_text: command.canonical_text@,
            },
            TranscriptStep::Report(message) => TranscriptStepView::Report(message@),
            TranscriptStep::ReplayComplete => TranscriptStepView::ReplayComplete,
        }
    }
}

pub open spec fn step_views(steps: Seq<TranscriptStep>) -> Seq<TranscriptStepView> {
    Seq::new(steps.len(), |i: int| steps[i]@)
}

/// Whether an event is an answer.
pub open spec fn is_final(event: FollowerView) -> bool {
    event matches FollowerView::Conversation(model::EventView::Final(_))
}

/// The newest answer among the first `n` events.
pub open spec fn newest_final(events: Seq<FollowerView>, n: int) -> Option<int>
    decreases n,
{
    if n <= 0 {
        None
    } else if is_final(events[n - 1]) {
        Some(n - 1)
    } else {
        newest_final(events, n - 1)
    }
}

/// Whether the answer at `i` gets its styles looked for.
pub open spec fn captured(events: Seq<FollowerView>, policy: CapturePolicy, i: int) -> bool {
    policy is AllFinals || newest_final(events, events.len() as int) == Some(i)
}

/// What is said of a line that could not be read.
pub open spec fn parse_report(line: nat, message: Seq<char>) -> Seq<char> {
    "transcript line "@ + text::decimal_text(line) + ": "@ + message
}

/// What to do about the event at `i`.
pub open spec fn steps_for(events: Seq<FollowerView>, policy: CapturePolicy, i: int) -> Seq<
    TranscriptStepView,
> {
    match events[i] {
        FollowerView::Conversation(model::EventView::User(message)) => seq![
            TranscriptStepView::User(message),
        ],
        FollowerView::Conversation(model::EventView::Final(message)) => if captured(
            events,
            policy,
            i,
        ) {
            seq![
                TranscriptStepView::Final(message),
                TranscriptStepView::Capture {
                    stable_id: message.stable_id,
                    canonical_text: message.text,
                },
            ]
        } else {
            seq![TranscriptStepView::Final(message)]
        },
        FollowerView::Reloaded => Seq::empty(),
        FollowerView::ParseError { line, message } => seq![
            TranscriptStepView::Report(parse_report(line, message)),
        ],
    }
}

/// What to do about the first `n` events.
pub open spec fn steps_upto(events: Seq<FollowerView>, policy: CapturePolicy, n: int) -> Seq<
    TranscriptStepView,
>
    decreases n,
{
    if n <= 0 {
        Seq::empty()
    } else {
        steps_upto(events, policy, n - 1) + steps_for(events, policy, n - 1)
    }
}

/// Whether a batch replays the transcript from its start.
pub open spec fn replays(events: Seq<FollowerView>, policy: CapturePolicy) -> bool {
    policy is NewestFinalOnly || exists|i: int|
        0 <= i < events.len() && (#[trigger] events[i]) is Reloaded
}

/// What to do about a batch, in order.
pub open spec fn transcript_plan(events: Seq<FollowerView>, policy: CapturePolicy) -> Seq<
    TranscriptStepView,
> {
    let steps = steps_upto(events, policy, events.len() as int);
    if replays(events, policy) {
        seq![TranscriptStepView::Reload] + steps + seq![TranscriptStepView::ReplayComplete]
    } else {
        steps
    }
}

/// Whether a step changes what the history shows.
pub open spec fn redraws(step: TranscriptStepView) -> bool {
    step is Reload || step is User || step is Final
}

/// How many of the first `n` steps change what the history shows.
pub open spec fn redraw_count(steps: Seq<TranscriptStepView>, n: int) -> nat
    decreases n,
{
    if n <= 0 {
        0
    } else {
        redraw_count(steps, n - 1) + if redraws(steps[n - 1]) {
            1nat
        } else {
            0nat
        }
    }
}

/// Whether a history is the same one, marked as outdated that often.
pub open spec fn invalidated_times(
    before: HistoryRenderCache,
    after: HistoryRenderCache,
    times: nat,
) -> bool {
    &&& history::same_layout(after, before)
    &&& history::same_place(after, before)
    &&& after.generation == (before.generation + times) % 0x1_0000_0000_0000_0000
}

fn find_newest_final(events: &Vec<FollowerEvent>) -> (r: Option<usize>)
    ensures
        r is Some == newest_final(follower_views(events@), events@.len() as int) is Some,
        r matches Some(i) ==> newest_final(follower_views(events@), events@.len() as int) == Some(
            i as int,
        ),
{
    let ghost views = follower_views(events@);
    let mut n: usize = events.len();
    while n > 0
        invariant
            views == follower_views(events@),
            n <= events@.len(),
            newest_final(views, n as int) == newest_final(views, events@.len() as int),
        decreases n,
    {
        assert(views[n - 1] == events@[n - 1]@);
        if let FollowerEvent::Conversation(ConversationEvent::Final(_)) = &events[n - 1] {
            return Some(n - 1);
        }
        n = n - 1;
    }
    None
}

fn is_replay(events: &Vec<FollowerEvent>, policy: CapturePolicy) -> (r: bool)
    ensures
        r == replays(follower_views(events@), policy),
{
    if let CapturePolicy::NewestFinalOnly = policy {
        return true;
    }
    let ghost views = follower_views(events@);
    let mut i: usize = 0;
    while i < events.len()
        invariant
            views == follower_views(events@),
            i <= events@.len(),
            forall|k: int| 0 <= k < i ==> !((#[trigger] views[k]) is Reloaded),
        decreases events@.len() - i,
    {
        assert(views[i as int] == events@[i as int]@);
        if let FollowerEvent::Reloaded = &events[i] {
            return true;
        }
        i = i + 1;
    }
    false
}

fn report_text(line: usize, message: &str) -> (r: String)
    ensures
        r@ == parse_report(line as nat, message@),
{
    let mut r: String = "transcript line ".to_owned();
    let number: String = text::number_text(line as u64);
    r.append(number.as_str());
    r.append(": ");
    r.append(message);
    assert(r@ =~= parse_report(line as nat, message@));
    r
}

fn add_step(steps: &mut Vec<TranscriptStep>, step: TranscriptStep)
    ensures
        step_views(final(steps)@) == step_views(old(steps)@).push(step@),
        final(steps)@ == old(steps)@.push(step),
{
    steps.push(step);
    assert(step_views(steps@) =~= step_views(old(steps)@).push(step@));
}

/// Plans what to do about a batch of the transcript.
pub fn plan_transcript(events: &Vec<FollowerEvent>, policy: CapturePolicy) -> (r: Vec<
    TranscriptStep,
>)
    ensures
        step_views(r@) == transcript_plan(follower_views(events@), policy),
{
    let ghost views = follower_views(events@);
    let replayed: bool = is_replay(events, policy);
    let newest: Option<usize> = find_newest_final(events);
    let all: bool = match policy {
        CapturePolicy::AllFinals => true,
        CapturePolicy::NewestFinalOnly => false,
    };
    let mut steps: Vec<TranscriptStep> = Vec::new();
    assert(step_views(steps@) =~= Seq::<TranscriptStepView>::empty());
    if replayed {
        add_step(&mut steps, TranscriptStep::Reload);
    }
    let ghost head = step_views(steps@);
    let mut i: usize = 0;
    assert(step_views(steps@) =~= head + steps_upto(views, policy, 0));
    while i < events.len()
        invariant
            views == follower_views(events@),
            i <= events@.len(),
            all == (policy is AllFinals),
            newest is Some == newest_final(views, events@.len() as int) is Some,
            newest matches Some(k) ==> newest_final(views, events@.len() as int) == Some(k as int),
            step_views(steps@) == head + steps_upto(views, policy, i as int),
        decreases events@.len() - i,
    {
        let ghost before = step_views(steps@);
        assert(views[i as int] == events@[i as int]@);
        match &events[i] {
            FollowerEvent::Conversation(ConversationEvent::User(message)) => {
                add_step(&mut steps, TranscriptStep::User(message.copied()));
            },
            FollowerEvent::Conversation(ConversationEvent::Final(message)) => {
                let wanted: bool = all || match newest {
                    Some(k) => k == i,
                    None => false,
                };
                add_step(&mut steps, TranscriptStep::Final(message.copied()));
                if wanted {
                    let command = CaptureCommand {
                        stable_id: message.stable_id.clone(),
                        canonical_text: message.text.clone(),
                    };
                    add_step(&mut steps, TranscriptStep::Capture(command));
                }
            },
            FollowerEvent::Reloaded => {},
            FollowerEvent::ParseError { line, message } => {
                add_step(&mut steps, TranscriptStep::Report(report_text(*line, message.as_str())));
            },
        }
        assert(step_views(steps@) =~= before + steps_for(views, policy, i as int));
        assert(step_views(steps@) =~= head + steps_upto(views, policy, i + 1));
        i = i + 1;
    }
    if replayed {
        add_step(&mut steps, TranscriptStep::ReplayComplete);
    }
    assert(step_views(steps@) =~= transcript_plan(views, policy));
    steps
}

/// Takes in a batch of the transcript: plans what to do about it, and marks the
/// history as outdated for everything that changes it.
pub fn apply_follower_events_with_policy(
    events: &Vec<FollowerEvent>,
    history: &mut HistoryRenderCache,
    policy: CapturePolicy,
) -> (r: Vec<TranscriptStep>)
    requires
        old(history).wf(),
    ensures
        final(history).wf(),
        step_views(r@) == transcript_plan(follower_views(events@), policy),
        invalidated_times(
            *old(history),
            *final(history),
            redraw_count(step_views(r@), r@.len() as int),
        ),
{
    let steps: Vec<TranscriptStep> = plan_transcript(events, policy);
    let ghost views = step_views(steps@);
    let mut i: usize = 0;
    while i < steps.len()
        invariant
            views == step_views(steps@),
            i <= steps@.len(),
            history.wf(),
            invalidated_times(*old(history), *history, redraw_count(views, i as int)),
        decreases steps@.len() - i,
    {
        assert(views[i as int] == steps@[i as int]@);
        match &steps[i] {
            TranscriptStep::Reload | TranscriptStep::User(_) | TranscriptStep::Final(_) => {
                history.invalidate();
            },
            _ => {},
        }
        i = i + 1;
    }
    steps
}

/// How soon the draft is saved after a batch of the transcript: at once where it
/// changed how the prompts are summed up.
pub fn transcript_change(displays_changed: bool) -> (r: DraftChange)
    ensures
        displays_changed ==> r is Immediate,
        !displays_changed ==> r is Unchanged,
{
    if displays_changed {
        DraftChange::Immediate
    } else {
        DraftChange::Unchanged
    }
}

/// Takes in what is wrong with the transcript, or with the capture of an answer.
pub fn transcript_reported(app: &mut AppState, message: String)
    ensures
        *final(app) == (AppState { transcript_error: Some(message), ..*old(app) }),
{
    app.transcript_error = Some(message);
}

// ---------------------------------------------------------------------------
// Everything else
// ---------------------------------------------------------------------------

/// What the workers report.
#[derive(Debug, PartialEq, Eq)]
pub enum RuntimeEvent {
    Transcript(Vec<FollowerEvent>),
    TranscriptError(String),
    Observation(Result<SourceObservation, String>),
    Submitted { local_id: String, result: Result<(), String> },
    Interrupted(Result<(), String>),
    InteractionForwarded(Result<(), String>),
    ImageForwarded {
        attachment: Attachment,
        /// The number the pane gave the image, so the overlay can call it what
        /// the pane calls it.
        result: Result<usize, String>,
    },
    AttachmentRemoved { id: String, result: Result<(), String> },
    FinalPresentation(FinalPresentation),
    CaptureDiagnostic(String),
    SourcePaneClosed,
}

/// What is reported of a look at the transcript: nothing where it held nothing
/// new.
pub fn follower_report(polled: Result<Vec<FollowerEvent>, String>) -> (r: Option<RuntimeEvent>)
    ensures
        r == match polled {
            Ok(events) => if events@.len() > 0 {
                Some(RuntimeEvent::Transcript(events))
            } else {
                None
            },
            Err(error) => Some(RuntimeEvent::TranscriptError(error)),
        },
{
    match polled {
        Ok(events) => {
            if events.len() > 0 {
                Some(RuntimeEvent::Transcript(events))
            } else {
                None
            }
        },
        Err(error) => Some(RuntimeEvent::TranscriptError(error)),
    }
}

/// What has to be done about a report.
#[derive(Debug, PartialEq, Eq)]
pub enum Effect {
    Nothing,
    /// Go through these steps.
    Transcript(Vec<TranscriptStep>),
    /// Take in the status that this line of the pane holds.
    Observed { kind: AgentKind, status_text: String, cwd: String },
    /// Give up on a prompt, and put it back into the editor.
    SendFailed { local_id: String, reason: String },
    /// Take in how a key or a paste for the question went.
    InteractionSettled(Result<(), String>),
    /// Put an image into the draft.
    InsertAttachment(Attachment),
    /// Take an image out of the draft. Where a clear was waiting for it, delete
    /// back to that place, then look for the next image in the way.
    RemoveAttachment { id: String, clear_to: Option<usize> },
    /// Show an answer in these styles.
    ShowFinal(FinalPresentation),
    /// The source pane is gone.
    PaneClosed,
}

/// The images that do not have this id.
pub open spec fn without(attachments: Seq<Attachment>, id: Seq<char>) -> Seq<Attachment>
    decreases attachments.len(),
{
    if attachments.len() == 0 {
        attachments
    } else if attachments.last().id@ == id {
        without(attachments.drop_last(), id)
    } else {
        without(attachments.drop_last(), id).push(attachments.last())
    }
}

fn drop_attachment(attachments: &Vec<Attachment>, id: &str) -> (r: Vec<Attachment>)
    ensures
        model::attachment_views(r@) == model::attachment_views(without(attachments@, id@)),
{
    let mut r: Vec<Attachment> = Vec::new();
    let mut i: usize = 0;
    assert(attachments@.take(0) =~= Seq::<Attachment>::empty());
    assert(model::attachment_views(r@) =~= model::attachment_views(
        without(attachments@.take(0), id@),
    ));
    while i < attachments.len()
        invariant
            i <= attachments@.len(),
            model::attachment_views(r@) == model::attachment_views(
                without(attachments@.take(i as int), id@),
            ),
        decreases attachments@.len() - i,
    {
        let ghost so_far = model::attachment_views(r@);
        let ghost kept = without(attachments@.take(i as int), id@);
        assert(attachments@.take(i + 1).drop_last() =~= attachments@.take(i as int));
        if !text::same_text(attachments[i].id.as_str(), id) {
            r.push(attachments[i].copied());
            assert(model::attachment_views(r@) =~= so_far.push(attachments@[i as int]@));
            assert(model::attachment_views(kept.push(attachments@[i as int])) =~= so_far.push(
                attachments@[i as int]@,
            ));
        }
        i = i + 1;
    }
    assert(attachments@.take(i as int) =~= attachments@);
    r
}

/// Since when the agent is at work, after it was seen doing something.
pub open spec fn working_since(app: AppState, status: AgentStatus, now_ms: u64) -> Option<u64> {
    if app.agent_status.working() == status.working() {
        app.working_since_ms
    } else if status.working() {
        Some(now_ms)
    } else {
        None
    }
}

/// Whether a report came out right, where it changes nothing but the errors.
pub open spec fn ignored(before: AppState, after: AppState, r: (Effect, DraftChange)) -> bool {
    after == before && r.0 is Nothing && r.1 is Unchanged
}

/// Whether a look at the pane came out right.
pub open spec fn observed(
    observation: SourceObservation,
    original: AgentIdentity,
    before: AppState,
    after: AppState,
    now_ms: u64,
    r: (Effect, DraftChange),
) -> bool {
    &&& after == AppState {
        connection_error: None,
        input_enabled: true,
        native_composer: observation.native_composer,
        agent_status: observation.identity.status,
        blocked_surface: app::question(observation.blocked_surface),
        working_since_ms: working_since(before, observation.identity.status, now_ms),
        ..before
    }
    &&& r.1 is Unchanged
    &&& r.0 matches Effect::Observed { kind, status_text, cwd } && kind == original.kind
        && status_text@ == observation.status_text@ && cwd@ == original.cwd@
}

/// Whether the answer to a request for an image came out right.
pub open spec fn image_settled(
    attachment: Attachment,
    result: Result<usize, String>,
    before: AppState,
    after: AppState,
    r: (Effect, DraftChange),
) -> bool {
    &&& after == AppState {
        pending_action: None,
        pending_attachments: after.pending_attachments,
        send_error: match result {
            Ok(_) => before.send_error,
            Err(error) => Some(error),
        },
        ..before
    }
    &&& model::attachment_views(after.pending_attachments@) == model::attachment_views(
        without(before.pending_attachments@, attachment.id@),
    )
    &&& match result {
        Ok(marker) => r.1 is Immediate && (r.0 matches Effect::InsertAttachment(shown)
            && shown@ == (model::AttachmentView {
            display: "Image #"@ + text::decimal_text(marker as nat),
            ..attachment@
        })),
        Err(_) => r.0 is Nothing && r.1 is Unchanged,
    }
}

/// Whether the answer to the removal of an image came out right.
pub open spec fn removal_answered(
    id: String,
    result: Result<(), String>,
    before: AppState,
    after: AppState,
    r: (Effect, DraftChange),
) -> bool {
    match result {
        Ok(_) => {
            &&& after == AppState { pending_action: None, ..before }
            &&& r.0 == Effect::RemoveAttachment { id, clear_to: before.clearing_line_to }
            &&& r.1 is Immediate
        },
        Err(error) => {
            &&& after == AppState {
                pending_action: None,
                clearing_line_to: None,
                background_error: Some(error),
                ..before
            }
            &&& r.0 is Nothing
            &&& r.1 is Unchanged
        },
    }
}

/// Whether a report came out right, as far as the state goes.
pub open spec fn applied(
    event: RuntimeEvent,
    original: AgentIdentity,
    before: AppState,
    after: AppState,
    now_ms: u64,
    r: (Effect, DraftChange),
) -> bool {
    match event {
        RuntimeEvent::Transcript(events) => {
            &&& after == AppState { transcript_error: None, ..before }
            &&& r.0 matches Effect::Transcript(steps) && step_views(steps@) == transcript_plan(
                follower_views(events@),
                CapturePolicy::AllFinals,
            )
            &&& r.1 is Unchanged
        },
        RuntimeEvent::TranscriptError(error) => {
            &&& after == AppState { transcript_error: Some(error), ..before }
            &&& r.0 is Nothing
            &&& r.1 is Unchanged
        },
        RuntimeEvent::Observation(Ok(observation)) => if before.source_pane_closed {
            ignored(before, after, r)
        } else {
            observed(observation, original, before, after, now_ms, r)
        },
        RuntimeEvent::Observation(Err(error)) => if before.source_pane_closed {
            ignored(before, after, r)
        } else {
            &&& after == AppState {
                connection_error: Some(error),
                input_enabled: false,
                native_composer: NativeComposerState::Unknown,
                ..before
            }
            &&& r.0 is Nothing
            &&& r.1 is Unchanged
        },
        RuntimeEvent::Submitted { local_id, result } => match result {
            Ok(_) => ignored(before, after, r),
            Err(why) => {
                &&& after == AppState { send_error: after.send_error, ..before }
                &&& keys::says(after.send_error, why@)
                &&& r.0 == Effect::SendFailed { local_id, reason: why }
                &&& r.1 is Immediate
            },
        },
        RuntimeEvent::Interrupted(result) => match result {
            Ok(_) => ignored(before, after, r),
            Err(error) => {
                &&& after == AppState { send_error: Some(error), ..before }
                &&& r.0 is Nothing
                &&& r.1 is Unchanged
            },
        },
        RuntimeEvent::InteractionForwarded(result) => {
            &&& after == before
            &&& r.0 == Effect::InteractionSettled(result)
            &&& r.1 is Unchanged
        },
        RuntimeEvent::ImageForwarded { attachment, result } => image_settled(
            attachment,
            result,
            before,
            after,
            r,
        ),
        RuntimeEvent::AttachmentRemoved { id, result } => removal_answered(
            id,
            result,
            before,
            after,
            r,
        ),
        RuntimeEvent::FinalPresentation(presentation) => {
            &&& after == before
            &&& r.0 == Effect::ShowFinal(presentation)
            &&& r.1 is Unchanged
        },
        RuntimeEvent::CaptureDiagnostic(error) => {
            &&& after == AppState { transcript_error: after.transcript_error, ..before }
            &&& keys::says(after.transcript_error, "final style capture: "@ + error@)
            &&& r.0 is Nothing
            &&& r.1 is Unchanged
        },
        RuntimeEvent::SourcePaneClosed => {
            &&& after == AppState { source_pane_closed: true, input_enabled: false, ..before }
            &&& r.0 is PaneClosed
            &&& r.1 is Unchanged
        },
    }
}

/// How often a report marks the history as outdated.
pub open spec fn redraws_of(event: RuntimeEvent) -> nat {
    match event {
        RuntimeEvent::Transcript(events) => {
            let plan = transcript_plan(follower_views(events@), CapturePolicy::AllFinals);
            redraw_count(plan, plan.len() as int)
        },
        RuntimeEvent::Submitted { local_id: _, result: Err(_) } => 1,
        RuntimeEvent::FinalPresentation(_) => 1,
        _ => 0,
    }
}

/// Takes in what a worker reports.
pub fn apply_runtime_event(
    event: RuntimeEvent,
    original: &AgentIdentity,
    app: &mut AppState,
    history: &mut HistoryRenderCache,
    now_ms: u64,
) -> (r: (Effect, DraftChange))
    requires
        old(history).wf(),
    ensures
        final(history).wf(),
        applied(event, *original, *old(app), *final(app), now_ms, r),
        invalidated_times(*old(history), *final(history), redraws_of(event)),
{
    match event {
        RuntimeEvent::Transcript(events) => {
            app.transcript_error = None;
            let steps: Vec<TranscriptStep> = apply_follower_events_with_policy(
                &events,
                history,
                CapturePolicy::AllFinals,
            );
            (Effect::Transcript(steps), DraftChange::Unchanged)
        },
        RuntimeEvent::TranscriptError(error) => {
            app.transcript_error = Some(error);
            (Effect::Nothing, DraftChange::Unchanged)
        },
        RuntimeEvent::Observation(result) => (
            observe(result, original, app, now_ms),
            DraftChange::Unchanged,
        ),
        RuntimeEvent::Submitted { local_id, result } => {
            match result {
                Ok(()) => (Effect::Nothing, DraftChange::Unchanged),
                Err(reason) => {
                    history.invalidate();
                    app.send_error = Some(reason.clone());
                    (Effect::SendFailed { local_id, reason }, DraftChange::Immediate)
                },
            }
        },
        RuntimeEvent::Interrupted(result) => {
            if let Err(error) = result {
                app.send_error = Some(error);
            }
            (Effect::Nothing, DraftChange::Unchanged)
        },
        RuntimeEvent::InteractionForwarded(result) => {
            (Effect::InteractionSettled(result), DraftChange::Unchanged)
        },
        RuntimeEvent::ImageForwarded { attachment, result } => {
            app.pending_action = None;
            app.pending_attachments = drop_attachment(
                &app.pending_attachments,
                attachment.id.as_str(),
            );
            match result {
                Ok(marker) => {
                    let shown = Attachment {
                        id: attachment.id,
                        display: text::numbered_text("Image #", marker as u64),
                        native_path: attachment.native_path,
                    };
                    (Effect::InsertAttachment(shown), DraftChange::Immediate)
                },
                Err(error) => {
                    app.send_error = Some(error);
                    (Effect::Nothing, DraftChange::Unchanged)
                },
            }
        },
        RuntimeEvent::AttachmentRemoved { id, result } => {
            app.pending_action = None;
            match result {
                Ok(()) => (
                    Effect::RemoveAttachment { id, clear_to: app.clearing_line_to },
                    DraftChange::Immediate,
                ),
                Err(error) => {
                    app.clearing_line_to = None;
                    app.background_error = Some(error);
                    (Effect::Nothing, DraftChange::Unchanged)
                },
            }
        },
        RuntimeEvent::FinalPresentation(presentation) => {
            history.invalidate();
            (Effect::ShowFinal(presentation), DraftChange::Unchanged)
        },
        RuntimeEvent::CaptureDiagnostic(error) => {
            let mut message: String = "final style capture: ".to_owned();
            message.append(error.as_str());
            app.transcript_error = Some(message);
            (Effect::Nothing, DraftChange::Unchanged)
        },
        RuntimeEvent::SourcePaneClosed => {
            app.source_pane_closed = true;
            app.input_enabled = false;
            (Effect::PaneClosed, DraftChange::Unchanged)
        },
    }
}

/// Takes in a look at the pane.
fn observe(
    result: Result<SourceObservation, String>,
    original: &AgentIdentity,
    app: &mut AppState,
    now_ms: u64,
) -> (r: Effect)
    ensures
        applied(
            RuntimeEvent::Observation(result),
            *original,
            *old(app),
            *final(app),
            now_ms,
            (r, DraftChange::Unchanged),
        ),
{
    if app.source_pane_closed {
        return Effect::Nothing;
    }
    match result {
        Ok(observation) => {
            app.connection_error = None;
            app.input_enabled = true;
            app.native_composer = observation.native_composer;
            let status: AgentStatus = observation.identity.status;
            let was_working: bool = app.agent_status.is_working();
            if !was_working && status.is_working() {
                app.working_since_ms = Some(now_ms);
            } else if was_working && !status.is_working() {
                app.working_since_ms = None;
            }
            app.update_blocked_surface(status, observation.blocked_surface);
            Effect::Observed {
                kind: original.kind,
                status_text: observation.status_text,
                cwd: original.cwd.clone(),
            }
        },
        Err(error) => {
            app.connection_error = Some(error);
            app.input_enabled = false;
            app.native_composer = NativeComposerState::Unknown;
            Effect::Nothing
        },
    }
}

/// Takes in the images that the draft holds after it changed.
pub fn attachments_settled(app: &mut AppState, attachments: Vec<Attachment>)
    ensures
        *final(app) == (AppState { draft_attachments: attachments, ..*old(app) }),
{
    app.draft_attachments = attachments;
}

// ---------------------------------------------------------------------------
// Saving the draft
// ---------------------------------------------------------------------------

/// How long a draft that is being typed waits to be saved.
pub const DRAFT_DEBOUNCE_MS: u64 = 250;

/// Whether a draft has to be saved, and when.
#[derive(Clone, Copy, Debug, PartialEq, Eq, Structural)]
pub struct DraftClock {
    pub dirty: bool,
    pub save_at_ms: u64,
}

/// A moment later, as far as the clock goes.
pub open spec fn later(now_ms: u64, wait_ms: u64) -> u64 {
    if now_ms + wait_ms > u64::MAX {
        u64::MAX
    } else {
        (now_ms + wait_ms) as u64
    }
}

impl DraftClock {
    /// Takes in a change of the draft. Returns whether it is saved at once.
    pub fn changed(&mut self, change: DraftChange, now_ms: u64) -> (r: bool)
        ensures
            r == (change is Immediate),
            change is Unchanged ==> *final(self) == *old(self),
            change is Debounced ==> *final(self) == (DraftClock {
                dirty: true,
                save_at_ms: later(now_ms, DRAFT_DEBOUNCE_MS),
            }),
            change is Immediate ==> *final(self) == (DraftClock { dirty: false, ..*old(self) }),
    {
        match change {
            DraftChange::Unchanged => false,
            DraftChange::Debounced => {
                self.dirty = true;
                self.save_at_ms = now_ms.saturating_add(DRAFT_DEBOUNCE_MS);
                false
            },
            DraftChange::Immediate => {
                self.dirty = false;
                true
            },
        }
    }

    /// Whether a draft that was being typed is to be saved now. It is then no
    /// longer waiting.
    pub fn due(&mut self, now_ms: u64) -> (r: bool)
        ensures
            r == (old(self).dirty && now_ms >= old(self).save_at_ms),
            r ==> *final(self) == (DraftClock { dirty: false, ..*old(self) }),
            !r ==> *final(self) == *old(self),
    {
        let due: bool = self.dirty && now_ms >= self.save_at_ms;
        if due {
            self.dirty = false;
        }
        due
    }
}

// ---------------------------------------------------------------------------
// What holds of every report
// ---------------------------------------------------------------------------

/// After a look at the pane that failed, the composer takes no input, however
/// clear it was before.
pub proof fn lemma_failed_observation_guards_the_composer(
    error: String,
    original: AgentIdentity,
    before: AppState,
    after: AppState,
    now_ms: u64,
    r: (Effect, DraftChange),
)
    requires
        !before.source_pane_closed,
        applied(
            RuntimeEvent::Observation(Err(error)),
            original,
            before,
            after,
            now_ms,
            r,
        ),
    ensures
        !keys::input_allowed(after),
        after.native_composer is Unknown,
{
}

/// Once the source pane is closed, no look at it changes anything.
pub proof fn lemma_closed_pane_is_not_observed(
    result: Result<SourceObservation, String>,
    original: AgentIdentity,
    before: AppState,
    after: AppState,
    now_ms: u64,
    r: (Effect, DraftChange),
)
    requires
        before.source_pane_closed,
        applied(RuntimeEvent::Observation(result), original, before, after, now_ms, r),
    ensures
        after == before,
        r.0 is Nothing,
{
}

/// A pane that closed takes no input, and no report makes it take any again.
pub proof fn lemma_closed_pane_stays_closed(
    event: RuntimeEvent,
    original: AgentIdentity,
    before: AppState,
    after: AppState,
    now_ms: u64,
    r: (Effect, DraftChange),
)
    requires
        applied(event, original, before, after, now_ms, r),
    ensures
        event is SourcePaneClosed ==> after.source_pane_closed && !after.input_enabled,
        before.source_pane_closed ==> after.source_pane_closed,
        before.source_pane_closed && !before.input_enabled ==> !after.input_enabled
            && !keys::input_allowed(after),
{
}

/// What an observation says of the agent is what the overlay goes by: its screen
/// is that of a question just where the agent is blocked.
pub proof fn lemma_observation_sets_the_status(
    observation: SourceObservation,
    original: AgentIdentity,
    before: AppState,
    after: AppState,
    now_ms: u64,
    r: (Effect, DraftChange),
)
    requires
        !before.source_pane_closed,
        applied(
            RuntimeEvent::Observation(Ok(observation)),
            original,
            before,
            after,
            now_ms,
            r,
        ),
    ensures
        after.agent_status == observation.identity.status,
        observation.blocked_surface matches Some(surface) ==> after.blocked_surface
            == BlockedSurface::Read(surface),
        observation.blocked_surface is None ==> after.blocked_surface is Missing,
{
}

/// How many of the first `n` steps look for the styles of an answer.
pub open spec fn capture_count(steps: Seq<TranscriptStepView>, n: int) -> nat
    decreases n,
{
    if n <= 0 {
        0
    } else {
        capture_count(steps, n - 1) + if steps[n - 1] is Capture {
            1nat
        } else {
            0nat
        }
    }
}

/// How many of the first `n` events are answers.
pub open spec fn final_count(events: Seq<FollowerView>, n: int) -> nat
    decreases n,
{
    if n <= 0 {
        0
    } else {
        final_count(events, n - 1) + if is_final(events[n - 1]) {
            1nat
        } else {
            0nat
        }
    }
}

proof fn lemma_capture_count_of_sum(a: Seq<TranscriptStepView>, b: Seq<TranscriptStepView>, n: int)
    requires
        0 <= n <= b.len(),
    ensures
        capture_count(a + b, a.len() + n) == capture_count(a, a.len() as int) + capture_count(b, n),
    decreases n,
{
    if n == 0 {
        lemma_capture_count_of_prefix(a, b, a.len() as int);
    } else {
        lemma_capture_count_of_sum(a, b, n - 1);
        assert((a + b)[a.len() + n - 1] == b[n - 1]);
    }
}

proof fn lemma_capture_count_of_prefix(
    a: Seq<TranscriptStepView>,
    b: Seq<TranscriptStepView>,
    n: int,
)
    requires
        0 <= n <= a.len(),
    ensures
        capture_count(a + b, n) == capture_count(a, n),
    decreases n,
{
    if n > 0 {
        lemma_capture_count_of_prefix(a, b, n - 1);
    }
}

proof fn lemma_newest_final_in_range(events: Seq<FollowerView>, n: int)
    requires
        0 <= n <= events.len(),
    ensures
        newest_final(events, n) matches Some(k) ==> 0 <= k < n && is_final(events[k]),
    decreases n,
{
    if n > 0 && !is_final(events[n - 1]) {
        lemma_newest_final_in_range(events, n - 1);
    }
}

proof fn lemma_captures_upto(events: Seq<FollowerView>, policy: CapturePolicy, n: int)
    requires
        0 <= n <= events.len(),
    ensures
        ({
            let steps = steps_upto(events, policy, n);
            let found = capture_count(steps, steps.len() as int);
            let newest = newest_final(events, events.len() as int);
            &&& policy is AllFinals ==> found == final_count(events, n)
            &&& policy is NewestFinalOnly ==> found == (if newest matches Some(k) && k < n {
                1nat
            } else {
                0nat
            })
        }),
    decreases n,
{
    lemma_newest_final_in_range(events, events.len() as int);
    if n > 0 {
        lemma_captures_upto(events, policy, n - 1);
        let before = steps_upto(events, policy, n - 1);
        let here = steps_for(events, policy, n - 1);
        lemma_capture_count_of_sum(before, here, here.len() as int);
        reveal_with_fuel(capture_count, 3);
    }
}

/// A replay looks for the styles of one answer, the newest, and of none where
/// there is none. A batch that arrives live looks for those of each of its
/// answers.
pub proof fn lemma_captures_of_a_batch(events: Seq<FollowerView>, policy: CapturePolicy)
    ensures
        ({
            let plan = transcript_plan(events, policy);
            let finals = final_count(events, events.len() as int);
            let found = capture_count(plan, plan.len() as int);
            &&& policy is AllFinals ==> found == finals
            &&& policy is NewestFinalOnly ==> found == (if finals > 0 {
                1nat
            } else {
                0nat
            })
        }),
{
    let n = events.len() as int;
    let steps = steps_upto(events, policy, n);
    lemma_captures_upto(events, policy, n);
    lemma_final_count_positive(events, n);
    lemma_newest_final_in_range(events, n);
    if replays(events, policy) {
        let head = seq![TranscriptStepView::Reload];
        let tail = seq![TranscriptStepView::ReplayComplete];
        lemma_capture_count_of_sum(head, steps, steps.len() as int);
        lemma_capture_count_of_sum(head + steps, tail, 1);
        reveal_with_fuel(capture_count, 3);
        assert(capture_count(head, 1) == 0);
        assert(capture_count(tail, 1) == 0);
    }
}

proof fn lemma_final_count_positive(events: Seq<FollowerView>, n: int)
    requires
        0 <= n <= events.len(),
    ensures
        final_count(events, n) > 0 <==> newest_final(events, n) is Some,
    decreases n,
{
    if n > 0 {
        lemma_final_count_positive(events, n - 1);
    }
}

/// The prompts and answers among the first `n` events.
pub open spec fn messages_of_events(events: Seq<FollowerView>, n: int) -> Seq<model::EventView>
    decreases n,
{
    if n <= 0 {
        Seq::empty()
    } else {
        match events[n - 1] {
            FollowerView::Conversation(event) => messages_of_events(events, n - 1).push(event),
            _ => messages_of_events(events, n - 1),
        }
    }
}

/// The prompts and answers that the first `n` steps take in.
pub open spec fn messages_of_steps(steps: Seq<TranscriptStepView>, n: int) -> Seq<model::EventView>
    decreases n,
{
    if n <= 0 {
        Seq::empty()
    } else {
        match steps[n - 1] {
            TranscriptStepView::User(message) => messages_of_steps(steps, n - 1).push(
                model::EventView::User(message),
            ),
            TranscriptStepView::Final(message) => messages_of_steps(steps, n - 1).push(
                model::EventView::Final(message),
            ),
            _ => messages_of_steps(steps, n - 1),
        }
    }
}

proof fn lemma_messages_of_sum(a: Seq<TranscriptStepView>, b: Seq<TranscriptStepView>, n: int)
    requires
        0 <= n <= b.len(),
    ensures
        messages_of_steps(a + b, a.len() + n) == messages_of_steps(a, a.len() as int)
            + messages_of_steps(b, n),
    decreases n,
{
    if n == 0 {
        lemma_messages_of_prefix(a, b, a.len() as int);
        assert(messages_of_steps(a, a.len() as int) + messages_of_steps(b, 0)
            =~= messages_of_steps(a, a.len() as int));
    } else {
        lemma_messages_of_sum(a, b, n - 1);
        assert((a + b)[a.len() + n - 1] == b[n - 1]);
        assert(messages_of_steps(a + b, a.len() + n) =~= messages_of_steps(a, a.len() as int)
            + messages_of_steps(b, n));
    }
}

proof fn lemma_messages_of_prefix(a: Seq<TranscriptStepView>, b: Seq<TranscriptStepView>, n: int)
    requires
        0 <= n <= a.len(),
    ensures
        messages_of_steps(a + b, n) == messages_of_steps(a, n),
    decreases n,
{
    if n > 0 {
        lemma_messages_of_prefix(a, b, n - 1);
    }
}

proof fn lemma_messages_upto(events: Seq<FollowerView>, policy: CapturePolicy, n: int)
    requires
        0 <= n <= events.len(),
    ensures
        messages_of_steps(steps_upto(events, policy, n), steps_upto(events, policy, n).len() as int)
            == messages_of_events(events, n),
    decreases n,
{
    if n > 0 {
        lemma_messages_upto(events, policy, n - 1);
        let before = steps_upto(events, policy, n - 1);
        let here = steps_for(events, policy, n - 1);
        lemma_messages_of_sum(before, here, here.len() as int);
        reveal_with_fuel(messages_of_steps, 3);
        assert(messages_of_events(events, n) =~= messages_of_events(events, n - 1)
            + messages_of_steps(here, here.len() as int));
    }
}

/// Every prompt and every answer of a batch is taken in once, in the order of
/// the transcript, whichever answers get their styles looked for.
pub proof fn lemma_batch_keeps_every_message(events: Seq<FollowerView>, policy: CapturePolicy)
    ensures
        messages_of_steps(
            transcript_plan(events, policy),
            transcript_plan(events, policy).len() as int,
        ) == messages_of_events(events, events.len() as int),
{
    let n = events.len() as int;
    let steps = steps_upto(events, policy, n);
    lemma_messages_upto(events, policy, n);
    if replays(events, policy) {
        let head = seq![TranscriptStepView::Reload];
        let tail = seq![TranscriptStepView::ReplayComplete];
        lemma_messages_of_sum(head, steps, steps.len() as int);
        lemma_messages_of_sum(head + steps, tail, 1);
        reveal_with_fuel(messages_of_steps, 3);
        assert(messages_of_steps(head, 1) =~= Seq::<model::EventView>::empty());
        assert(messages_of_steps(tail, 1) =~= Seq::<model::EventView>::empty());
        assert(messages_of_steps(transcript_plan(events, policy), steps.len() as int + 2)
            =~= messages_of_events(events, n));
    }
}

}
