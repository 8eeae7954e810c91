use herdr_simple_prompts::agent::{AgentIdentity, AgentKind, AgentStatus};
use herdr_simple_prompts::app::{AppState, BlockedSurface, PendingAction};
use herdr_simple_prompts::composer::NativeComposerState;
use herdr_simple_prompts::model::{Attachment, ConversationEvent, Message};
use herdr_simple_prompts::style::{MessagePresentation, StyledText};
use herdr_simple_prompts::ui::adopt::AdoptedDraft;
use herdr_simple_prompts::ui::events::{
    apply_follower_events_with_policy, apply_runtime_event, attachments_settled, follower_report,
    transcript_change, transcript_reported, CapturePolicy, DraftClock, Effect, FollowerEvent,
    RuntimeEvent, TranscriptStep,
};
use herdr_simple_prompts::ui::history::HistoryRenderCache;
use herdr_simple_prompts::ui::keys::{ordinary_input_allowed, DraftChange};
use herdr_simple_prompts::ui::runtime::{
    capture_queued, FinalPresentation, Queued, SourceObservation,
};
use herdr_simple_prompts::ui::session::{
    adopt_notice, adopted_attachments, cleanup_failed, draft_not_saved, history_not_saved,
    opening_state,
};

fn user_event(index: usize) -> FollowerEvent {
    FollowerEvent::Conversation(ConversationEvent::User(Message::text(
        &format!("prompt-{index}"),
        &format!("prompt {index}"),
        None,
    )))
}

fn final_event(index: usize) -> FollowerEvent {
    FollowerEvent::Conversation(ConversationEvent::Final(Message::final_text(
        &format!("final-{index}"),
        &format!("answer-{index}"),
        Some(index as u64),
    )))
}

fn captured(steps: &[TranscriptStep]) -> Vec<&str> {
    steps
        .iter()
        .filter_map(|step| match step {
            TranscriptStep::Capture(command) => Some(command.stable_id.as_str()),
            _ => None,
        })
        .collect()
}

fn taken_in(steps: &[TranscriptStep]) -> Vec<&str> {
    steps
        .iter()
        .filter_map(|step| match step {
            TranscriptStep::User(message) | TranscriptStep::Final(message) => {
                Some(message.stable_id.as_str())
            }
            _ => None,
        })
        .collect()
}

fn original(status: AgentStatus) -> AgentIdentity {
    AgentIdentity {
        pane_id: "w1:p1".into(),
        kind: AgentKind::Codex,
        session_id: "session-1".into(),
        cwd: "/repo".into(),
        status,
    }
}

fn image(id: &str, display: &str) -> Attachment {
    Attachment { id: id.into(), display: display.into(), native_path: None }
}

fn apply(event: RuntimeEvent, app: &mut AppState) -> (Effect, DraftChange) {
    let mut cache = HistoryRenderCache::default();
    apply_runtime_event(event, &original(AgentStatus::Done), app, &mut cache, 500)
}

#[test]
fn initial_replay_with_more_than_capture_capacity_enqueues_only_newest_final() {
    let mut cache = HistoryRenderCache::default();
    let mut events = Vec::new();
    for index in 0..10 {
        events.push(user_event(index));
        events.push(final_event(index));
    }

    let steps =
        apply_follower_events_with_policy(&events, &mut cache, CapturePolicy::NewestFinalOnly);

    assert_eq!(captured(&steps), ["final-9"]);
    assert_eq!(
        steps.iter().filter(|step| matches!(step, TranscriptStep::User(_))).count(),
        10
    );
    assert_eq!(steps.first(), Some(&TranscriptStep::Reload));
    assert_eq!(steps.last(), Some(&TranscriptStep::ReplayComplete));
    assert_eq!(cache.generation, 21);
}

#[test]
fn an_initial_batch_is_taken_in_in_the_order_of_the_transcript() {
    let events = vec![user_event(1), final_event(1), user_event(2), final_event(2)];
    let steps = apply_follower_events_with_policy(
        &events,
        &mut HistoryRenderCache::default(),
        CapturePolicy::NewestFinalOnly,
    );

    assert_eq!(taken_in(&steps), ["prompt-1", "final-1", "prompt-2", "final-2"]);
    assert_eq!(captured(&steps), ["final-2"]);
    assert_eq!(steps.first(), Some(&TranscriptStep::Reload));
    assert_eq!(steps.last(), Some(&TranscriptStep::ReplayComplete));
}

#[test]
fn saturated_capture_queue_is_not_reported_as_an_error() {
    let mut cache = HistoryRenderCache::default();
    let mut events = Vec::new();
    for index in 0..5 {
        events.push(user_event(index));
        events.push(final_event(index));
    }
    let steps = apply_follower_events_with_policy(&events, &mut cache, CapturePolicy::AllFinals);

    let mut app = AppState::default();
    let mut room = 2;
    let mut queued = 0;
    for _ in captured(&steps) {
        let outcome = if room > 0 { Queued::Sent } else { Queued::Full };
        room -= usize::from(room > 0);
        match capture_queued(outcome) {
            Ok(sent) => queued += usize::from(sent),
            Err(error) => transcript_reported(&mut app, error),
        }
    }

    assert_eq!(queued, 2);
    assert_eq!(app.transcript_error, None);
    assert_eq!(taken_in(&steps).len(), 10);
}

#[test]
fn live_batch_enqueues_each_new_final() {
    let mut cache = HistoryRenderCache::default();
    let events = vec![user_event(1), final_event(1), user_event(2), final_event(2)];

    let steps = apply_follower_events_with_policy(&events, &mut cache, CapturePolicy::AllFinals);

    assert_eq!(captured(&steps), ["final-1", "final-2"]);
    assert_eq!(taken_in(&steps), ["prompt-1", "final-1", "prompt-2", "final-2"]);
    assert!(!steps.contains(&TranscriptStep::Reload));
}

#[test]
fn a_reload_is_a_replay_and_a_bad_line_is_named() {
    let mut cache = HistoryRenderCache::default();
    let events = vec![
        FollowerEvent::Reloaded,
        FollowerEvent::ParseError { line: 12, message: "broken".into() },
    ];
    let steps = apply_follower_events_with_policy(&events, &mut cache, CapturePolicy::AllFinals);
    assert_eq!(
        steps,
        [
            TranscriptStep::Reload,
            TranscriptStep::Report("transcript line 12: broken".into()),
            TranscriptStep::ReplayComplete,
        ]
    );
    assert_eq!(cache.generation, 1);
}

#[test]
fn a_transcript_clears_its_own_error_first() {
    let mut app = AppState { transcript_error: Some("old".into()), ..AppState::default() };
    let (effect, change) = apply(RuntimeEvent::Transcript(vec![user_event(1)]), &mut app);
    assert_eq!(app.transcript_error, None);
    assert_eq!(change, DraftChange::Unchanged);
    assert!(matches!(effect, Effect::Transcript(steps) if taken_in(&steps) == ["prompt-1"]));
    apply(RuntimeEvent::TranscriptError("unreadable".into()), &mut app);
    assert_eq!(app.transcript_error.as_deref(), Some("unreadable"));
    assert_eq!(transcript_change(true), DraftChange::Immediate);
    assert_eq!(transcript_change(false), DraftChange::Unchanged);
}

#[test]
fn a_pasted_image_takes_the_number_the_pane_gave_it() {
    let mut app = AppState {
        pending_attachments: vec![
            image("local-image-1", "Image #1"),
            image("local-image-2", "Image #2"),
        ],
        pending_action: Some(PendingAction { label: "Attaching image".into(), since_ms: 1 }),
        ..AppState::default()
    };

    let (effect, change) = apply(
        RuntimeEvent::ImageForwarded {
            attachment: image("local-image-1", "Image #1"),
            result: Ok(7),
        },
        &mut app,
    );

    let Effect::InsertAttachment(shown) = effect else {
        panic!("the image must be put into the draft");
    };
    assert_eq!(shown.display, "Image #7");
    assert_eq!(change, DraftChange::Immediate);
    assert_eq!(app.pending_action, None);
    assert_eq!(app.pending_attachments, [image("local-image-2", "Image #2")]);
    attachments_settled(&mut app, vec![shown]);
    assert_eq!(app.draft_attachments.len(), 1);
    assert_eq!(app.draft_attachments[0].display, "Image #7");
}

#[test]
fn an_image_the_pane_refused_is_not_waited_for() {
    let mut app = AppState {
        pending_attachments: vec![image("local-image-1", "Image #1")],
        ..AppState::default()
    };
    let (effect, change) = apply(
        RuntimeEvent::ImageForwarded {
            attachment: image("local-image-1", "Image #1"),
            result: Err("not accepted".into()),
        },
        &mut app,
    );
    assert_eq!(effect, Effect::Nothing);
    assert_eq!(change, DraftChange::Unchanged);
    assert!(app.pending_attachments.is_empty());
    assert_eq!(app.send_error.as_deref(), Some("not accepted"));
}

#[test]
fn an_image_is_dropped_only_once_the_pane_has_lost_it() {
    let mut app = AppState {
        draft_attachments: vec![image("native-image-5", "Image #5")],
        clearing_line_to: Some(0),
        ..AppState::default()
    };

    let (effect, _) = apply(
        RuntimeEvent::AttachmentRemoved {
            id: "native-image-5".into(),
            result: Err("could not reach the image".into()),
        },
        &mut app,
    );
    assert_eq!(effect, Effect::Nothing, "a refusal changes nothing");
    assert!(app.background_error.is_some());
    assert_eq!(app.clearing_line_to, None, "and stops the clear");

    let (effect, change) = apply(
        RuntimeEvent::AttachmentRemoved { id: "native-image-5".into(), result: Ok(()) },
        &mut app,
    );
    assert_eq!(
        effect,
        Effect::RemoveAttachment { id: "native-image-5".into(), clear_to: None }
    );
    assert_eq!(change, DraftChange::Immediate);
}

#[test]
fn a_clear_goes_on_behind_the_image_it_waited_for() {
    let mut app = AppState { clearing_line_to: Some(4), ..AppState::default() };
    let (effect, _) = apply(
        RuntimeEvent::AttachmentRemoved { id: "a".into(), result: Ok(()) },
        &mut app,
    );
    assert_eq!(effect, Effect::RemoveAttachment { id: "a".into(), clear_to: Some(4) });
}

#[test]
fn safe_observation_reenables_preserved_editor_draft() {
    let mut app = AppState {
        native_composer: NativeComposerState::Occupied,
        input_enabled: false,
        connection_error: Some("lost".into()),
        ..AppState::default()
    };

    let (effect, change) = apply(
        RuntimeEvent::Observation(Ok(SourceObservation {
            identity: original(AgentStatus::Done),
            status_text: "gpt-5.6-sol · /repo · weekly 75% left".into(),
            native_composer: NativeComposerState::Clear,
            blocked_surface: None,
        })),
        &mut app,
    );

    assert_eq!(app.native_composer, NativeComposerState::Clear);
    assert!(app.input_enabled);
    assert_eq!(app.connection_error, None);
    assert_eq!(change, DraftChange::Unchanged, "the draft is left as it is");
    assert_eq!(
        effect,
        Effect::Observed {
            kind: AgentKind::Codex,
            status_text: "gpt-5.6-sol · /repo · weekly 75% left".into(),
            cwd: "/repo".into(),
        }
    );
}

#[test]
fn work_is_timed_from_when_it_was_first_seen() {
    let seen = |status| {
        RuntimeEvent::Observation(Ok(SourceObservation {
            identity: original(status),
            status_text: String::new(),
            native_composer: NativeComposerState::Clear,
            blocked_surface: None,
        }))
    };
    let mut app = AppState::default();
    apply(seen(AgentStatus::Working), &mut app);
    assert_eq!(app.working_since_ms, Some(500));
    assert_eq!(app.agent_status, AgentStatus::Working);
    app.working_since_ms = Some(7);
    apply(seen(AgentStatus::Working), &mut app);
    assert_eq!(app.working_since_ms, Some(7));
    apply(seen(AgentStatus::Done), &mut app);
    assert_eq!(app.working_since_ms, None);
}

#[test]
fn asynchronous_preflight_failure_restores_exact_draft_once() {
    let mut app = AppState::default();
    let mut cache = HistoryRenderCache::default();
    let (effect, change) = apply_runtime_event(
        RuntimeEvent::Submitted {
            local_id: "local-1".into(),
            result: Err("native composer contains unsent input".into()),
        },
        &original(AgentStatus::Done),
        &mut app,
        &mut cache,
        0,
    );

    assert_eq!(
        effect,
        Effect::SendFailed {
            local_id: "local-1".into(),
            reason: "native composer contains unsent input".into(),
        }
    );
    assert_eq!(change, DraftChange::Immediate);
    assert_eq!(
        app.send_error.as_deref(),
        Some("native composer contains unsent input")
    );
    assert_eq!(cache.generation, 1);
    assert_eq!(
        apply(
            RuntimeEvent::Submitted { local_id: "local-1".into(), result: Ok(()) },
            &mut app
        ),
        (Effect::Nothing, DraftChange::Unchanged)
    );
}

#[test]
fn failed_observation_replaces_a_stale_clear_composer_with_unknown() {
    let mut app = AppState {
        native_composer: NativeComposerState::Clear,
        ..AppState::default()
    };

    apply(
        RuntimeEvent::Observation(Err("screen unavailable".into())),
        &mut app,
    );

    assert_eq!(app.native_composer, NativeComposerState::Unknown);
    assert!(!app.input_enabled);
    assert!(!ordinary_input_allowed(&app));
    assert_eq!(app.connection_error.as_deref(), Some("screen unavailable"));
}

#[test]
fn a_closed_pane_is_no_longer_observed() {
    let mut app = AppState { source_pane_closed: true, ..AppState::default() };
    let before = app.clone();
    assert_eq!(
        apply(RuntimeEvent::Observation(Err("late".into())), &mut app),
        (Effect::Nothing, DraftChange::Unchanged)
    );
    assert_eq!(app, before);
}

#[test]
fn a_closed_pane_is_never_enabled_again() {
    let mut app = AppState::default();
    assert_eq!(
        apply(RuntimeEvent::SourcePaneClosed, &mut app),
        (Effect::PaneClosed, DraftChange::Unchanged)
    );
    assert!(app.source_pane_closed);
    assert!(!ordinary_input_allowed(&app));
    apply(
        RuntimeEvent::Observation(Ok(SourceObservation {
            identity: original(AgentStatus::Done),
            status_text: String::new(),
            native_composer: NativeComposerState::Clear,
            blocked_surface: None,
        })),
        &mut app,
    );
    assert!(app.source_pane_closed);
    assert!(!ordinary_input_allowed(&app));
}

#[test]
fn a_question_is_taken_in_with_the_status_of_the_agent() {
    let seen = |status, blocked_surface| {
        RuntimeEvent::Observation(Ok(SourceObservation {
            identity: original(status),
            status_text: String::new(),
            native_composer: NativeComposerState::Unknown,
            blocked_surface,
        }))
    };
    let question = StyledText { text: "Allow command?".into(), runs: Vec::new() };
    let mut app = AppState::default();
    apply(seen(AgentStatus::Blocked, Some(question.clone())), &mut app);
    assert_eq!(app.agent_status, AgentStatus::Blocked);
    assert_eq!(app.blocked_surface, BlockedSurface::Read(question));
    apply(seen(AgentStatus::Done, None), &mut app);
    assert_eq!(app.agent_status, AgentStatus::Done);
    assert_eq!(app.blocked_surface, BlockedSurface::Missing);
}

#[test]
fn the_other_reports_reach_their_place() {
    let mut app = AppState::default();
    apply(RuntimeEvent::Interrupted(Err("busy".into())), &mut app);
    assert_eq!(app.send_error.as_deref(), Some("busy"));
    apply(RuntimeEvent::CaptureDiagnostic("unreadable".into()), &mut app);
    assert_eq!(
        app.transcript_error.as_deref(),
        Some("final style capture: unreadable")
    );
    assert_eq!(
        apply(RuntimeEvent::InteractionForwarded(Err("no".into())), &mut app).0,
        Effect::InteractionSettled(Err("no".into()))
    );
    let shown = FinalPresentation {
        stable_id: "a".into(),
        text_fingerprint: 3,
        presentation: MessagePresentation::MarkdownFallback,
    };
    assert_eq!(
        apply(RuntimeEvent::FinalPresentation(shown.clone()), &mut app).0,
        Effect::ShowFinal(shown)
    );
}

#[test]
fn a_look_at_the_transcript_reports_only_what_is_new() {
    assert_eq!(follower_report(Ok(Vec::new())), None);
    assert_eq!(
        follower_report(Ok(vec![FollowerEvent::Reloaded])),
        Some(RuntimeEvent::Transcript(vec![FollowerEvent::Reloaded]))
    );
    assert_eq!(
        follower_report(Err("gone".into())),
        Some(RuntimeEvent::TranscriptError("gone".into()))
    );
}

#[test]
fn a_draft_that_is_typed_is_saved_a_moment_later() {
    let mut clock = DraftClock { dirty: false, save_at_ms: 0 };
    assert!(!clock.changed(DraftChange::Unchanged, 100));
    assert!(!clock.due(100));
    assert!(!clock.changed(DraftChange::Debounced, 100));
    assert_eq!(clock, DraftClock { dirty: true, save_at_ms: 350 });
    assert!(!clock.due(349));
    assert!(clock.due(350));
    assert!(!clock.due(351));
    clock.changed(DraftChange::Debounced, 400);
    assert!(clock.changed(DraftChange::Immediate, 401));
    assert!(!clock.due(10_000));
}

#[test]
fn the_overlay_opens_guarded() {
    let markers = adopted_attachments(&vec![3, 5]);
    assert_eq!(
        markers,
        [image("native-image-3", "Image #3"), image("native-image-5", "Image #5")]
    );
    let adopted = AdoptedDraft { text: "x".into(), markers: vec![3, 5], cleared: false };
    let notice = adopt_notice(&adopted);
    assert_eq!(
        notice.as_deref(),
        Some("native composer still holds a copy of the adopted draft")
    );
    let mut app = opening_state(AgentStatus::Working, markers, notice, 42);
    assert!(!ordinary_input_allowed(&app));
    assert_eq!(app.working_since_ms, Some(42));
    assert_eq!(app.draft_attachments.len(), 2);
    assert_eq!(
        adopt_notice(&AdoptedDraft { cleared: true, ..adopted }),
        None
    );
    draft_not_saved(&mut app, "disk full");
    assert_eq!(app.background_error.as_deref(), Some("draft: disk full"));
    history_not_saved(&mut app, "disk full");
    assert_eq!(app.background_error.as_deref(), Some("history: disk full"));
    cleanup_failed(&mut app, "denied");
    assert_eq!(app.transcript_error.as_deref(), Some("source cleanup: denied"));
}
