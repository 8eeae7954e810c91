use herdr_simple_prompts::agent::{AgentIdentity, AgentKind, AgentStatus};
use herdr_simple_prompts::composer::NativeComposerState;
use herdr_simple_prompts::style::{AnsiColor, MessagePresentation};
use herdr_simple_prompts::ui::runtime::{
    action_queued, answer_can_fit, capture_queued, captured_presentation, complete_observation,
    follower_is_active, follower_status, next_lifecycle_retry, next_stretch,
    observation_status_text, CaptureCommand, CaptureSearch, CaptureStep, LifecycleStep,
    LifecycleWatch, Queued, LIFECYCLE_RETRY_INITIAL_MS,
};
use std::sync::mpsc::{sync_channel, SyncSender, TrySendError};
use std::time::{Duration, Instant};

/// Looks for the styles of an answer, as the worker does between its pauses.
fn resolve_capture(
    kind: AgentKind,
    expected: &str,
    mut read: impl FnMut() -> Result<String, String>,
    attempts: usize,
) -> (MessagePresentation, Option<String>) {
    let (mut search, mut step) = CaptureSearch::begin(kind, expected, attempts);
    loop {
        match step {
            CaptureStep::Read | CaptureStep::Retry => step = search.read(read()),
            CaptureStep::Resolved { presentation, diagnostic } => {
                return (presentation, diagnostic);
            }
        }
    }
}

fn identity(status: AgentStatus) -> AgentIdentity {
    AgentIdentity {
        pane_id: "w1:p1".into(),
        kind: AgentKind::Codex,
        session_id: "session-1".into(),
        cwd: "/repo".into(),
        status,
    }
}

#[test]
fn lifecycle_retry_backoff_is_bounded() {
    let mut delay = LIFECYCLE_RETRY_INITIAL_MS;
    let expected = [200, 400, 800, 1_000, 1_000];
    for expected_ms in expected {
        assert_eq!(delay, expected_ms);
        delay = next_lifecycle_retry(delay);
    }
}

#[test]
fn a_watch_pauses_longer_after_each_failure_and_ends_with_the_pane() {
    let mut watch = LifecycleWatch::begin();
    assert_eq!(watch.waited(None, false), LifecycleStep::PauseThenWatch(200));
    assert_eq!(watch.waited(None, false), LifecycleStep::PauseThenWatch(400));
    assert_eq!(watch.waited(Some(false), false), LifecycleStep::Watch);
    assert_eq!(watch.waited(None, false), LifecycleStep::PauseThenWatch(200));
    assert_eq!(watch.waited(Some(false), true), LifecycleStep::Closed);
    assert_eq!(watch.waited(None, true), LifecycleStep::Closed);
    assert_eq!(watch.waited(Some(true), false), LifecycleStep::Closed);
}

#[test]
fn a_pause_is_slept_in_short_stretches() {
    let mut stretches = Vec::new();
    let mut remaining = 120;
    while remaining > 0 {
        let (stretch, rest) = next_stretch(remaining);
        stretches.push(stretch);
        remaining = rest;
    }
    assert_eq!(stretches, [50, 50, 20]);
}

#[test]
fn a_full_action_queue_fails_and_a_full_capture_queue_does_not() {
    assert_eq!(action_queued(Queued::Sent), Ok(()));
    assert!(action_queued(Queued::Full).unwrap_err().contains("queue is full"));
    assert!(action_queued(Queued::Stopped).unwrap_err().contains("worker has stopped"));
    assert_eq!(capture_queued(Queued::Sent), Ok(true));
    assert_eq!(capture_queued(Queued::Full), Ok(false));
    assert!(capture_queued(Queued::Stopped).is_err());
}

#[test]
fn a_blocked_agent_keeps_the_follower_active() {
    assert!(follower_is_active(AgentStatus::Working));
    assert!(follower_is_active(AgentStatus::Blocked));
    assert!(!follower_is_active(AgentStatus::Done));
    assert_eq!(follower_status(true), AgentStatus::Working);
    assert_eq!(follower_status(false), AgentStatus::Done);
}

#[test]
fn capture_resolution_returns_native_style_on_first_exact_match() {
    let mut reads = 0;
    let (presentation, diagnostic) = resolve_capture(
        AgentKind::Codex,
        "answer",
        || {
            reads += 1;
            Ok("────────\n\u{1b}[32m• answer\u{1b}[0m\n────────\n› Write a prompt".into())
        },
        8,
    );

    assert_eq!(reads, 1);
    assert!(diagnostic.is_none());
    let MessagePresentation::NativeAnsi(styled) = presentation else {
        panic!("exact capture must keep native ANSI provenance")
    };
    assert_eq!(styled.text, "answer");
    assert_eq!(styled.runs[0].foreground, Some(AnsiColor::Green));
}

#[test]
fn capture_resolution_stops_when_the_answer_cannot_fit_the_pane() {
    let canonical = (0..40)
        .map(|index| format!("line {index}"))
        .collect::<Vec<_>>()
        .join("\n");
    let mut reads = 0;
    let (presentation, diagnostic) = resolve_capture(
        AgentKind::Codex,
        &canonical,
        || {
            reads += 1;
            Ok("────────\n• something else\n────────\n› Write a prompt".into())
        },
        8,
    );

    assert_eq!(reads, 1, "an impossible match must not be retried");
    assert!(diagnostic.is_none());
    assert_eq!(presentation, MessagePresentation::MarkdownFallback);
}

#[test]
fn capture_resolution_keeps_retrying_while_the_answer_still_fits() {
    let mut reads = 0;
    let (presentation, _) = resolve_capture(
        AgentKind::Codex,
        "answer",
        || {
            reads += 1;
            if reads < 3 {
                Ok("────────\n• still streaming\n────────\n› Write a prompt".into())
            } else {
                Ok("────────\n\u{1b}[32m• answer\u{1b}[0m\n────────\n› Write a prompt".into())
            }
        },
        8,
    );

    assert_eq!(reads, 3, "a possible match must still be retried");
    assert!(matches!(presentation, MessagePresentation::NativeAnsi(_)));
}

/// The projection of `# Final **answer** with [docs](https://example.test)`.
#[test]
fn capture_resolution_projects_canonical_markdown_before_exact_match() {
    let (presentation, diagnostic) = resolve_capture(
        AgentKind::Codex,
        "Final answer with docs",
        || {
            Ok("────────\n\u{1b}[32m• Final answer with docs\u{1b}[0m\n────────\n› Write a prompt"
                .into())
        },
        1,
    );

    assert!(diagnostic.is_none());
    let MessagePresentation::NativeAnsi(styled) = presentation else {
        panic!("projected exact capture must keep native ANSI provenance")
    };
    assert_eq!(styled.text, "Final answer with docs");
    assert_eq!(styled.runs[0].foreground, Some(AnsiColor::Green));
}

/// The projection of `Basis: [TDD](/Users/example/SKILL.md).`
#[test]
fn capture_resolution_projects_local_file_path_before_exact_match() {
    let (presentation, diagnostic) = resolve_capture(
        AgentKind::Codex,
        "Basis: /Users/example/SKILL.md.",
        || {
            Ok("────────\n• Basis: \u{1b}[34;4m/Users/example/SKILL.md\u{1b}[0m.\n────────\n› Write a prompt"
                .into())
        },
        1,
    );

    assert!(diagnostic.is_none());
    let MessagePresentation::NativeAnsi(styled) = presentation else {
        panic!("projected local path must keep native ANSI provenance")
    };
    assert_eq!(styled.text, "Basis: /Users/example/SKILL.md.");
    let path_start = styled.text.find("/Users/example/SKILL.md").unwrap();
    let path_style = styled
        .runs
        .iter()
        .find(|run| run.start_byte <= path_start && path_start < run.end_byte)
        .expect("captured path style");
    assert_eq!(path_style.foreground, Some(AnsiColor::Blue));
    assert!(path_style.modifiers.underline);
}

#[test]
fn capture_resolution_is_bounded_and_falls_back_after_read_errors() {
    let mut reads = 0;
    let (presentation, diagnostic) = resolve_capture(
        AgentKind::Claude,
        "answer",
        || {
            reads += 1;
            Err("read unavailable".into())
        },
        8,
    );

    assert_eq!(reads, 8);
    assert_eq!(presentation, MessagePresentation::MarkdownFallback);
    assert!(diagnostic.unwrap().contains("read unavailable"));
}

#[test]
fn capture_command_event_carries_stable_id_and_canonical_fingerprint() {
    let command = CaptureCommand {
        stable_id: "answer-1".into(),
        canonical_text: "canonical".into(),
    };
    let (presentation, diagnostic) = resolve_capture(
        AgentKind::Codex,
        &command.canonical_text,
        || Ok("no exact candidate".into()),
        1,
    );
    let shown = captured_presentation(command, 0x5eed, presentation);

    assert!(diagnostic.is_none());
    assert_eq!(shown.stable_id, "answer-1");
    assert_eq!(shown.text_fingerprint, 0x5eed);
    assert_eq!(shown.presentation, MessagePresentation::MarkdownFallback);
}

#[test]
fn a_capture_without_an_attempt_falls_back_at_once() {
    let (presentation, diagnostic) = resolve_capture(
        AgentKind::Codex,
        "answer",
        || panic!("nothing may be read without an attempt"),
        0,
    );
    assert_eq!(presentation, MessagePresentation::MarkdownFallback);
    assert_eq!(diagnostic, None);
}

#[test]
fn an_answer_shares_the_pane_with_three_lines_of_chrome() {
    assert!(answer_can_fit("1\n2\n3\n4", 1));
    assert!(!answer_can_fit("1\n2\n3\n4", 2));
    assert!(!answer_can_fit("1", usize::MAX));
}

#[test]
fn observation_reads_one_ansi_surface_for_status_composer_and_blocked_view() {
    for status in [AgentStatus::Working, AgentStatus::Done, AgentStatus::Blocked] {
        let reading = "\u{1b}]0;secret\u{7}\u{1b}[32m• question\u{1b}[0m\n────────\n› \u{1b}[2mWrite a prompt\u{1b}[0m\ngpt-5.6-sol xhigh · /repo · weekly 75% left";
        let observation = complete_observation(identity(status), Ok(reading.into())).unwrap();

        assert_eq!(
            observation.status_text,
            "gpt-5.6-sol xhigh · /repo · weekly 75% left"
        );
        assert!(!observation.status_text.contains("question"));
        assert_eq!(observation.native_composer, NativeComposerState::Clear);
        if status == AgentStatus::Blocked {
            let styled = observation.blocked_surface.unwrap();
            assert!(styled.text.contains("question"));
            assert!(!styled.runs.is_empty());
        } else {
            assert!(observation.blocked_surface.is_none());
        }
    }
}

#[test]
fn observation_uses_the_primary_row_of_a_wrapped_codex_footer() {
    let reading = "• answer\n────────\n› \u{1b}[2mAsk Codex to do anything\u{1b}[0m\ngpt-5.6-sol high · agent-dashboard · Context 21% used · weekly 62%\n  left · …";
    let observation =
        complete_observation(identity(AgentStatus::Done), Ok(reading.into())).unwrap();

    assert_eq!(
        observation.status_text,
        "gpt-5.6-sol high · agent-dashboard · Context 21% used · weekly 62%"
    );
    assert_eq!(observation.native_composer, NativeComposerState::Clear);
}

#[test]
fn a_pane_that_cannot_be_read_is_not_observed() {
    let error = complete_observation(identity(AgentStatus::Done), Err("gone".into())).unwrap_err();
    assert_eq!(error, "gone");
}

/// Hands a request to a queue and never waits for room in it.
fn offered<T>(queue: &SyncSender<T>, request: T) -> Queued {
    match queue.try_send(request) {
        Ok(()) => Queued::Sent,
        Err(TrySendError::Full(_)) => Queued::Full,
        Err(TrySendError::Disconnected(_)) => Queued::Stopped,
    }
}

#[test]
fn full_action_queue_fails_instead_of_blocking_the_ui() {
    let (actions, _worker) = sync_channel(1);
    action_queued(offered(&actions, ("local-1", "first"))).unwrap();

    let started = Instant::now();
    let error = action_queued(offered(&actions, ("local-2", "second"))).unwrap_err();

    assert!(started.elapsed() < Duration::from_millis(20));
    assert!(error.contains("queue is full"));
}

#[test]
fn capture_queue_is_bounded_and_enqueue_never_waits_for_io() {
    let command = |stable_id: &str, canonical_text: &str| CaptureCommand {
        stable_id: stable_id.into(),
        canonical_text: canonical_text.into(),
    };
    let (captures, worker) = sync_channel(1);
    assert!(capture_queued(offered(&captures, command("answer-1", "first"))).unwrap());

    let started = Instant::now();
    let queued = capture_queued(offered(&captures, command("answer-2", "second"))).unwrap();

    assert!(started.elapsed() < Duration::from_millis(20));
    assert!(!queued, "a saturated queue drops the request, it does not fail");
    assert_eq!(worker.try_recv().unwrap(), command("answer-1", "first"));
}

#[test]
fn the_status_is_the_last_footer_or_the_last_line_that_holds_something() {
    let footer = "gpt-5.6-sol xhigh · /repo · weekly 75% left";
    let pane = format!("› prompt\r\n{footer}\r\nbelow it\r\n \r\n");
    assert_eq!(observation_status_text(AgentKind::Codex, &pane), footer);
    assert_eq!(observation_status_text(AgentKind::Claude, &pane), "below it");
    assert_eq!(observation_status_text(AgentKind::Codex, "one\n\ttwo\u{7}\n"), "\ttwo\u{7}");
    assert_eq!(observation_status_text(AgentKind::Claude, " \n\n"), "");
    assert_eq!(observation_status_text(AgentKind::Codex, ""), "");
}
