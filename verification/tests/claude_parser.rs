use herdr_simple_prompts::agent::claude::ClaudeAdapter;
use herdr_simple_prompts::agent::json::{read_json, JsonField, JsonValue};
use herdr_simple_prompts::model::ConversationEvent;

fn ingest(adapter: &mut ClaudeAdapter, lines: &[&str]) -> Vec<ConversationEvent> {
    lines
        .iter()
        .enumerate()
        .flat_map(|(index, line)| adapter.ingest_line(index as u64 + 1, line).unwrap())
        .collect()
}

#[test]
fn simple_answer_is_committed_only_when_the_turn_finishes() {
    let mut adapter = ClaudeAdapter::default();
    let events = ingest(
        &mut adapter,
        &[
            r#"{"type":"user","uuid":"u1","timestamp":"2026-08-12T10:00:00.000Z","message":{"role":"user","content":"hello there"}}"#,
            r#"{"type":"assistant","uuid":"a1","message":{"role":"assistant","content":[{"type":"text","text":"Hello back."}]}}"#,
        ],
    );

    assert_eq!(events.len(), 1);
    assert!(matches!(&events[0], ConversationEvent::User(message)
            if message.text == "hello there"
                && message.timestamp_ms == Some(1_786_528_800_000)));
    assert!(matches!(
        adapter.finalize_pending(),
        Some(ConversationEvent::Final(message)) if message.text == "Hello back."
    ));
}

#[test]
fn tool_cycle_commits_only_terminal_visible_text() {
    let mut adapter = ClaudeAdapter::default();
    let events = ingest(
        &mut adapter,
        &[
            r#"{"type":"user","uuid":"u1","message":{"content":"fix it"}}"#,
            r#"{"type":"assistant","uuid":"a1","message":{"content":[{"type":"text","text":"Looking."},{"type":"tool_use","id":"t1","name":"Read"}]}}"#,
            r#"{"type":"user","uuid":"u2","message":{"content":[{"type":"tool_result","tool_use_id":"t1","content":"ok"}]}}"#,
            r#"{"type":"assistant","uuid":"a2","message":{"content":[{"type":"text","text":"Fixed and tested."}]}}"#,
        ],
    );

    assert_eq!(events.len(), 1);
    assert!(matches!(&events[0], ConversationEvent::User(message) if message.text == "fix it"));
    assert!(matches!(
        adapter.finalize_pending(),
        Some(ConversationEvent::Final(message)) if message.text == "Fixed and tested."
    ));
}

#[test]
fn excludes_meta_thinking_progress_and_sidechains_but_keeps_images() {
    let mut adapter = ClaudeAdapter::default();
    let events = ingest(
        &mut adapter,
        &[
            r#"{"type":"user","isMeta":true,"uuid":"m1","message":{"content":"caveat"}}"#,
            r#"{"type":"user","uuid":"u1","message":{"content":[{"type":"text","text":"look at this"},{"type":"image","source":{"type":"base64"}}]}}"#,
            r#"{"type":"assistant","uuid":"a1","message":{"content":[{"type":"thinking","thinking":"private"}]}}"#,
            r#"{"type":"progress","uuid":"p1","message":{"content":"running"}}"#,
            r#"{"type":"assistant","isSidechain":true,"uuid":"s1","message":{"content":[{"type":"text","text":"side"}]}}"#,
        ],
    );

    assert_eq!(events.len(), 1);
    let ConversationEvent::User(message) = &events[0] else {
        panic!("expected a user event");
    };
    assert_eq!(message.text, "look at this");
    assert_eq!(message.attachments.len(), 1);
    assert_eq!(message.attachments[0].id, "transcript:2:image:1");
    assert_eq!(message.attachments[0].display, "Image #1");
    assert!(adapter.finalize_pending().is_none());
}

#[test]
fn keeps_visible_text_from_a_mixed_thinking_response() {
    let mut adapter = ClaudeAdapter::default();
    adapter
        .ingest_line(
            1,
            r#"{"type":"user","uuid":"u1","message":{"content":"question"}}"#,
        )
        .unwrap();
    adapter
        .ingest_line(
            2,
            r#"{"type":"assistant","uuid":"a1","message":{"content":[{"type":"thinking","thinking":"private"},{"type":"text","text":"Visible answer."}]}}"#,
        )
        .unwrap();

    assert!(matches!(
        adapter.finalize_pending(),
        Some(ConversationEvent::Final(message)) if message.text == "Visible answer."
    ));
}

#[test]
fn preserves_native_compact_paste_marker_exactly() {
    let mut adapter = ClaudeAdapter::default();
    let text = "inspect\n[Pasted Content 1000 chars]";
    let line = r#"{"message":{"content":"inspect\n[Pasted Content 1000 chars]"},"type":"user","uuid":"u1"}"#;

    let events = adapter.ingest_line(1, line).unwrap();

    assert!(matches!(
        events.as_slice(),
        [ConversationEvent::User(message)] if message.text == text
    ));
}

#[test]
fn keeps_prompts_queued_while_the_agent_works() {
    let mut adapter = ClaudeAdapter::default();
    let events = ingest(
        &mut adapter,
        &[
            r#"{"type":"user","uuid":"u1","message":{"content":"start the audit"}}"#,
            r#"{"type":"assistant","uuid":"a1","message":{"content":[{"type":"text","text":"Reading the files now."}]}}"#,
            r#"{"type":"attachment","uuid":"q1","timestamp":"2026-08-12T10:01:00.000Z","attachment":{"type":"queued_command","commandMode":"prompt","prompt":[{"type":"text","text":"[Image #3] look at this too"},{"type":"image"}]}}"#,
            r#"{"type":"user","uuid":"u2","message":{"content":"and the queued one landed"}}"#,
            r#"{"type":"attachment","uuid":"n1","attachment":{"type":"queued_command","commandMode":"task-notification","prompt":"<task-notification>done</task-notification>"}}"#,
            r#"{"type":"attachment","uuid":"n2","attachment":{"type":"queued_command","commandMode":"prompt","origin":{"kind":"task-notification"},"prompt":"done"}}"#,
            r#"{"type":"attachment","uuid":"q2","attachment":{"type":"queued_command","commandMode":"prompt","origin":{"kind":"human"},"prompt":"and stop after that"}}"#,
            r#"{"type":"assistant","uuid":"a2","message":{"content":[{"type":"text","text":"Both handled."}]}}"#,
        ],
    );

    let ConversationEvent::User(first) = &events[0] else {
        panic!("expected the native prompt first");
    };
    assert_eq!(first.text, "start the audit");
    assert!(matches!(&events[1], ConversationEvent::Final(message)
            if message.text == "Reading the files now."));
    let ConversationEvent::User(queued) = &events[2] else {
        panic!("expected the queued prompt");
    };
    assert_eq!(queued.text, "[Image #3] look at this too");
    assert_eq!(queued.attachments.len(), 1);
    assert_eq!(queued.timestamp_ms, Some(1_786_528_860_000));
    assert!(matches!(&events[3], ConversationEvent::User(message)
            if message.text == "and the queued one landed"));
    assert!(matches!(&events[4], ConversationEvent::User(message)
            if message.text == "and stop after that" && message.attachments.is_empty()));
    assert_eq!(events.len(), 5, "task notifications must stay hidden");
    assert!(matches!(
        adapter.finalize_pending(),
        Some(ConversationEvent::Final(message)) if message.text == "Both handled."
    ));
}

#[test]
fn hides_a_queued_prompt_that_the_system_wrote() {
    let queued = |record: &str, attachment: &str| {
        format!(
            r#"{{"type":"attachment",{record}"attachment":{{"type":"queued_command","commandMode":"prompt",{attachment}"prompt":"done"}}}}"#
        )
    };
    let system = r#""promptSource":"system","#;
    let task = r#""origin":{"kind":"task-notification"},"#;
    for line in [
        queued(system, system),
        queued(system, ""),
        queued("", system),
        queued(task, ""),
        queued("", task),
    ] {
        let mut adapter = ClaudeAdapter::default();
        assert!(adapter.ingest_line(1, &line).unwrap().is_empty(), "shown: {line}");
        assert!(!adapter.active_user);
    }
    let mut adapter = ClaudeAdapter::default();
    assert!(matches!(
        adapter.ingest_line(1, &queued("", "")).unwrap().as_slice(),
        [ConversationEvent::User(message)] if message.text == "done"
    ));
}

#[test]
fn hides_a_task_notification_dequeued_as_a_user_record() {
    let mut adapter = ClaudeAdapter::default();
    let line = r#"{"message":{"content":"<task-notification>done</task-notification>","role":"user"},"origin":{"kind":"task-notification"},"promptSource":"system","type":"user","uuid":"n1"}"#;

    assert!(adapter.ingest_line(1, line).unwrap().is_empty());
}

#[test]
fn keeps_a_message_relayed_from_a_coordinator_session() {
    let mut adapter = ClaudeAdapter::default();
    let line = r#"{"message":{"content":"The coordinator sent a message: fix the P1.","role":"user"},"origin":{"kind":"coordinator"},"type":"user","uuid":"c1"}"#;

    assert!(matches!(
        adapter.ingest_line(1, line).unwrap().as_slice(),
        [ConversationEvent::User(message)]
            if message.text == "The coordinator sent a message: fix the P1."
    ));
}

#[test]
fn a_line_that_is_no_json_is_an_error_and_changes_nothing() {
    let mut adapter = ClaudeAdapter::default();
    adapter
        .ingest_line(1, r#"{"type":"user","message":{"content":"question"}}"#)
        .unwrap();
    adapter
        .ingest_line(2, r#"{"type":"assistant","message":{"content":"answer"}}"#)
        .unwrap();
    let error = adapter.ingest_line(3, "{oops").unwrap_err();
    assert_eq!(error.context, "agent transcript");
    assert_eq!(
        error.message,
        "invalid JSON on line 3: key must be a string at line 1 column 2"
    );
    assert!(matches!(
        adapter.finalize_pending(),
        Some(ConversationEvent::Final(message)) if message.text == "answer"
    ));
}

#[test]
fn a_record_without_a_name_is_named_by_its_line() {
    let mut adapter = ClaudeAdapter::default();
    let events = adapter
        .ingest_line(41, r#"{"type":"user","uuid":"","message":{"content":"hi"}}"#)
        .unwrap();
    assert!(matches!(
        events.as_slice(),
        [ConversationEvent::User(message)]
            if message.stable_id == "transcript:41" && message.timestamp_ms.is_none()
    ));
}

#[test]
fn an_answer_before_the_first_prompt_is_not_kept() {
    let mut adapter = ClaudeAdapter::default();
    adapter
        .ingest_line(1, r#"{"type":"assistant","message":{"content":"early"}}"#)
        .unwrap();
    assert!(adapter.finalize_pending().is_none());
}

#[test]
fn an_answer_is_handed_out_once() {
    let mut adapter = ClaudeAdapter::default();
    ingest(
        &mut adapter,
        &[
            r#"{"type":"user","message":{"content":"question"}}"#,
            r#"{"type":"assistant","message":{"content":"answer"}}"#,
        ],
    );
    assert!(adapter.finalize_pending().is_some());
    assert!(adapter.finalize_pending().is_none());
    let events = adapter
        .ingest_line(3, r#"{"type":"user","message":{"content":"next"}}"#)
        .unwrap();
    assert_eq!(events.len(), 1);
}

#[test]
fn text_blocks_are_joined_by_line_feeds() {
    let mut adapter = ClaudeAdapter::default();
    let events = adapter
        .ingest_line(
            1,
            r#"{"type":"user","message":{"content":[{"type":"text","text":"one"},{"type":"image"},{"type":"text"},{"type":"text","text":"two"},{"type":"image"}]}}"#,
        )
        .unwrap();
    let ConversationEvent::User(message) = &events[0] else {
        panic!("expected a prompt");
    };
    assert_eq!(message.text, "one\ntwo");
    assert_eq!(
        message
            .attachments
            .iter()
            .map(|attachment| (attachment.id.as_str(), attachment.display.as_str()))
            .collect::<Vec<_>>(),
        [("transcript:1:image:1", "Image #1"), ("transcript:1:image:2", "Image #2")]
    );
}

#[test]
fn a_record_can_be_taken_in_as_a_value() {
    let record = JsonValue::Object(vec![
        JsonField { key: "type".into(), value: JsonValue::Text("user".into()) },
        JsonField {
            key: "message".into(),
            value: JsonValue::Object(vec![JsonField {
                key: "content".into(),
                value: JsonValue::Text("built by hand".into()),
            }]),
        },
    ]);
    let mut adapter = ClaudeAdapter::default();
    assert!(matches!(
        adapter.ingest_value(7, &record).as_slice(),
        [ConversationEvent::User(message)]
            if message.text == "built by hand" && message.stable_id == "transcript:7"
    ));
}

#[test]
fn every_kind_of_json_is_read() {
    let value = read_json(r#"{"b":[null,true,1.5,"x"],"a":{"deep":7}}"#).unwrap();
    let JsonValue::Object(fields) = &value else {
        panic!("expected an object");
    };
    assert_eq!(
        fields.iter().map(|field| field.key.as_str()).collect::<Vec<_>>(),
        ["a", "b"]
    );
    assert!(matches!(value.get_inner("a", "deep"), Some(JsonValue::Number(n)) if n == "7"));
    let Some(JsonValue::Array(items)) = value.get("b") else {
        panic!("expected an array");
    };
    assert!(matches!(
        items.as_slice(),
        [JsonValue::Null, JsonValue::Bool(true), JsonValue::Number(n), JsonValue::Text(s)]
            if n == "1.5" && s == "x"
    ));
    assert!(value.get("missing").is_none());
    assert!(value.as_str().is_none());
}

#[test]
fn a_moment_that_cannot_be_read_is_left_out() {
    let mut adapter = ClaudeAdapter::default();
    for timestamp in ["yesterday", "1969-12-31T23:59:59Z"] {
        let line = format!(
            r#"{{"type":"user","timestamp":"{timestamp}","message":{{"content":"hi"}}}}"#
        );
        assert!(matches!(
            adapter.ingest_line(1, &line).unwrap().as_slice(),
            [ConversationEvent::User(message)] if message.timestamp_ms.is_none()
        ));
    }
}
