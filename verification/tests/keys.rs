use herdr_simple_prompts::agent::AgentStatus;
use herdr_simple_prompts::app::{AppState, PendingAction};
use herdr_simple_prompts::composer::NativeComposerState;
use herdr_simple_prompts::markdown::MarkdownProjection;
use herdr_simple_prompts::model::{Attachment, Delivery, Message, Turn};
use herdr_simple_prompts::style::StyledText;
use herdr_simple_prompts::ui::draft::DraftView;
use herdr_simple_prompts::ui::history::HistoryRenderCache;
use herdr_simple_prompts::ui::keys::{
    attach_settled, blocked_paste, clear_settled, forward_refused, handle_key,
    handle_ordinary_paste, history_scroll_key, interrupt_refused, key_intent, marker_number,
    next_image_in_the_way, ordinary_input_allowed, removal_settled,
    submission_refused, DraftChange, EditorOp, HistoryScroll, Intent, KeyAction, KeyCode,
    KeyModifiers, KeyOutcome, KeyPress, PasteAction, StagedImage,
};
use herdr_simple_prompts::ui::visual_rows::TurnInput;

const NONE: KeyModifiers = KeyModifiers {
    shift: false,
    control: false,
    alt: false,
    super_key: false,
    hyper: false,
    meta: false,
};
const SHIFT: KeyModifiers = KeyModifiers { shift: true, ..NONE };
const CONTROL: KeyModifiers = KeyModifiers { control: true, ..NONE };
const ALT: KeyModifiers = KeyModifiers { alt: true, ..NONE };
const SUPER: KeyModifiers = KeyModifiers { super_key: true, ..NONE };
const SHIFT_ALT: KeyModifiers = KeyModifiers { shift: true, alt: true, ..NONE };

fn key(code: KeyCode, modifiers: KeyModifiers) -> KeyPress {
    KeyPress { code, modifiers }
}

/// A draft of plain text with the cursor behind it.
fn draft(text: &str) -> DraftView {
    let mut atoms = Vec::new();
    for (index, character) in text.chars().enumerate() {
        for _ in 0..character.len_utf8() {
            atoms.push(index);
        }
    }
    atoms.push(text.chars().count());
    DraftView {
        display_text: text.to_owned(),
        cursor_byte: text.len(),
        cursor_atom: text.chars().count(),
        atoms,
        highlight: None,
        submission_text: text.to_owned(),
        attachment_at_cursor: None,
        attachment_behind_cursor: None,
    }
}

fn image(number: usize) -> Attachment {
    Attachment {
        id: format!("native-image-{number}"),
        display: format!("Image #{number}"),
        native_path: None,
    }
}

/// A draft of one image, one space, and the cursor behind them.
fn image_draft(number: usize) -> DraftView {
    let marker = format!("[Image #{number}]");
    let mut atoms = vec![0; marker.len()];
    atoms.push(1);
    atoms.push(2);
    DraftView {
        cursor_byte: marker.len() + 1,
        display_text: format!("{marker} "),
        cursor_atom: 2,
        atoms,
        highlight: None,
        submission_text: String::new(),
        attachment_at_cursor: None,
        attachment_behind_cursor: None,
    }
}

fn app_with(native_composer: NativeComposerState) -> AppState {
    AppState { native_composer, ..AppState::default() }
}

fn prompts(app: &mut AppState, count: u64) {
    for index in 0..count {
        app.turns.push(Turn {
            prompt: Message::text(&format!("u{index}"), &format!("prompt {index}"), Some(index)),
            delivery: Delivery::Native,
            final_answer: None,
        });
    }
}

fn lay_out(cache: &mut HistoryRenderCache, app: &AppState, height: usize) {
    let inputs: Vec<TurnInput> = app
        .turns
        .iter()
        .map(|_| TurnInput {
            prompt_time: None,
            answer_time: None,
            answer_markdown: MarkdownProjection {
                styled: StyledText::default(),
                hyperlinks: Vec::new(),
                non_clickable_links: Vec::new(),
            },
        })
        .collect();
    cache.viewport_rows(app, 40, height, &inputs);
}

fn press(pressed: KeyPress, app: &mut AppState, draft: &DraftView) -> KeyOutcome {
    let mut sequence = 1;
    let mut cache = HistoryRenderCache::default();
    handle_key(pressed, app, draft, &mut sequence, &mut cache)
}

fn edit(op: EditorOp, change: DraftChange) -> KeyOutcome {
    KeyOutcome { action: KeyAction::Edit(op), change }
}

fn nothing() -> KeyOutcome {
    KeyOutcome { action: KeyAction::Nothing, change: DraftChange::Unchanged }
}

#[test]
fn blocked_key_routes_before_composer_and_preserves_editor_and_history_state() {
    let mut app = AppState {
        agent_status: AgentStatus::Blocked,
        scroll_from_bottom: 7,
        ..AppState::default()
    };
    let mut sequence = 9;
    let mut cache = HistoryRenderCache::default();

    let outcome = handle_key(
        key(KeyCode::Down, NONE),
        &mut app,
        &draft("unchanged draft"),
        &mut sequence,
        &mut cache,
    );

    assert_eq!(outcome.change, DraftChange::Unchanged);
    assert_eq!(outcome.action, KeyAction::Forward);
    assert_eq!(app.scroll_from_bottom, 7);
    assert_eq!(sequence, 9);
}

#[test]
fn blocked_paste_routes_as_one_text_action_without_composer_work() {
    let app = AppState { agent_status: AgentStatus::Blocked, ..AppState::default() };

    assert!(blocked_paste(&app));
    assert!(app.pending_attachments.is_empty());
    assert!(app.draft_attachments.is_empty());
    assert!(!blocked_paste(&AppState::default()));
}

#[test]
fn word_hotkeys_edit_the_composer_in_both_spellings() {
    for (delete_left, delete_right, left, right) in [
        (
            key(KeyCode::Backspace, ALT),
            key(KeyCode::Delete, ALT),
            key(KeyCode::Left, ALT),
            key(KeyCode::Right, ALT),
        ),
        (
            key(KeyCode::Char('w'), CONTROL),
            key(KeyCode::Char('d'), ALT),
            key(KeyCode::Char('b'), ALT),
            key(KeyCode::Char('f'), ALT),
        ),
    ] {
        let mut app = app_with(NativeComposerState::Clear);
        let text = draft("alpha beta gamma");
        assert_eq!(
            press(delete_left, &mut app, &text),
            edit(EditorOp::DeleteWordLeft, DraftChange::Debounced)
        );
        assert_eq!(
            press(left, &mut app, &text),
            edit(EditorOp::MoveWordLeft, DraftChange::Unchanged)
        );
        assert_eq!(
            press(right, &mut app, &text),
            edit(EditorOp::MoveWordRight, DraftChange::Unchanged)
        );
        assert_eq!(
            press(delete_right, &mut app, &text),
            edit(EditorOp::DeleteWordRight, DraftChange::Debounced)
        );
    }
}

#[test]
fn line_navigation_answers_readline_and_super_bindings() {
    for (to_start, to_end) in [
        (key(KeyCode::Char('a'), CONTROL), key(KeyCode::Char('e'), CONTROL)),
        (key(KeyCode::Left, SUPER), key(KeyCode::Right, SUPER)),
        (key(KeyCode::Home, NONE), key(KeyCode::End, NONE)),
    ] {
        let mut app = app_with(NativeComposerState::Clear);
        let text = draft("first line\nsecond line");
        assert_eq!(
            press(to_start, &mut app, &text),
            edit(EditorOp::MoveHome, DraftChange::Unchanged)
        );
        assert_eq!(
            press(to_end, &mut app, &text),
            edit(EditorOp::MoveEnd, DraftChange::Unchanged)
        );
    }
}

#[test]
fn super_arrows_reach_the_ends_of_the_draft() {
    let mut app = app_with(NativeComposerState::Clear);
    let text = draft("first line\nsecond line");
    assert_eq!(
        press(key(KeyCode::Up, SUPER), &mut app, &text),
        edit(EditorOp::MoveDocumentStart, DraftChange::Unchanged)
    );
    assert_eq!(
        press(key(KeyCode::Down, SUPER), &mut app, &text),
        edit(EditorOp::MoveDocumentEnd, DraftChange::Unchanged)
    );
}

#[test]
fn line_kills_answer_readline_and_super_bindings() {
    for (kill_left, kill_right) in [
        (key(KeyCode::Char('u'), CONTROL), key(KeyCode::Char('k'), CONTROL)),
        (key(KeyCode::Backspace, SUPER), key(KeyCode::Delete, SUPER)),
    ] {
        let mut app = app_with(NativeComposerState::Clear);
        assert_eq!(
            press(kill_left, &mut app, &draft("keep this\ndrop that")),
            KeyOutcome {
                action: KeyAction::ClearTo("keep this\n".len()),
                change: DraftChange::Debounced,
            }
        );
        assert_eq!(
            press(kill_right, &mut app, &draft("keep this\ntail text")),
            edit(EditorOp::DeleteToLineEnd, DraftChange::Debounced)
        );
    }
}

#[test]
fn clearing_at_the_start_of_a_line_takes_the_break() {
    let mut app = app_with(NativeComposerState::Clear);
    assert_eq!(
        press(key(KeyCode::Char('u'), CONTROL), &mut app, &draft("keep this\n")).action,
        KeyAction::ClearTo("keep this".len())
    );
    assert_eq!(
        press(key(KeyCode::Char('u'), CONTROL), &mut app, &draft("")).action,
        KeyAction::ClearTo(0)
    );
}

#[test]
fn clearing_a_wrapped_paragraph_takes_only_the_line_the_cursor_is_on() {
    let mut app = AppState { composer_width: 12, ..AppState::default() };
    assert_eq!(
        press(key(KeyCode::Backspace, SUPER), &mut app, &draft("one two three four")).action,
        KeyAction::ClearTo("one two ".len())
    );
}

#[test]
fn clearing_at_the_start_of_a_wrapped_row_takes_the_row_above() {
    let mut app = AppState { composer_width: 12, ..AppState::default() };
    let mut text = draft("one two three four");
    text.cursor_byte = 8;
    text.cursor_atom = 8;
    assert_eq!(
        press(key(KeyCode::Backspace, SUPER), &mut app, &text).action,
        KeyAction::ClearTo(0)
    );
}

#[test]
fn clearing_a_line_asks_for_the_pictures_in_the_way() {
    let mut app = AppState {
        native_composer: NativeComposerState::OwnedAttachments(1),
        composer_width: 80,
        draft_attachments: vec![image(6)],
        ..AppState::default()
    };
    let before = image_draft(6);
    assert_eq!(
        press(key(KeyCode::Backspace, SUPER), &mut app, &before).action,
        KeyAction::ClearTo(0)
    );

    // The space went; the image is behind the cursor now.
    let mut stopped = image_draft(6);
    stopped.cursor_atom = 1;
    stopped.cursor_byte -= 1;
    stopped.attachment_behind_cursor = Some(image(6));
    let asked = next_image_in_the_way(&app, &stopped, 0);
    assert_eq!(asked, Some(("native-image-6".to_owned(), 6)));
    clear_settled(&mut app, 0, Some(Ok(())), 1_000);
    assert_eq!(app.clearing_line_to, Some(0));
    assert_eq!(
        app.pending_action,
        Some(PendingAction { label: "Removing image".into(), since_ms: 1_000 })
    );
    assert_eq!(
        next_image_in_the_way(&app, &stopped, 0),
        None,
        "one at a time, as the pane answers them"
    );
}

#[test]
fn a_clear_ends_where_nothing_is_in_the_way_or_the_pane_refuses() {
    let mut app = AppState { clearing_line_to: Some(3), ..AppState::default() };
    clear_settled(&mut app, 3, None, 0);
    assert_eq!(app.clearing_line_to, None);

    let mut refused = AppState { clearing_line_to: Some(3), ..AppState::default() };
    clear_settled(&mut refused, 3, Some(Err("queue is full".into())), 0);
    assert_eq!(refused.clearing_line_to, None);
    assert_eq!(refused.background_error.as_deref(), Some("queue is full"));
    assert_eq!(refused.pending_action, None);
    assert_eq!(next_image_in_the_way(&refused, &draft("abc"), 3), None);
}

#[test]
fn backspace_on_an_image_asks_the_pane_before_anything_is_dropped() {
    let mut app = AppState {
        native_composer: NativeComposerState::OwnedAttachments(1),
        draft_attachments: vec![image(5)],
        ..AppState::default()
    };
    let mut on_image = image_draft(5);
    on_image.cursor_atom = 0;
    on_image.cursor_byte = 0;
    on_image.attachment_at_cursor = Some(image(5));

    let outcome = press(key(KeyCode::Backspace, NONE), &mut app, &on_image);

    assert_eq!(outcome.change, DraftChange::Unchanged);
    assert!(matches!(outcome.action, KeyAction::RemoveImage { marker: 5, .. }));
    assert_eq!(app.draft_attachments.len(), 1, "nothing is dropped yet");
}

#[test]
fn backspace_takes_the_space_beside_an_image_before_the_image() {
    let mut app = AppState {
        native_composer: NativeComposerState::OwnedAttachments(1),
        draft_attachments: vec![image(5)],
        ..AppState::default()
    };

    assert_eq!(
        press(key(KeyCode::Backspace, NONE), &mut app, &image_draft(5)),
        edit(EditorOp::Backspace, DraftChange::Debounced),
        "the space is ours"
    );

    let mut behind = image_draft(5);
    behind.cursor_atom = 1;
    behind.cursor_byte -= 1;
    behind.attachment_behind_cursor = Some(image(5));
    let outcome = press(key(KeyCode::Backspace, NONE), &mut app, &behind);
    assert_eq!(outcome.change, DraftChange::Unchanged, "the pane is asked first");
    assert!(matches!(outcome.action, KeyAction::RemoveImage { marker: 5, .. }));
}

#[test]
fn a_second_removal_is_not_asked_for_while_the_first_is_running() {
    let mut app = AppState {
        native_composer: NativeComposerState::OwnedAttachments(1),
        draft_attachments: vec![image(5)],
        ..AppState::default()
    };
    let mut behind = image_draft(5);
    behind.cursor_atom = 1;
    behind.cursor_byte -= 1;
    behind.attachment_behind_cursor = Some(image(5));

    let first = press(key(KeyCode::Backspace, NONE), &mut app, &behind);
    assert!(matches!(first.action, KeyAction::RemoveImage { marker: 5, .. }));
    removal_settled(&mut app, Ok(()), 1);
    for _ in 0..2 {
        assert_eq!(press(key(KeyCode::Backspace, NONE), &mut app, &behind), nothing());
    }
    assert_eq!(app.draft_attachments.len(), 1, "and nothing is dropped yet");
    assert!(app.background_error.is_none());
}

#[test]
fn word_hotkeys_stay_blocked_while_the_composer_is_guarded() {
    let mut app = app_with(NativeComposerState::Occupied);
    assert_eq!(
        press(key(KeyCode::Backspace, ALT), &mut app, &draft("alpha beta")),
        nothing()
    );
}

#[test]
fn occupied_and_unknown_composers_block_ordinary_editor_mutation_and_submit() {
    for native_composer in [NativeComposerState::Occupied, NativeComposerState::Unknown] {
        let mut app = app_with(native_composer);
        let text = draft("preserved draft");
        for pressed in [
            key(KeyCode::Char('x'), NONE),
            key(KeyCode::Enter, NONE),
            key(KeyCode::Char('v'), CONTROL),
        ] {
            assert_eq!(press(pressed, &mut app, &text), nothing());
        }
        assert!(app.pending_attachments.is_empty());
    }
}

#[test]
fn arrows_scroll_the_history_only_when_the_composer_has_no_text() {
    let mut app = app_with(NativeComposerState::Clear);
    let mut sequence = 1;
    let mut cache = HistoryRenderCache::default();
    prompts(&mut app, 8);
    lay_out(&mut cache, &app, 3);

    handle_key(key(KeyCode::Up, NONE), &mut app, &draft(""), &mut sequence, &mut cache);
    assert!(app.scroll_from_bottom > 0, "an empty composer must scroll the history");
    let scrolled = app.scroll_from_bottom;
    handle_key(key(KeyCode::Down, NONE), &mut app, &draft(""), &mut sequence, &mut cache);
    assert!(app.scroll_from_bottom < scrolled);

    let offset = app.scroll_from_bottom;
    let outcome = handle_key(
        key(KeyCode::Up, NONE),
        &mut app,
        &draft("draft line one\ndraft line two"),
        &mut sequence,
        &mut cache,
    );
    assert_eq!(
        app.scroll_from_bottom, offset,
        "a composer with text must keep the arrows for the cursor"
    );
    assert_eq!(outcome, edit(EditorOp::MoveUp, DraftChange::Unchanged));
}

#[test]
fn arrows_scroll_the_history_while_the_composer_is_guarded() {
    let mut app = app_with(NativeComposerState::Occupied);
    let mut sequence = 1;
    let mut cache = HistoryRenderCache::default();
    prompts(&mut app, 8);
    lay_out(&mut cache, &app, 3);

    let outcome = handle_key(
        key(KeyCode::Up, NONE),
        &mut app,
        &draft("preserved draft"),
        &mut sequence,
        &mut cache,
    );

    assert!(app.scroll_from_bottom > 0);
    assert_eq!(outcome, nothing());
}

#[test]
fn page_navigation_remains_available_while_composer_is_guarded() {
    let mut app = app_with(NativeComposerState::Occupied);
    let mut sequence = 1;
    let mut cache = HistoryRenderCache::default();
    prompts(&mut app, 8);
    lay_out(&mut cache, &app, 3);

    handle_key(key(KeyCode::PageUp, NONE), &mut app, &draft(""), &mut sequence, &mut cache);

    assert!(app.scroll_from_bottom > 0);
}

#[test]
fn shift_arrows_scroll_the_history_while_the_composer_holds_a_draft() {
    let mut app = app_with(NativeComposerState::Clear);
    let text = draft("draft line one\ndraft line two");
    let mut sequence = 1;
    let mut cache = HistoryRenderCache::default();
    prompts(&mut app, 8);
    lay_out(&mut cache, &app, 3);

    let up = handle_key(key(KeyCode::Up, SHIFT), &mut app, &text, &mut sequence, &mut cache);
    assert!(app.scroll_from_bottom > 0);
    assert_eq!(up, nothing());

    let scrolled = app.scroll_from_bottom;
    let down = handle_key(key(KeyCode::Down, SHIFT), &mut app, &text, &mut sequence, &mut cache);
    assert!(app.scroll_from_bottom < scrolled);
    assert_eq!(down, nothing());
}

#[test]
fn page_keys_move_by_the_view_and_shift_home_end_reach_both_ends() {
    let mut app = app_with(NativeComposerState::Clear);
    let text = draft("");
    let mut sequence = 1;
    let mut cache = HistoryRenderCache::default();
    prompts(&mut app, 20);
    lay_out(&mut cache, &app, 10);

    handle_key(key(KeyCode::PageUp, NONE), &mut app, &text, &mut sequence, &mut cache);
    assert_eq!(app.scroll_from_bottom, cache.page_rows());
    assert_eq!(cache.page_rows(), 8, "a page keeps two rows of the old view");

    handle_key(key(KeyCode::PageDown, NONE), &mut app, &text, &mut sequence, &mut cache);
    assert_eq!(app.scroll_from_bottom, 0);

    handle_key(key(KeyCode::Home, SHIFT), &mut app, &text, &mut sequence, &mut cache);
    assert_eq!(app.scroll_from_bottom, cache.maximum_offset());
    assert!(app.scroll_from_bottom > 0);

    handle_key(key(KeyCode::End, SHIFT), &mut app, &text, &mut sequence, &mut cache);
    assert_eq!(app.scroll_from_bottom, 0);

    handle_key(key(KeyCode::Up, SHIFT_ALT), &mut app, &text, &mut sequence, &mut cache);
    assert_eq!(app.scroll_from_bottom, cache.maximum_offset());

    handle_key(key(KeyCode::Down, SHIFT_ALT), &mut app, &text, &mut sequence, &mut cache);
    assert_eq!(app.scroll_from_bottom, 0);
}

#[test]
fn history_scroll_keys_work_while_a_native_question_is_blocking() {
    let mut app = AppState { agent_status: AgentStatus::Blocked, ..AppState::default() };
    let mut sequence = 1;
    let mut cache = HistoryRenderCache::default();
    prompts(&mut app, 8);
    lay_out(&mut cache, &app, 3);

    let outcome =
        handle_key(key(KeyCode::PageUp, NONE), &mut app, &draft(""), &mut sequence, &mut cache);

    assert!(app.scroll_from_bottom > 0);
    assert_eq!(outcome, nothing());
}

#[test]
fn guarded_composer_blocks_text_and_staged_image_paste() {
    let app = app_with(NativeComposerState::Occupied);
    let mut sequence = 1;

    assert_eq!(
        handle_ordinary_paste(None, &app, &mut sequence),
        (PasteAction::Nothing, DraftChange::Unchanged)
    );
    let staged = StagedImage {
        path: "/private/tmp/herdr-paste-does-not-exist/image.png".into(),
        file_name: "image.png".into(),
    };
    assert_eq!(
        handle_ordinary_paste(Some(staged), &app, &mut sequence),
        (PasteAction::Nothing, DraftChange::Unchanged)
    );

    assert!(app.pending_attachments.is_empty());
    assert_eq!(sequence, 1);
}

#[test]
fn an_open_composer_takes_text_and_staged_images() {
    let mut app = app_with(NativeComposerState::Clear);
    let mut sequence = 4;
    assert_eq!(
        handle_ordinary_paste(None, &app, &mut sequence),
        (PasteAction::Insert, DraftChange::Debounced)
    );
    let staged = StagedImage { path: "/tmp/shot.png".into(), file_name: "shot.png".into() };
    let (action, change) = handle_ordinary_paste(Some(staged), &app, &mut sequence);
    let PasteAction::Attach(attachment) = action else {
        panic!("a staged image must be attached");
    };
    assert_eq!(change, DraftChange::Unchanged);
    assert_eq!(attachment.id, "local-image-4");
    assert_eq!(attachment.display, "shot.png");
    assert_eq!(attachment.native_path.as_deref(), Some("/tmp/shot.png"));
    assert_eq!(sequence, 5);

    attach_settled(&mut app, attachment.clone(), Ok(()), 9);
    assert_eq!(app.pending_attachments, [attachment.clone()]);
    assert_eq!(
        app.pending_action,
        Some(PendingAction { label: "Attaching image".into(), since_ms: 9 })
    );
    attach_settled(&mut app, attachment, Err("full".into()), 9);
    assert_eq!(app.send_error.as_deref(), Some("full"));
    assert_eq!(app.pending_attachments.len(), 1);
}

#[test]
fn connection_failure_blocks_input_even_if_composer_snapshot_was_clear() {
    let app = AppState {
        input_enabled: false,
        native_composer: NativeComposerState::Clear,
        ..AppState::default()
    };

    assert!(!ordinary_input_allowed(&app));
}

#[test]
fn escape_interrupts_working_agent_even_when_composer_is_unknown() {
    let mut app = AppState {
        agent_status: AgentStatus::Working,
        native_composer: NativeComposerState::Unknown,
        ..AppState::default()
    };
    assert_eq!(
        press(key(KeyCode::Esc, NONE), &mut app, &draft("")).action,
        KeyAction::Interrupt
    );
}

#[test]
fn submit_captures_confirmed_attachment_count_before_optimistic_clear() {
    let mut app = AppState {
        native_composer: NativeComposerState::OwnedAttachments(1),
        draft_attachments: vec![Attachment {
            id: "image-1".into(),
            display: "screen.png".into(),
            native_path: None,
        }],
        send_error: Some("old".into()),
        ..AppState::default()
    };
    let outcome = press(key(KeyCode::Enter, NONE), &mut app, &draft("describe it"));

    assert_eq!(
        outcome,
        KeyOutcome {
            action: KeyAction::Submit {
                local_id: "local-1".into(),
                attachments: vec![Attachment {
                    id: "image-1".into(),
                    display: "screen.png".into(),
                    native_path: None,
                }],
                expected_attachments: 1,
            },
            change: DraftChange::Immediate,
        }
    );
    assert!(app.draft_attachments.is_empty());
    assert_eq!(app.send_error, None);
}

#[test]
fn nothing_is_sent_while_an_image_is_unverified_or_the_draft_is_blank() {
    let mut waiting = app_with(NativeComposerState::Clear);
    waiting.pending_attachments.push(image(1));
    assert_eq!(press(key(KeyCode::Enter, NONE), &mut waiting, &draft("text")), nothing());
    assert_eq!(
        waiting.send_error.as_deref(),
        Some("wait for image attachment verification")
    );

    let mut blank = app_with(NativeComposerState::Clear);
    assert_eq!(press(key(KeyCode::Enter, NONE), &mut blank, &draft("  \n ")), nothing());
    assert_eq!(blank.send_error, None);
}

#[test]
fn a_submission_counts_up_and_outdates_the_history() {
    let mut app = app_with(NativeComposerState::Clear);
    let mut sequence = 7;
    let mut cache = HistoryRenderCache::default();
    let generation = cache.generation;
    let outcome =
        handle_key(key(KeyCode::Enter, NONE), &mut app, &draft("go"), &mut sequence, &mut cache);
    assert!(matches!(
        outcome.action,
        KeyAction::Submit { local_id, expected_attachments: 0, .. } if local_id == "local-7"
    ));
    assert_eq!(sequence, 8);
    assert_eq!(cache.generation, generation + 1);

    submission_refused(&mut app, &mut cache, "stopped".into());
    assert_eq!(app.send_error.as_deref(), Some("stopped"));
    assert_eq!(cache.generation, generation + 2);
}

#[test]
fn the_clipboard_image_is_numbered_after_those_of_the_draft() {
    let mut app = AppState {
        native_composer: NativeComposerState::OwnedAttachments(2),
        draft_attachments: vec![image(1), image(2)],
        ..AppState::default()
    };
    let outcome = press(key(KeyCode::Char('v'), CONTROL), &mut app, &draft("x"));
    let KeyAction::Attach(attachment) = outcome.action else {
        panic!("the image must be attached");
    };
    assert_eq!(outcome.change, DraftChange::Unchanged);
    assert_eq!(attachment.id, "local-image-1");
    assert_eq!(attachment.display, "Image #3");
    attach_settled(&mut app, attachment, Ok(()), 12);
    assert_eq!(app.pending_attachments.len(), 1);
    assert_eq!(
        app.pending_action,
        Some(PendingAction { label: "Attaching image".into(), since_ms: 12 })
    );
    attach_settled(&mut app, image(9), Err("full".into()), 13);
    assert_eq!(app.send_error.as_deref(), Some("full"));
}

#[test]
fn the_keys_mean_what_the_table_says() {
    for (pressed, intent) in [
        (key(KeyCode::Enter, SHIFT), Intent::Edit(EditorOp::Newline)),
        (key(KeyCode::Enter, CONTROL), Intent::Edit(EditorOp::Newline)),
        (key(KeyCode::Char('j'), CONTROL), Intent::Edit(EditorOp::Newline)),
        (key(KeyCode::Enter, NONE), Intent::Submit),
        (key(KeyCode::Enter, ALT), Intent::Nothing),
        (key(KeyCode::Char('x'), NONE), Intent::Edit(EditorOp::Insert('x'))),
        (key(KeyCode::Char('X'), SHIFT), Intent::Edit(EditorOp::Insert('X'))),
        (key(KeyCode::Char('x'), CONTROL), Intent::Nothing),
        (key(KeyCode::Char('x'), SHIFT_ALT), Intent::Nothing),
        (key(KeyCode::Delete, NONE), Intent::Edit(EditorOp::Delete)),
        (key(KeyCode::Left, SHIFT), Intent::Edit(EditorOp::MoveLeft)),
        (key(KeyCode::Right, NONE), Intent::Edit(EditorOp::MoveRight)),
        (key(KeyCode::Backspace, CONTROL), Intent::Backspace),
        (key(KeyCode::Esc, NONE), Intent::Nothing),
        (key(KeyCode::Other, NONE), Intent::Nothing),
    ] {
        assert_eq!(key_intent(pressed), intent, "{pressed:?}");
    }
    assert_eq!(history_scroll_key(key(KeyCode::Home, NONE)), None);
    assert_eq!(
        history_scroll_key(key(KeyCode::Up, SHIFT)),
        Some(HistoryScroll::RowUp)
    );
}

#[test]
fn typing_forgets_the_last_failure() {
    let mut app = AppState { send_error: Some("old".into()), ..AppState::default() };
    press(key(KeyCode::Char('x'), NONE), &mut app, &draft(""));
    assert_eq!(app.send_error, None);
}

#[test]
fn an_image_is_numbered_by_its_label() {
    let labelled = |display: &str| {
        marker_number(&Attachment {
            id: "a".into(),
            display: display.into(),
            native_path: None,
        })
    };
    assert_eq!(labelled("Image #12"), Some(12));
    assert_eq!(labelled("Image #+3"), Some(3));
    assert_eq!(labelled("Image #"), None);
    assert_eq!(labelled("Image #+"), None);
    assert_eq!(labelled("Image #1x"), None);
    assert_eq!(labelled("screen.png"), None);
    assert_eq!(labelled("Image #99999999999999999999"), None);
}

#[test]
fn refusals_are_said_where_they_belong() {
    let mut app = AppState::default();
    forward_refused(&mut app, "a".into());
    interrupt_refused(&mut app, "b".into());
    removal_settled(&mut app, Err("c".into()), 0);
    assert_eq!(app.interaction_error.as_deref(), Some("a"));
    assert_eq!(app.send_error.as_deref(), Some("b"));
    assert_eq!(app.background_error.as_deref(), Some("c"));
}
