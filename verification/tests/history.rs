use herdr_simple_prompts::app::AppState;
use herdr_simple_prompts::local_time::format_timestamp_at_offset;
use herdr_simple_prompts::markdown::MarkdownProjection;
use herdr_simple_prompts::model::{Delivery, Message, Turn};
use herdr_simple_prompts::style::StyledText;
use herdr_simple_prompts::ui::history::HistoryRenderCache;
use herdr_simple_prompts::ui::visual_rows::TurnInput;

fn add_turn(app: &mut AppState, prompt: Message, answer: Option<Message>) {
    app.turns.push(Turn {
        prompt,
        delivery: Delivery::Native,
        final_answer: answer,
    });
}

fn eight_turns() -> AppState {
    let mut app = AppState::default();
    for index in 0..8 {
        add_turn(
            &mut app,
            Message::text(&format!("u{index}"), &format!("prompt {index}"), Some(index)),
            Some(Message::final_text(
                &format!("a{index}"),
                &format!("answer {index}"),
                Some(index),
            )),
        );
    }
    app
}

fn inputs(app: &AppState) -> Vec<TurnInput> {
    app.turns
        .iter()
        .map(|turn| TurnInput {
            prompt_time: format_timestamp_at_offset(turn.prompt.timestamp_ms, 0),
            answer_time: turn
                .final_answer
                .as_ref()
                .and_then(|answer| format_timestamp_at_offset(answer.timestamp_ms, 0)),
            answer_markdown: MarkdownProjection {
                styled: StyledText {
                    text: turn
                        .final_answer
                        .as_ref()
                        .map_or(String::new(), |answer| answer.text.clone()),
                    runs: Vec::new(),
                },
                hyperlinks: Vec::new(),
                non_clickable_links: Vec::new(),
            },
        })
        .collect()
}

fn shown(cache: &mut HistoryRenderCache, app: &AppState) -> Vec<String> {
    cache
        .viewport_rows(app, 40, 5, &inputs(app))
        .into_iter()
        .map(|row| row.plain_text())
        .collect()
}

#[test]
fn history_cache_reuses_until_invalidated_or_resized() {
    let mut cache = HistoryRenderCache::default();
    let mut app = AppState::default();

    cache.document_for(&app, 20, &inputs(&app));
    cache.document_for(&app, 20, &inputs(&app));
    assert_eq!(cache.rebuild_count(), 1);

    add_turn(&mut app, Message::text("u1", "changed", Some(1)), None);
    cache.invalidate();
    cache.document_for(&app, 20, &inputs(&app));
    assert_eq!(cache.rebuild_count(), 2);

    cache.document_for(&app, 21, &inputs(&app));
    assert_eq!(cache.rebuild_count(), 3);
}

#[test]
fn history_scroll_clamps_overscroll_and_page_down_moves_immediately() {
    let mut cache = HistoryRenderCache::default();
    let app = eight_turns();
    let _ = shown(&mut cache, &app);

    cache.scroll_up(usize::MAX);
    assert_eq!(cache.scroll_from_bottom(), cache.maximum_offset());
    let oldest = cache.scroll_from_bottom();
    cache.scroll_down(5);

    assert_eq!(cache.scroll_from_bottom(), oldest.saturating_sub(5));
}

#[test]
fn history_append_preserves_the_manual_viewport_top() {
    let mut cache = HistoryRenderCache::default();
    let mut app = eight_turns();
    let _ = shown(&mut cache, &app);
    cache.scroll_up(7);
    let before = shown(&mut cache, &app);

    add_turn(
        &mut app,
        Message::text("u-new", "new prompt", Some(100)),
        Some(Message::final_text("a-new", "new answer", Some(101))),
    );
    cache.invalidate();
    let after = shown(&mut cache, &app);

    assert_eq!(after, before);
}

#[test]
fn whoever_reads_the_latest_keeps_reading_it() {
    let mut cache = HistoryRenderCache::default();
    let mut app = eight_turns();
    let _ = shown(&mut cache, &app);
    assert_eq!(cache.scroll_from_bottom(), 0);

    add_turn(
        &mut app,
        Message::text("u-new", "new prompt", Some(100)),
        Some(Message::final_text("a-new", "new answer", Some(101))),
    );
    cache.invalidate();
    let after = shown(&mut cache, &app);

    assert_eq!(cache.scroll_from_bottom(), 0);
    assert!(after.iter().any(|row| row.contains("new answer")));
}

#[test]
fn a_page_is_the_view_less_two_rows() {
    let mut cache = HistoryRenderCache::default();
    let app = eight_turns();
    let _ = shown(&mut cache, &app);
    assert_eq!(cache.page_rows(), 3);
    cache.scroll_to_oldest();
    assert_eq!(cache.scroll_from_bottom(), cache.maximum_offset());
    cache.scroll_to_latest();
    assert_eq!(cache.scroll_from_bottom(), 0);
}

#[test]
fn moments_are_shown_at_an_offset() {
    assert_eq!(
        format_timestamp_at_offset(Some(1_786_638_720_000), 3 * 3600).as_deref(),
        Some("13.08.2026 19:32")
    );
    assert_eq!(
        format_timestamp_at_offset(Some(0), 0).as_deref(),
        Some("01.01.1970 00:00")
    );
    assert_eq!(format_timestamp_at_offset(Some(u64::MAX), 0), None);
    assert_eq!(format_timestamp_at_offset(None, 0), None);
}
