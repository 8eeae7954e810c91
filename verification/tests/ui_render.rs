use herdr_simple_prompts::agent::AgentStatus;
use herdr_simple_prompts::ansi::sanitize_ansi;
use herdr_simple_prompts::app::{AppState, BlockedSurface, PendingAction, StatusLine};
use herdr_simple_prompts::composer::NativeComposerState;
use herdr_simple_prompts::markdown::{
    is_safe_hyperlink_url, HyperlinkRange, MarkdownProjection, NonClickableLinkRange,
};
use herdr_simple_prompts::model::{Attachment, Delivery, Message, Turn};
use herdr_simple_prompts::style::{
    AnsiColor, MessagePresentation, StyleModifiers, StyleRun, StyledText,
};
use herdr_simple_prompts::ui::draft::DraftView;
use herdr_simple_prompts::ui::history::{HistoryRenderCache, HyperlinkArea};
use herdr_simple_prompts::ui::render::parts::{
    composer_height, footer, horizontal_content_area, hyperlink_patches, hyperlink_symbol,
    stale_glyphs, Area, DrawnCell,
};
use herdr_simple_prompts::ui::render::screen::{
    render, render_blocked, render_ordinary, BlockedScreen, Rendered, Screen,
};
use herdr_simple_prompts::ui::visual_rows::{
    sticky_overlay, wrap_styled, CellStyle, HistoryDocument, PromptSection, StickyRows, TurnInput,
    VisualRow, VisualSpan,
};

const THREE_HOURS: i32 = 3 * 60 * 60;

fn add_prompt(app: &mut AppState, message: Message) {
    app.turns.push(Turn { prompt: message, delivery: Delivery::Native, final_answer: None });
}

fn add_answer(app: &mut AppState, message: Message) {
    app.turns.last_mut().unwrap().final_answer = Some(message);
}

fn plain(text: &str) -> StyledText {
    StyledText { text: text.to_owned(), runs: Vec::new() }
}

fn projection(text: &str) -> MarkdownProjection {
    MarkdownProjection {
        styled: plain(text),
        hyperlinks: Vec::new(),
        non_clickable_links: Vec::new(),
    }
}

/// Each answer read as Markdown that holds no markup.
fn projections(app: &AppState) -> Vec<MarkdownProjection> {
    app.turns
        .iter()
        .map(|turn| projection(turn.final_answer.as_ref().map_or("", |answer| &answer.text)))
        .collect()
}

fn inputs_of(markdown: Vec<MarkdownProjection>) -> Vec<TurnInput> {
    markdown
        .into_iter()
        .map(|answer_markdown| TurnInput { prompt_time: None, answer_time: None, answer_markdown })
        .collect()
}

fn inputs(app: &AppState) -> Vec<TurnInput> {
    inputs_of(projections(app))
}

fn document(app: &AppState, width: u16) -> HistoryDocument {
    HistoryDocument::from_app(app, width, &inputs(app))
}

fn document_at_offset(app: &AppState, width: u16) -> HistoryDocument {
    HistoryDocument::from_app_at_offset(app, width, THREE_HOURS, &projections(app))
}

fn draft(text: &str) -> DraftView {
    let mut atoms = Vec::new();
    for (index, character) in text.chars().enumerate() {
        for _ in 0..character.len_utf8() {
            atoms.push(index);
        }
    }
    atoms.push(text.chars().count());
    DraftView {
        display_text: text.to_owned(),
        cursor_byte: text.len(),
        cursor_atom: text.chars().count(),
        atoms,
        highlight: None,
        submission_text: text.to_owned(),
        attachment_at_cursor: None,
        attachment_behind_cursor: None,
    }
}

fn frame(width: u16, height: u16) -> Area {
    Area { x: 0, y: 0, width, height }
}

fn screen(app: &AppState, draft: &DraftView, width: u16, height: u16) -> Screen {
    let mut history = HistoryRenderCache::default();
    let error = app.connection_error.clone();
    render_ordinary(app, draft, &error, 2_000, frame(width, height), &mut history, &inputs(app))
}

/// What the overlay shows, whatever the agent is doing.
fn render_to_string(app: &AppState, draft: &DraftView, width: u16, height: u16) -> String {
    let mut history = HistoryRenderCache::default();
    let error = app.connection_error.clone();
    match render(app, draft, &error, 2_000, frame(width, height), &mut history, &inputs(app)) {
        Rendered::Ordinary(screen) => shown(&screen),
        Rendered::Blocked(screen) => shown_question(&screen),
    }
}

fn lines(rows: &[VisualRow]) -> Vec<String> {
    rows.iter().map(|row| row.plain_text()).collect()
}

fn shown(screen: &Screen) -> String {
    let mut rows = lines(&screen.history);
    rows.extend(screen.error.iter().map(|row| row.plain_text()));
    rows.extend(screen.note.iter().map(|row| row.plain_text()));
    rows.extend(lines(&screen.composer));
    rows.push(screen.footer.clone());
    rows.join("\n")
}

fn shown_question(screen: &BlockedScreen) -> String {
    let mut rows = vec![screen.title.plain_text()];
    rows.extend(lines(&screen.body));
    rows.extend(screen.error.iter().map(|row| row.plain_text()));
    rows.push(screen.footer.clone());
    rows.join("\n")
}

fn twenty_turns() -> AppState {
    let mut app = AppState::default();
    for index in 0..20 {
        add_prompt(
            &mut app,
            Message::text(&format!("u{index}"), &format!("prompt {index}"), Some(index)),
        );
        add_answer(
            &mut app,
            Message::text(&format!("a{index}"), &format!("answer {index}"), Some(index)),
        );
    }
    app
}

fn native(text: &str, foreground: AnsiColor, underline: bool) -> MessagePresentation {
    MessagePresentation::NativeAnsi(StyledText {
        text: text.into(),
        runs: vec![StyleRun {
            start_byte: 0,
            end_byte: text.len(),
            foreground: Some(foreground),
            background: None,
            modifiers: StyleModifiers { bold: true, underline, ..StyleModifiers::default() },
        }],
    })
}

fn style_run(
    range: std::ops::Range<usize>,
    foreground: Option<AnsiColor>,
    background: Option<AnsiColor>,
) -> StyleRun {
    StyleRun {
        start_byte: range.start,
        end_byte: range.end,
        foreground,
        background,
        modifiers: StyleModifiers::default(),
    }
}

#[test]
fn prompt_is_a_label_free_gray_block_and_answer_is_unboxed() {
    let mut app = AppState::default();
    add_prompt(&mut app, Message::text("u1", "check dns", None));
    add_answer(&mut app, Message::text("a1", "zone is pending", None));

    let rendered = shown(&screen(&app, &draft(""), 50, 14));
    let document = document(&app, 50);

    assert!(!rendered.contains("YOU"));
    assert!(!rendered.contains("ANSWER"));
    assert_eq!(document.rows[0].plain_text(), "");
    assert_eq!(document.rows[1].plain_text(), "check dns");
    assert_eq!(document.rows[2].plain_text(), "");
    assert_eq!(document.rows[3].plain_text(), "zone is pending");
    assert_eq!(document.rows[0].fill, document.rows[1].fill);
    assert_eq!(document.rows[1].fill, document.rows[2].fill);
    assert!(document.rows[0].fill.is_some());
    assert!(document.rows[3].fill.is_none());
}

#[test]
fn unstyled_agent_answer_uses_a_bright_foreground() {
    let mut app = AppState::default();
    add_prompt(&mut app, Message::text("u1", "prompt", None));
    add_answer(&mut app, Message::text("a1", "Z", None));

    let screen = screen(&app, &draft(""), 40, 12);
    let answer = screen
        .history
        .iter()
        .flat_map(|row| &row.spans)
        .find(|span| span.text.contains('Z'))
        .expect("the answer is on screen");

    assert_eq!(answer.style.foreground, Some(AnsiColor::BrightWhite));
}

#[test]
fn timestamp_uses_the_existing_top_prompt_row_at_a_fixed_offset() {
    let mut app = AppState::default();
    add_prompt(&mut app, Message::text("u1", "check dns", Some(1_786_638_720_000)));
    add_answer(&mut app, Message::text("a1", "zone is pending", None));

    let document = document_at_offset(&app, 50);

    assert_eq!(document.rows.len(), 5);
    assert_eq!(document.rows[0].plain_text(), "  13.08.2026 19:32");
    assert_eq!(document.rows[1].plain_text(), "check dns");
    assert_eq!(document.rows[2].plain_text(), "");
    assert_eq!(document.rows[3].plain_text(), "zone is pending");
    assert_eq!(document.rows[0].fill, document.rows[1].fill);
    assert_eq!(document.rows[1].fill, document.rows[2].fill);
    assert_eq!(
        document.rows[0].spans[0].style.foreground,
        Some(AnsiColor::BrightBlack)
    );
    assert!(!document.rows[0].spans[0].style.modifiers.dim);
}

#[test]
fn answer_timestamp_is_an_undimmed_gray_row_above_the_styled_body() {
    let mut app = AppState::default();
    add_prompt(&mut app, Message::text("u1", "show native", None));
    add_answer(
        &mut app,
        Message {
            stable_id: "a1".into(),
            text: "Native answer".into(),
            presentation: native("Native answer", AnsiColor::Green, false),
            attachments: Vec::new(),
            timestamp_ms: Some(1_786_638_720_000),
        },
    );

    let document = document_at_offset(&app, 50);

    assert_eq!(document.rows.len(), 6);
    assert_eq!(document.rows[3].plain_text(), "  13.08.2026 19:32");
    assert!(document.rows[3].fill.is_none());
    assert_eq!(
        document.rows[3].spans[0].style.foreground,
        Some(AnsiColor::BrightBlack)
    );
    assert!(!document.rows[3].spans[0].style.modifiers.dim);
    assert_eq!(document.rows[4].plain_text(), "Native answer");
    assert_eq!(
        document.rows[4].spans[0].style.foreground,
        Some(AnsiColor::Green)
    );
    assert!(document.rows[4].spans[0].style.modifiers.bold);
}

#[test]
fn answer_timestamp_is_clipped_to_one_visual_row() {
    let mut app = AppState::default();
    add_prompt(&mut app, Message::text("u1", "prompt", None));
    add_answer(&mut app, Message::text("a1", "done", Some(1_786_638_720_000)));

    let document = document_at_offset(&app, 8);

    assert_eq!(document.rows[3].plain_text(), "  13.08.");
    assert_eq!(document.rows[3].cell_width(), 8);
    assert_eq!(document.rows[4].plain_text(), "done");
}

#[test]
fn answer_timestamp_is_omitted_without_a_valid_value() {
    for timestamp_ms in [None, Some(u64::MAX)] {
        let mut app = AppState::default();
        add_prompt(&mut app, Message::text("u1", "prompt", None));
        add_answer(&mut app, Message::text("a1", "answer", timestamp_ms));

        let document = document_at_offset(&app, 50);

        assert_eq!(document.rows.len(), 5);
        assert_eq!(document.rows[3].plain_text(), "answer");
        assert_eq!(document.rows[4].plain_text(), "");
    }
}

#[test]
fn narrow_timestamp_is_clipped_to_one_gray_row_without_growing_the_prompt() {
    let mut app = AppState::default();
    add_prompt(&mut app, Message::text("u1", "prompt", Some(1_786_638_720_000)));

    let document = document_at_offset(&app, 8);

    assert_eq!(document.rows.len(), 4);
    assert_eq!(document.rows[0].plain_text(), "  13.08.");
    assert_eq!(document.rows[0].cell_width(), 8);
    assert_eq!(document.rows[1].plain_text(), "prompt");
    assert_eq!(document.rows[2].plain_text(), "");
    assert!(document.rows[0].fill.is_some());
}

#[test]
fn missing_or_invalid_timestamp_leaves_the_existing_top_gray_row_blank() {
    for timestamp_ms in [None, Some(u64::MAX)] {
        let mut app = AppState::default();
        add_prompt(&mut app, Message::text("u1", "legacy prompt", timestamp_ms));

        let document = document_at_offset(&app, 50);

        assert_eq!(document.rows.len(), 4);
        assert_eq!(document.rows[0].plain_text(), "");
        assert_eq!(document.rows[1].plain_text(), "legacy prompt");
        assert!(document.rows[0].fill.is_some());
    }
}

#[test]
fn working_prompt_is_above_composer_and_footer() {
    let mut app = AppState::default();
    add_prompt(&mut app, Message::text("u1", "run tests", Some(1)));
    app.agent_status = AgentStatus::Working;
    app.working_since_ms = Some(0);

    let screen = screen(&app, &draft(""), 80, 24);
    let rendered = shown(&screen);

    let prompt = rendered.find("run tests").unwrap();
    let working = rendered.find("Working (2s · esc to interrupt)").unwrap();
    let composer = rendered.find("Write a prompt").unwrap();
    assert!(prompt < working && working < composer);
    assert!(screen.history_area.y < screen.note_area.y);
    assert!(screen.note_area.y < screen.composer_area.y);
    assert!(screen.composer_area.y < screen.footer_area.y);
}

#[test]
fn composer_shows_attached_images_before_submission() {
    let app = AppState {
        draft_attachments: vec![Attachment {
            id: "image-1".into(),
            display: "screen.png".into(),
            native_path: None,
        }],
        native_composer: NativeComposerState::OwnedAttachments(1),
        ..AppState::default()
    };

    let rendered = shown(&screen(&app, &draft("[Image #1] describe it"), 80, 24));

    assert!(
        rendered.contains("[Image #1] describe it"),
        "the marker holds its place in the line, as the native composer shows it"
    );
}

#[test]
fn composer_marks_images_as_pending_until_native_verification() {
    let mut app = AppState::default();
    app.pending_attachments.push(Attachment {
        id: "pending-1".into(),
        display: "screen.png".into(),
        native_path: Some("/private/tmp/screen.png".into()),
    });

    let rendered = shown(&screen(&app, &draft(""), 80, 24));

    assert!(rendered.contains("screen.png (verifying…)"));
}

#[test]
fn only_normalized_messages_reach_the_view() {
    let mut app = AppState::default();
    add_prompt(&mut app, Message::text("u1", "hello", Some(1)));
    add_answer(&mut app, Message::text("a1", "done", Some(2)));

    let rendered = shown(&screen(&app, &draft(""), 80, 24));

    assert!(rendered.contains("hello"));
    assert!(rendered.contains("done"));
    assert!(!rendered.contains("tool_call"));
    assert!(!rendered.contains("reasoning"));
}

#[test]
fn history_starts_at_the_bottom_and_page_up_moves_toward_older_turns() {
    let mut app = twenty_turns();

    let newest = shown(&screen(&app, &draft(""), 50, 12));
    assert!(newest.contains("prompt 19"));
    assert!(!newest.contains("prompt 0"));

    app.scroll_from_bottom = usize::MAX;
    let oldest = shown(&screen(&app, &draft(""), 50, 12));
    assert!(oldest.contains("prompt 0"));
    assert!(!oldest.contains("prompt 19"));
}

#[test]
fn a_scrollable_history_shows_a_thumb_and_names_the_way_back() {
    let mut app = twenty_turns();

    let following = screen(&app, &draft(""), 50, 12);
    assert!(following.scrollbar.iter().any(|cell| cell.on_thumb));
    assert!(following.scrollbar.iter().all(|cell| cell.x == 49));
    assert!(
        !following.footer.contains('↑'),
        "a view at the newest answer has no distance to report"
    );

    app.scroll_from_bottom = usize::MAX;
    let scrolled = screen(&app, &draft(""), 50, 12);
    assert!(scrolled.footer.contains('↑'), "{:?}", scrolled.footer);
    assert!(
        scrolled.footer.contains("Shift+End for the latest"),
        "{:?}",
        scrolled.footer
    );
    let thumb = |screen: &Screen| {
        screen.scrollbar.iter().map(|cell| cell.on_thumb).collect::<Vec<_>>()
    };
    assert_ne!(
        thumb(&scrolled),
        thumb(&following),
        "the thumb has to move with the view"
    );
}

#[test]
fn a_history_that_fits_leaves_the_gutters_clear() {
    let mut app = AppState::default();
    add_prompt(&mut app, Message::text("u1", "question", None));
    add_answer(&mut app, Message::final_text("a1", "answer", None));

    let screen = screen(&app, &draft(""), 40, 20);

    assert!(screen.scrollbar.is_empty());
    assert!(screen.edge_fills.iter().all(|edge| edge.y < 3));
}

#[test]
fn narrow_multiword_answer_scrolls_to_its_real_last_visual_row() {
    let mut app = AppState::default();
    add_prompt(&mut app, Message::text("u1", "question", Some(1)));
    add_answer(
        &mut app,
        Message::final_text(
            "a1",
            "one two three four five six seven eight nine ten eleven twelve",
            Some(2),
        ),
    );

    let rendered = shown(&screen(&app, &draft(""), 18, 8));
    assert!(rendered.contains("twelve"));
}

#[test]
fn wrapped_prompt_rows_fill_the_full_terminal_width() {
    let mut app = AppState::default();
    add_prompt(
        &mut app,
        Message::text(
            "u1",
            "a deliberately long prompt that wraps onto continuation rows",
            None,
        ),
    );

    let band = Some(AnsiColor::Rgb(229, 229, 230));
    let screen = screen(&app, &draft(""), 22, 12);
    let gray_rows = document(&app, 20).rows.iter().take_while(|row| row.fill.is_some()).count();
    let first = lines(&screen.history)
        .iter()
        .position(|row| row.starts_with('a'))
        .expect("prompt row should be visible");
    let block_start = first - 1;
    let block = &screen.history[block_start..block_start + gray_rows];
    assert!(block[0].plain_text().trim().is_empty());
    assert!(block[gray_rows - 1].plain_text().trim().is_empty());
    assert_eq!((screen.history_area.x, screen.history_area.width), (1, 20));
    for row in block {
        assert_eq!(row.cell_width(), 20, "the row paints every column of its area");
        assert!(row.spans.iter().all(|span| span.style.background == band));
    }
    // The fills paint the first column and the last one of the terminal.
    let edges: Vec<(u16, Option<AnsiColor>)> =
        screen.edge_fills.iter().map(|edge| (edge.y, edge.style.background)).collect();
    let top = screen.history_area.y + block_start as u16;
    let expected: Vec<(u16, Option<AnsiColor>)> =
        (top..top + gray_rows as u16).map(|y| (y, band)).collect();
    assert_eq!(edges, expected);
}

#[test]
fn sticky_prompt_background_reaches_both_terminal_edges() {
    let mut app = AppState::default();
    add_prompt(&mut app, Message::text("u1", "sticky question", None));
    add_answer(
        &mut app,
        Message::final_text(
            "a1",
            "one two three four five six seven eight nine ten eleven twelve thirteen fourteen",
            None,
        ),
    );

    let screen = screen(&app, &draft(""), 20, 9);

    assert_eq!(
        screen.edge_fills.iter().map(|edge| edge.y).collect::<Vec<_>>(),
        [0, 1]
    );
    assert!(screen.history[1].plain_text().starts_with('s'));
}

#[test]
fn wrapped_prompt_fills_the_band_less_the_scroll_column_without_a_role_indent() {
    let mut app = AppState::default();
    add_prompt(&mut app, Message::text("u1", "abcdefghijklmnopqrst", None));

    let document = document(&app, 14);
    assert_eq!(document.rows[0].plain_text(), "");
    assert_eq!(document.rows[1].plain_text(), "abcdefghijklm");
    assert_eq!(document.rows[2].plain_text(), "nopqrst");
    assert_eq!(document.rows[3].plain_text(), "");
}

#[test]
fn visual_rows_preserve_unicode_width_and_style_runs() {
    let bold = CellStyle {
        modifiers: StyleModifiers { bold: true, ..Default::default() },
        ..Default::default()
    };
    let rows = wrap_styled(
        &StyledText {
            text: "界界a\nnext".into(),
            runs: vec![StyleRun {
                start_byte: 0,
                end_byte: "界界".len(),
                foreground: None,
                background: None,
                modifiers: bold.modifiers,
            }],
        },
        4,
    );

    assert_eq!(rows.len(), 3);
    assert_eq!(rows[0].plain_text(), "界界");
    assert_eq!(rows[0].cell_width(), 4);
    assert_eq!(rows[0].spans[0].style, bold);
    assert_eq!(rows[1].plain_text(), "a");
    assert_eq!(rows[2].plain_text(), "next");
}

#[test]
fn sticky_prompt_keeps_top_padding_and_two_content_rows_when_space_allows() {
    let sections = [PromptSection {
        start_row: 0,
        content_start_row: 1,
        prompt_rows: 2,
        end_row: 9,
    }];
    assert_eq!(sticky_overlay(&sections, 1, 5), None);
    assert_eq!(
        sticky_overlay(&sections, 2, 5),
        Some(StickyRows { source_start: 0, screen_start: 0, count: 3 })
    );
}

#[test]
fn later_prompt_pushes_sticky_copy_off_one_row_at_a_time() {
    let sections = [
        PromptSection { start_row: 0, content_start_row: 1, prompt_rows: 4, end_row: 10 },
        PromptSection { start_row: 10, content_start_row: 11, prompt_rows: 1, end_row: 14 },
    ];
    assert_eq!(
        sticky_overlay(&sections, 7, 5),
        Some(StickyRows { source_start: 0, screen_start: 0, count: 3 })
    );
    assert_eq!(
        sticky_overlay(&sections, 8, 5),
        Some(StickyRows { source_start: 1, screen_start: 0, count: 2 })
    );
    assert_eq!(
        sticky_overlay(&sections, 9, 5),
        Some(StickyRows { source_start: 2, screen_start: 0, count: 1 })
    );
    assert_eq!(sticky_overlay(&sections, 10, 4), None);
}

#[test]
fn generated_document_rows_above_u16_max_keep_manual_viewport_and_sticky_rows() {
    let mut document = HistoryDocument {
        rows: (0..70_010)
            .map(|index| VisualRow::plain(&format!("row {index}")))
            .collect(),
        prompts: vec![PromptSection {
            start_row: 70_000,
            content_start_row: 70_001,
            prompt_rows: 2,
            end_row: 70_006,
        }],
    };
    document.rows[70_001] = VisualRow::plain("prompt first");
    document.rows[70_002] = VisualRow::plain("prompt second");

    assert_eq!(document.viewport(3, 0)[0].plain_text(), "row 70007");
    assert_eq!(
        document
            .viewport(3, 4)
            .iter()
            .map(VisualRow::plain_text)
            .collect::<Vec<_>>(),
        ["prompt first", "prompt second", "row 70005"]
    );
    assert_eq!(
        sticky_overlay(&document.prompts, 70_003, 3),
        Some(StickyRows { source_start: 70_001, screen_start: 0, count: 2 })
    );
}

#[test]
fn wrapper_preserves_many_adjacent_and_gapped_runs_across_wrapped_unicode() {
    let rows = wrap_styled(
        &StyledText {
            text: "界a\n b界c".into(),
            runs: vec![
                style_run(0..3, Some(AnsiColor::Red), None),
                style_run(3..4, Some(AnsiColor::Green), None),
                style_run(6..7, Some(AnsiColor::Blue), None),
                style_run(7..10, Some(AnsiColor::Yellow), None),
                style_run(10..11, Some(AnsiColor::Magenta), None),
            ],
        },
        3,
    );

    let flattened = rows
        .iter()
        .flat_map(|row| {
            row.spans.iter().flat_map(|span| {
                span.text.chars().map(move |character| (character, span.style))
            })
        })
        .collect::<Vec<_>>();
    let colored = |color| CellStyle { foreground: Some(color), ..Default::default() };
    assert_eq!(
        flattened,
        vec![
            ('界', colored(AnsiColor::Red)),
            ('a', colored(AnsiColor::Green)),
            (' ', CellStyle::default()),
            ('b', colored(AnsiColor::Blue)),
            ('界', colored(AnsiColor::Yellow)),
            ('c', colored(AnsiColor::Magenta)),
        ]
    );
}

#[test]
fn sticky_short_viewports_prioritize_content_before_top_padding() {
    let sections = [PromptSection {
        start_row: 0,
        content_start_row: 1,
        prompt_rows: 2,
        end_row: 6,
    }];
    assert_eq!(sticky_overlay(&sections, 2, 1), None);
    assert_eq!(
        sticky_overlay(&sections, 2, 2),
        Some(StickyRows { source_start: 1, screen_start: 0, count: 1 })
    );
    assert_eq!(
        sticky_overlay(&sections, 2, 3),
        Some(StickyRows { source_start: 1, screen_start: 0, count: 2 })
    );
    assert_eq!(
        sticky_overlay(&sections, 2, 4),
        Some(StickyRows { source_start: 0, screen_start: 0, count: 3 })
    );

    let document = HistoryDocument {
        rows: (0..6)
            .map(|index| VisualRow::plain(&format!("row {index}")))
            .collect(),
        prompts: sections.to_vec(),
    };
    for height in 1..=3 {
        let viewport = document.viewport(height, 3);
        assert_eq!(viewport.len(), height.min(document.rows.len()));
        assert!(viewport.iter().any(|row| row.plain_text().starts_with("row")));
    }
}

#[test]
fn wrapper_handles_cjk_and_combining_marks() {
    let rows = wrap_styled(
        &StyledText { text: "界e\u{301}界".into(), ..Default::default() },
        3,
    );
    assert_eq!(
        rows.iter().map(VisualRow::plain_text).collect::<Vec<_>>(),
        ["界e\u{301}", "界"]
    );
}

#[test]
fn image_only_prompt_is_available_as_sticky_context() {
    let mut app = AppState::default();
    let mut image = Message::text("u1", "", Some(1));
    image.attachments.push(Attachment {
        id: "image-1".into(),
        display: "diagram.png".into(),
        native_path: None,
    });
    add_prompt(&mut app, image);
    add_answer(
        &mut app,
        Message::final_text(
            "a1",
            "one two three four five six seven eight nine ten eleven twelve",
            Some(2),
        ),
    );

    let rendered = shown(&screen(&app, &draft(""), 20, 9));
    assert!(rendered.contains("[Image #1]"));
}

#[test]
fn compact_paste_marker_is_not_reconstructed_in_history() {
    let mut app = AppState::default();
    add_prompt(&mut app, Message::text("u1", "[Pasted Content · 1000 chars]", Some(1)));
    let rendered = shown(&screen(&app, &draft(""), 50, 10));
    assert!(rendered.contains("[Pasted Content · 1000 chars]"));
}

#[test]
fn bottom_offset_uses_document_rows_without_second_wrapping() {
    let document = HistoryDocument {
        rows: (0..8)
            .map(|index| VisualRow::plain(&format!("row {index}")))
            .collect(),
        prompts: Vec::new(),
    };
    assert_eq!(document.viewport(3, 0)[0].plain_text(), "row 5");
    assert_eq!(document.viewport(3, 2)[0].plain_text(), "row 3");
}

#[test]
fn disabled_composer_explains_that_the_source_must_be_reopened() {
    let app = AppState {
        input_enabled: false,
        connection_error: Some("source agent session changed".into()),
        ..AppState::default()
    };

    let rendered = shown(&screen(&app, &draft(""), 80, 24));

    assert!(rendered.contains("Input disabled"));
    assert!(rendered.contains("source agent session changed"));
}

#[test]
fn occupied_native_composer_hides_plugin_draft_and_preserves_history() {
    let mut app = AppState {
        native_composer: NativeComposerState::Occupied,
        ..AppState::default()
    };
    add_prompt(&mut app, Message::text("u1", "visible history", Some(1)));
    app.draft_attachments.push(Attachment {
        id: "image-1".into(),
        display: "screen.png".into(),
        native_path: None,
    });

    let rendered = shown(&screen(&app, &draft("private plugin draft"), 80, 18));

    assert!(rendered.contains("Native composer contains unsent input · prefix+m to return"));
    assert!(rendered.contains("visible history"));
    assert!(!rendered.contains("private plugin draft"));
    assert!(!rendered.contains("screen.png"));
}

#[test]
fn unknown_native_composer_shows_conservative_warning() {
    let app = AppState {
        native_composer: NativeComposerState::Unknown,
        ..AppState::default()
    };

    let rendered = shown(&screen(&app, &draft(""), 80, 12));

    assert!(rendered.contains("Unable to verify native composer · prefix+m to return"));
    assert!(!rendered.contains("Write a prompt"));
}

#[test]
fn markdown_hyperlinks_survive_unicode_wrapping_as_ephemeral_spans() {
    let mut app = AppState::default();
    add_prompt(&mut app, Message::text("u1", "show links", None));
    add_answer(
        &mut app,
        Message::final_text("a1", "до [документы](https://example.test/путь) после", None),
    );
    let text = "до документы после";
    let start_byte = text.find("документы").unwrap();
    let end_byte = start_byte + "документы".len();
    let markdown = MarkdownProjection {
        styled: StyledText {
            text: text.into(),
            runs: vec![StyleRun {
                start_byte,
                end_byte,
                foreground: Some(AnsiColor::Cyan),
                background: None,
                modifiers: StyleModifiers { underline: true, ..StyleModifiers::default() },
            }],
        },
        hyperlinks: vec![HyperlinkRange {
            start_byte,
            end_byte,
            url: "https://example.test/путь".into(),
        }],
        non_clickable_links: Vec::new(),
    };

    let document = HistoryDocument::from_app(&app, 7, &inputs_of(vec![markdown]));
    let linked = document
        .rows
        .iter()
        .flat_map(|row| &row.spans)
        .filter(|span| span.hyperlink.is_some())
        .collect::<Vec<_>>();

    assert_eq!(
        linked.iter().map(|span| span.text.as_str()).collect::<String>(),
        "документы"
    );
    assert!(linked.iter().all(|span| {
        span.hyperlink.as_deref() == Some("https://example.test/путь")
            && span.style.foreground == Some(AnsiColor::Cyan)
            && span.style.modifiers.underline
    }));
}

#[test]
fn exact_native_presentation_adds_link_target_without_replacing_native_style() {
    let mut app = AppState::default();
    add_prompt(&mut app, Message::text("u1", "show native", None));
    add_answer(
        &mut app,
        Message {
            stable_id: "a1".into(),
            text: "[docs](https://example.test)".into(),
            presentation: native("docs", AnsiColor::Green, false),
            attachments: Vec::new(),
            timestamp_ms: None,
        },
    );
    let markdown = MarkdownProjection {
        styled: plain("docs"),
        hyperlinks: vec![HyperlinkRange {
            start_byte: 0,
            end_byte: 4,
            url: "https://example.test".into(),
        }],
        non_clickable_links: Vec::new(),
    };

    let document = HistoryDocument::from_app(&app, 50, &inputs_of(vec![markdown]));
    let docs = document
        .rows
        .iter()
        .flat_map(|row| &row.spans)
        .find(|span| span.text.contains("docs"))
        .expect("native link label should reach visual rows");

    assert_eq!(docs.hyperlink.as_deref(), Some("https://example.test"));
    assert_eq!(docs.style.foreground, Some(AnsiColor::Green));
    assert!(docs.style.modifiers.bold);
}

#[test]
fn exact_native_non_http_links_lose_only_their_captured_underline() {
    for (index, destination) in [
        "mailto:user@example.test",
        "editor://open/project",
        "https://example.test/\u{1b}]8;;injected",
    ]
    .into_iter()
    .enumerate()
    {
        assert!(!is_safe_hyperlink_url(destination));
        let mut app = AppState::default();
        add_prompt(&mut app, Message::text(&format!("u{index}"), "show native", None));
        add_answer(
            &mut app,
            Message {
                stable_id: format!("a{index}"),
                text: format!("[label]({destination})"),
                presentation: native("label", AnsiColor::Blue, true),
                attachments: Vec::new(),
                timestamp_ms: None,
            },
        );
        let markdown = MarkdownProjection {
            styled: plain("label"),
            hyperlinks: Vec::new(),
            non_clickable_links: vec![NonClickableLinkRange { start_byte: 0, end_byte: 5 }],
        };

        let document = HistoryDocument::from_app(&app, 50, &inputs_of(vec![markdown]));
        let label = document
            .rows
            .iter()
            .flat_map(|row| &row.spans)
            .find(|span| span.text.contains("label"))
            .expect("native non-clickable label should reach visual rows");

        assert_eq!(label.hyperlink, None, "destination: {destination:?}");
        assert!(label.style.modifiers.bold, "destination: {destination:?}");
        assert!(!label.style.modifiers.underline, "destination: {destination:?}");
        assert_eq!(
            label.style.foreground,
            Some(AnsiColor::Blue),
            "destination: {destination:?}"
        );
    }
}

#[test]
fn native_presentation_renders_owned_visible_text_not_canonical_markdown() {
    let mut app = AppState::default();
    add_prompt(&mut app, Message::text("u1", "show native", Some(1)));
    add_answer(
        &mut app,
        Message {
            stable_id: "a1".into(),
            text: "# [canonical](https://example.test)".into(),
            presentation: native("Native label", AnsiColor::Green, false),
            attachments: Vec::new(),
            timestamp_ms: Some(2),
        },
    );

    let document = document(&app, 50);
    let rendered = shown(&screen(&app, &draft(""), 50, 14));
    let native = document
        .rows
        .iter()
        .flat_map(|row| &row.spans)
        .find(|span| span.text.contains("Native label"))
        .expect("native rendered text should reach visual rows");
    assert_eq!(native.style.foreground, Some(AnsiColor::Green));
    assert!(native.style.modifiers.bold);
    assert!(rendered.contains("Native label"));
    assert!(!rendered.contains("canonical"));
    assert!(!rendered.contains("https://example.test"));
}

#[test]
fn terminal_draw_emits_balanced_osc_8_and_restores_the_composer_cursor() {
    let mut app = AppState::default();
    add_prompt(&mut app, Message::text("u1", "show link", None));
    add_answer(&mut app, Message::final_text("a1", "[OpenAI](https://openai.com)", None));
    let markdown = MarkdownProjection {
        styled: plain("OpenAI"),
        hyperlinks: vec![HyperlinkRange {
            start_byte: 0,
            end_byte: 6,
            url: "https://openai.com".into(),
        }],
        non_clickable_links: Vec::new(),
    };
    let mut history = HistoryRenderCache::default();
    let screen = render_ordinary(
        &app,
        &draft(""),
        &None,
        0,
        frame(50, 14),
        &mut history,
        &inputs_of(vec![markdown]),
    );

    assert_eq!(screen.hyperlinks.len(), 1);
    assert_eq!(
        hyperlink_symbol(&screen.hyperlinks[0]),
        "\u{1b}]8;;https://openai.com\u{7}OpenAI\u{1b}]8;;\u{7}"
    );
    assert_eq!(screen.cursor, Some((1, 11)));
}

#[test]
fn blocked_view_replaces_history_working_row_and_composer_with_native_surface() {
    let mut app = AppState::default();
    add_prompt(&mut app, Message::text("u1", "history must be hidden", Some(1)));
    app.agent_status = AgentStatus::Blocked;
    app.working_since_ms = Some(0);
    app.blocked_surface = BlockedSurface::Read(plain("Allow command?\n  Yes\n  No"));

    let rendered = render_to_string(&app, &draft("draft"), 80, 16);

    assert!(rendered.contains("INTERACTION REQUIRED"));
    assert!(rendered.contains("Allow command?"));
    assert!(rendered.contains("Native agent interaction · prefix+m to return"));
    assert!(!rendered.contains("history must be hidden"));
    assert!(!rendered.contains("Working ("));
    assert!(!rendered.contains("draft"));
}

#[test]
fn blocked_view_uses_the_same_clear_horizontal_gutters() {
    let app = AppState {
        agent_status: AgentStatus::Blocked,
        blocked_surface: BlockedSurface::Read(plain("Allow command?\n  Yes\n  No")),
        ..AppState::default()
    };

    let screen = render_blocked(&app, frame(32, 8));

    for area in [screen.title_area, screen.body_area, screen.error_area, screen.footer_area] {
        assert_eq!((area.x, area.width), (1, 30));
    }
    assert_eq!((screen.title_area.y, screen.body_area.y, screen.footer_area.y), (0, 1, 7));
    assert!(screen.title.plain_text().starts_with('I'));
    assert!(screen.body[0].plain_text().starts_with('A'));
}

#[test]
fn sub_three_cell_widths_render_without_painting_or_panicking() {
    let mut app = AppState::default();
    add_prompt(&mut app, Message::text("u1", "prompt", None));

    for width in 1..3 {
        let screen = screen(&app, &draft(""), width, 8);
        assert_eq!(screen.history_area.width, 0);
        assert!(screen.edge_fills.is_empty());
        assert!(screen.scrollbar.is_empty());
    }
}

#[test]
fn blocked_snapshot_styles_are_sanitized_and_confined_to_body() {
    let app = AppState {
        agent_status: AgentStatus::Blocked,
        blocked_surface: BlockedSurface::Read(sanitize_ansi(
            "\u{1b}]0;rewrite-title\u{7}\u{1b}[31;44mDANGER\u{1b}[0m",
        )),
        ..AppState::default()
    };

    let screen = render_blocked(&app, frame(72, 8));

    assert!(!shown_question(&screen).contains("rewrite-title"));
    assert_eq!(screen.title.spans[0].style.foreground, Some(AnsiColor::Yellow));
    assert!(screen.title.spans[0].style.modifiers.bold);
    assert_eq!(screen.body[0].spans[0].text, "DANGER");
    assert_eq!(screen.body[0].spans[0].style.foreground, Some(AnsiColor::Red));
    assert_eq!(screen.body[0].spans[0].style.background, Some(AnsiColor::Blue));
}

#[test]
fn blocked_snapshot_failure_shows_owned_fallback_and_return_hint() {
    let app = AppState {
        agent_status: AgentStatus::Blocked,
        blocked_surface: BlockedSurface::Unreadable,
        ..AppState::default()
    };

    let rendered = shown_question(&render_blocked(&app, frame(80, 8)));

    assert!(rendered.contains("Unable to read native interaction"));
    assert!(rendered.contains("prefix+m"));
    assert!(!rendered.contains("socket unavailable"));
}

#[test]
fn leaving_blocked_view_restores_the_exact_ordinary_content() {
    let mut app = AppState::default();
    add_prompt(&mut app, Message::text("u1", "ordinary history", Some(1)));
    let text = draft("unchanged draft");
    let ordinary = render_to_string(&app, &text, 80, 14);

    app.agent_status = AgentStatus::Blocked;
    app.blocked_surface = BlockedSurface::Read(plain("Choose one"));
    let blocked = render_to_string(&app, &text, 80, 14);
    app.update_blocked_surface(AgentStatus::Done, None);
    let restored = render_to_string(&app, &text, 80, 14);

    assert!(blocked.contains("Choose one"));
    assert_eq!(restored, ordinary);
}

#[test]
fn the_image_under_the_cursor_is_drawn_highlighted() {
    let app = AppState {
        draft_attachments: vec![Attachment {
            id: "image-1".into(),
            display: "Image #12".into(),
            native_path: None,
        }],
        native_composer: NativeComposerState::OwnedAttachments(1),
        ..AppState::default()
    };
    let mut text = draft("[Image #12] describe it");
    text.cursor_byte = 0;
    text.cursor_atom = 0;
    text.highlight = Some((0, "[Image #12]".len()));

    let screen = screen(&app, &text, 60, 20);
    let highlighted = screen
        .composer
        .iter()
        .flat_map(|row| &row.spans)
        .filter(|span| span.style.modifiers.reverse)
        .map(|span| span.text.as_str())
        .collect::<String>();

    assert_eq!(highlighted, "[Image #12]");
}

#[test]
fn a_wait_on_the_pane_is_named_and_counted() {
    let app = AppState {
        pending_action: Some(PendingAction { label: "Attaching image".into(), since_ms: 2_000 }),
        ..AppState::default()
    };

    let rendered = shown(&screen(&app, &draft(""), 60, 20));

    assert!(
        rendered.contains("Attaching image (0s)…"),
        "the overlay says what it is waiting for: {rendered}"
    );
}

/// The composer draws, measures and places its cursor from one wrapping.
#[test]
fn the_composer_cursor_follows_the_drawn_wrapping() {
    let app = AppState::default();
    let screen = screen(&app, &draft("aaaa bbbb cccccccccc dddd"), 24, 12);

    let (x, y) = screen.cursor.expect("the composer takes input");
    let row = usize::from(y - screen.composer_area.y - 1 + screen.composer_scroll);
    let drawn = screen.composer[row].plain_text();
    let before_cursor = drawn[..usize::from(x - screen.composer_area.x)].trim_end();
    assert!(
        before_cursor.ends_with("dddd"),
        "the cursor must sit after the last character, row was {drawn:?}"
    );
}

#[test]
fn stale_link_reset_skips_wide_glyph_continuation_cells() {
    let cells = vec![
        DrawnCell { symbol: "界".into(), skip: false },
        DrawnCell { symbol: " ".into(), skip: false },
        DrawnCell { symbol: "X".into(), skip: false },
    ];

    assert_eq!(stale_glyphs(&cells, 0, HyperlinkArea { x: 0, y: 0, width: 2 }), [0]);
    assert!(
        stale_glyphs(&cells, 0, HyperlinkArea { x: 1, y: 0, width: 1 }).is_empty(),
        "a stale area starting inside a wide glyph must not erase it"
    );
}

#[test]
fn hyperlink_patches_allow_only_local_file_urls() {
    let row = |url: &str| VisualRow {
        spans: vec![VisualSpan {
            text: "/Users/example/SKILL.md".into(),
            style: CellStyle::default(),
            hyperlink: Some(url.into()),
        }],
        fill: None,
    };
    let area = frame(80, 1);

    let allowed = hyperlink_patches(&vec![row("file:///Users/example/SKILL.md")], area);
    assert_eq!(allowed.len(), 1);
    assert_eq!(allowed[0].url, "file:///Users/example/SKILL.md");

    for rejected in [
        "file://host/share.md",
        "file:////host/share.md",
        "file:///tmp/unsafe\u{1b}]8;;injected",
    ] {
        assert!(
            hyperlink_patches(&vec![row(rejected)], area).is_empty(),
            "destination must be rejected: {rejected:?}"
        );
    }
}

#[test]
fn the_parts_of_a_screen_are_stacked_without_a_gap() {
    let screen = screen(&AppState::default(), &draft(""), 24, 12);
    let areas = [
        screen.history_area,
        screen.error_area,
        screen.note_area,
        screen.composer_area,
        screen.footer_area,
    ];
    let mut y = 0;
    for area in areas {
        assert_eq!((area.x, area.width, area.y), (1, 22, y));
        y += area.height;
    }
    assert_eq!(y, 12);
    assert_eq!(horizontal_content_area(frame(24, 12)).width, 22);
}

#[test]
fn the_composer_grows_to_two_fifths_of_the_screen() {
    assert_eq!(composer_height(1, 20), 3);
    assert_eq!(composer_height(4, 20), 5);
    assert_eq!(composer_height(100, 20), 8);
    assert_eq!(composer_height(100, 5), 3);
}

#[test]
fn the_footer_names_what_is_known() {
    let status = Some(StatusLine {
        agent: "Codex".into(),
        model: Some("gpt-5.6-sol".into()),
        cwd: "/repo".into(),
        branch: None,
        usage: Some("weekly 75% left".into()),
    });
    let text = footer(&status, 0);
    assert!(text.contains("gpt-5.6-sol"));
    assert!(text.contains("/repo"));
    assert!(text.contains("weekly 75% left"));
    assert!(footer(&status, 7).starts_with("↑ 7"));
}

#[test]
fn pane_escapes_are_dropped_and_styles_are_kept() {
    let styled = sanitize_ansi("a\u{1b}[1;38;5;9mb\u{1b}[0m\tc\r\u{1b}]8;;x\u{7}d");
    assert!(styled.text.starts_with("ab"));
    assert!(!styled.text.contains('\u{1b}'));
    assert_eq!(styled.runs.len(), 1);
    assert_eq!((styled.runs[0].start_byte, styled.runs[0].end_byte), (1, 2));
    assert!(styled.runs[0].modifiers.bold);
    assert_eq!(styled.runs[0].foreground, Some(AnsiColor::Indexed(9)));
    assert_eq!(sanitize_ansi(&styled.text).text, styled.text);
}

#[test]
fn ordinary_view_uses_one_clear_cell_on_both_horizontal_edges() {
    let mut app = AppState::default();
    add_prompt(&mut app, Message::text("u1", "abcdefghijklmnop", None));
    add_answer(&mut app, Message::final_text("a1", "answer", None));
    app.agent_status = AgentStatus::Working;
    app.working_since_ms = Some(2_000);

    let screen = screen(&app, &draft(""), 16, 12);

    let edges: Vec<u16> = screen.edge_fills.iter().map(|edge| edge.y).collect();
    assert_eq!(edges, [0, 1, 2, 3], "the rows 4, 7, 8 and 11 keep their edges clear");
    let band = screen.edge_fills[0].style.background;
    assert!(band.is_some());
    assert!(screen.edge_fills.iter().all(|edge| edge.style.background == band));
    assert!(screen.scrollbar.is_empty());
    for area in [
        screen.history_area,
        screen.error_area,
        screen.note_area,
        screen.composer_area,
        screen.footer_area,
    ] {
        assert_eq!((area.x, area.width), (1, 14));
    }
    let rows = lines(&screen.history);
    assert_eq!(rows[1], "abcdefghijklm ", "the scroll column stays free of prompt text");
    assert!(rows[2].starts_with('n'));
    assert_eq!(screen.cursor.unwrap().0, 1);
}

#[test]
fn answer_timestamp_survives_visible_history_hydration() {
    let mut app = AppState::default();
    add_prompt(&mut app, Message::text("saved-prompt", "hydrated prompt", None));
    add_answer(
        &mut app,
        Message::final_text("saved-answer", "hydrated answer", Some(1_786_638_720_000)),
    );

    let document = document_at_offset(&app, 50);

    assert_eq!(document.rows[3].plain_text(), "  13.08.2026 19:32");
    assert_eq!(document.rows[4].plain_text(), "hydrated answer");
}

#[test]
fn optimistic_and_hydrated_prompts_render_their_owned_timestamps() {
    for (id, text, delivery) in [
        ("local-1", "optimistic prompt", Delivery::Optimistic),
        ("saved-1", "hydrated prompt", Delivery::Native),
    ] {
        let mut app = AppState::default();
        add_prompt(&mut app, Message::text(id, text, Some(1_786_638_720_000)));
        app.turns[0].delivery = delivery;

        let document = document_at_offset(&app, 50);

        assert_eq!(document.rows[0].plain_text(), "  13.08.2026 19:32");
        assert_eq!(document.rows[1].plain_text(), text);
    }
}

#[test]
fn composer_shows_large_paste_marker_instead_of_log_body() {
    let log = "private-log-line\n".repeat(1_000);
    let mut text = draft(&format!(">[Pasted Content {} chars]<", log.len()));
    text.submission_text = format!(">{log}<");

    let rendered = render_to_string(&AppState::default(), &text, 80, 24);

    assert!(rendered.contains("Pasted Content"));
    assert!(rendered.contains("chars"));
    assert!(rendered.contains('>'));
    assert!(rendered.contains('<'));
    assert!(!rendered.contains("private-log-line"));
}

#[test]
fn markdown_fallback_body_styles_flow_into_rendered_visual_rows() {
    let mut app = AppState::default();
    add_prompt(&mut app, Message::text("u1", "show markdown", Some(1)));
    add_answer(
        &mut app,
        Message::final_text(
            "a1",
            "# Heading [docs](https://example.test)\nplain **Ω** and `λ`",
            Some(2),
        ),
    );
    let shown = "Heading docs\nplain Ω and λ";
    let omega_at = shown.find('Ω').unwrap();
    let lambda_at = shown.find('λ').unwrap();
    let mut strong = style_run(omega_at..omega_at + 2, None, None);
    strong.modifiers.bold = true;
    let code =
        style_run(lambda_at..lambda_at + 2, Some(AnsiColor::Rgb(177, 185, 249)), None);
    let markdown = MarkdownProjection {
        styled: StyledText { text: shown.into(), runs: vec![strong, code] },
        hyperlinks: vec![HyperlinkRange {
            start_byte: 8,
            end_byte: 12,
            url: "https://example.test".into(),
        }],
        non_clickable_links: Vec::new(),
    };

    let document = HistoryDocument::from_app(&app, 50, &inputs_of(vec![markdown]));
    let visible = lines(&document.rows).join("\n");
    assert!(visible.contains("Heading docs"));
    assert!(!visible.contains("https://example.test"));
    assert!(!visible.contains("**"));
    assert!(!visible.contains('`'));
    let omega = document
        .rows
        .iter()
        .flat_map(|row| &row.spans)
        .find(|span| span.text.contains('Ω'))
        .expect("strong Markdown contents should reach visual rows");
    assert!(omega.style.modifiers.bold);
    let lambda = document
        .rows
        .iter()
        .flat_map(|row| &row.spans)
        .find(|span| span.text.contains('λ'))
        .expect("inline code Markdown contents should reach visual rows");
    assert_eq!(lambda.style.foreground, Some(AnsiColor::Rgb(177, 185, 249)));
    assert_eq!(lambda.style.background, None);
    assert_eq!(
        app.turns[0].final_answer.as_ref().unwrap().presentation,
        MessagePresentation::MarkdownFallback
    );
}

#[test]
fn unsupported_markdown_schemes_render_as_ordinary_answer_text() {
    let mut app = AppState::default();
    add_prompt(&mut app, Message::text("u1", "show links", None));
    add_answer(&mut app, Message::final_text("a1", "[mail](mailto:user@example.test)", None));
    let markdown = MarkdownProjection {
        styled: plain("mail"),
        hyperlinks: Vec::new(),
        non_clickable_links: vec![NonClickableLinkRange { start_byte: 0, end_byte: 4 }],
    };

    let document = HistoryDocument::from_app(&app, 50, &inputs_of(vec![markdown]));
    let mail = document
        .rows
        .iter()
        .flat_map(|row| &row.spans)
        .find(|span| span.text.contains("mail"))
        .expect("plain Markdown label should reach visual rows");

    assert_eq!(mail.text, "mail");
    assert_eq!(mail.hyperlink, None);
    assert_eq!(mail.style.foreground, Some(AnsiColor::BrightWhite));
    assert!(!mail.style.modifiers.underline);
}

#[test]
fn terminal_draw_emits_balanced_local_file_osc_8() {
    let path = "/Users/example/skills/тест/SKILL.md";
    let mut app = AppState::default();
    add_prompt(&mut app, Message::text("u1", "show link", None));
    add_answer(
        &mut app,
        Message::final_text("a1", "[TDD](/Users/example/skills/тест/SKILL.md)", None),
    );
    let markdown = MarkdownProjection {
        styled: plain(path),
        hyperlinks: vec![HyperlinkRange {
            start_byte: 0,
            end_byte: path.len(),
            url: "file:///Users/example/skills/тест/SKILL.md".into(),
        }],
        non_clickable_links: Vec::new(),
    };
    let screen = render_ordinary(
        &app,
        &draft(""),
        &None,
        0,
        frame(90, 14),
        &mut HistoryRenderCache::default(),
        &inputs_of(vec![markdown]),
    );

    let symbols: Vec<String> = screen.hyperlinks.iter().map(hyperlink_symbol).collect();
    assert_eq!(
        symbols,
        ["\u{1b}]8;;file:///Users/example/skills/тест/SKILL.md\u{7}/Users/example/skills/тест/SKILL.md\u{1b}]8;;\u{7}"]
    );
}

/// The sections of a document follow each other without a gap and leave no row
/// out.
#[test]
fn the_sections_of_a_document_tile_it() {
    assert!(document(&AppState::default(), 30).rows.is_empty());
    let app = twenty_turns();
    let document = document(&app, 30);
    assert_eq!(document.prompts.len(), app.turns.len());
    let mut at = 0;
    for section in &document.prompts {
        assert_eq!(section.start_row, at);
        assert_eq!(section.content_start_row, at + 1);
        at = section.end_row;
    }
    assert_eq!(at, document.rows.len());
}

#[test]
fn the_rows_of_a_turn_are_a_band_an_answer_and_an_empty_row() {
    let mut app = twenty_turns();
    add_prompt(&mut app, Message::text("empty", "", None));
    for width in [1, 12, 60] {
        let document = document(&app, width);
        for section in &document.prompts {
            assert!(section.prompt_rows >= 1);
            let below = section.start_row + section.prompt_rows + 2;
            let band = document.rows[section.start_row].fill;
            assert_eq!(
                band.and_then(|fill| fill.background),
                Some(AnsiColor::Rgb(229, 229, 230))
            );
            assert!(document.rows[section.start_row..below].iter().all(|row| row.fill == band));
            assert!(document.rows[below..section.end_row].iter().all(|row| row.fill.is_none()));
            assert!(document.rows[section.end_row - 1].spans.is_empty());
        }
    }
}

#[test]
fn a_question_leaves_the_place_of_reading_alone() {
    let mut app = twenty_turns();
    let text = draft("unchanged draft");
    let mut history = HistoryRenderCache::default();
    let show = |app: &AppState, history: &mut HistoryRenderCache, now_ms: u64| {
        match render(app, &text, &None, now_ms, frame(60, 20), history, &inputs(app)) {
            Rendered::Ordinary(screen) => shown(&screen),
            Rendered::Blocked(screen) => shown_question(&screen),
        }
    };
    show(&app, &mut history, 0);
    history.scroll_up(9);
    let ordinary = show(&app, &mut history, 1_000);

    app.update_blocked_surface(AgentStatus::Blocked, Some(plain("Choose one")));
    assert!(show(&app, &mut history, 2_000).contains("Choose one"));
    app.update_blocked_surface(AgentStatus::Done, None);

    assert_eq!(show(&app, &mut history, 90_000), ordinary);
    assert_eq!(history.scroll_from_bottom(), 9);
}
