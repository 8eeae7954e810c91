use herdr_simple_prompts::app::AppState;
use herdr_simple_prompts::markdown::MarkdownProjection;
use herdr_simple_prompts::model::{Delivery, Message, Turn};
use herdr_simple_prompts::style::{AnsiColor, StyleModifiers, StyleRun, StyledText};
use herdr_simple_prompts::ui::visual_rows::rows::columns_of;
use herdr_simple_prompts::ui::visual_rows::{
    sticky_overlay, wrap_plain, wrap_styled, HistoryDocument, PromptSection, TurnInput,
    TurnRenderCache, VisualRow,
};

fn add_prompt(app: &mut AppState, message: Message) {
    app.turns.push(Turn {
        prompt: message,
        delivery: Delivery::Native,
        final_answer: None,
    });
}

fn add_answer(app: &mut AppState, message: Message) {
    app.turns.last_mut().unwrap().final_answer = Some(message);
}

fn conversation(turns: u64) -> AppState {
    let mut app = AppState::default();
    for index in 0..turns {
        add_prompt(
            &mut app,
            Message::text(
                &format!("u{index}"),
                &format!("prompt {index} with a_snake_case_identifier"),
                Some(index),
            ),
        );
        add_answer(
            &mut app,
            Message::final_text(
                &format!("a{index}"),
                &format!("answer {index} with **bold** text"),
                Some(index),
            ),
        );
    }
    app
}

/// What is drawn besides the turns: no times, and each answer in its own words.
fn inputs(app: &AppState) -> Vec<TurnInput> {
    app.turns
        .iter()
        .map(|turn| TurnInput {
            prompt_time: None,
            answer_time: None,
            answer_markdown: MarkdownProjection {
                styled: plain(turn.final_answer.as_ref().map_or("", |answer| &answer.text)),
                hyperlinks: Vec::new(),
                non_clickable_links: Vec::new(),
            },
        })
        .collect()
}

fn plain(text: &str) -> StyledText {
    StyledText {
        text: text.to_owned(),
        runs: Vec::new(),
    }
}

/// Wrapping may relocate characters but must never invent or lose them, and
/// no row may overflow the viewport it was wrapped for.
#[test]
fn wrapping_preserves_every_character_and_never_overflows() {
    let corpus = [
        "short",
        "a much longer line that will certainly need wrapping at small widths",
        "line one\nline two\n\nline four",
        "supercalifragilisticexpialidocious_and_then_some_more_characters",
        "界面 with 宽 glyphs mixed into ascii text",
        "trailing spaces   \n   leading spaces",
        "",
    ];

    for text in corpus {
        let source = plain(text);
        for width in 2..=40_usize {
            let rows = wrap_styled(&source, width);

            let joined = rows
                .iter()
                .map(VisualRow::plain_text)
                .collect::<Vec<_>>()
                .join("");
            assert_eq!(
                joined,
                text.replace('\n', ""),
                "characters changed at width {width} for {text:?}",
            );
            for row in &rows {
                assert!(
                    row.cell_width() <= width,
                    "row {:?} overflows width {width}",
                    row.plain_text(),
                );
            }
        }
    }
}

const WRAP_CORPUS: [&str; 7] = [
    "short",
    "aaaa bbbb cccccccccc dddd",
    "line one\nline two\n\nline four",
    "supercalifragilisticexpialidocious_and_then_some_more",
    "界面 with 宽 glyphs mixed into ascii",
    "trailing spaces   \n   leading spaces",
    "",
];

/// The composer wrapping and the history wrapping have to agree, or the
/// cursor starts drifting again somewhere no test is watching.
#[test]
fn plain_wrapping_agrees_with_styled_wrapping() {
    for text in WRAP_CORPUS {
        for width in 2..=40_usize {
            let wrapped = wrap_plain(text, width);
            let styled = wrap_styled(&plain(text), width);
            assert_eq!(
                wrapped.rows,
                styled.iter().map(VisualRow::plain_text).collect::<Vec<_>>(),
                "width {width} for {text:?}",
            );
        }
    }
}

#[test]
fn every_cursor_position_lands_inside_the_wrapped_rows() {
    for text in WRAP_CORPUS {
        for width in 2..=40_usize {
            let wrapped = wrap_plain(text, width);
            for (byte, _) in text
                .char_indices()
                .chain(std::iter::once((text.len(), ' ')))
            {
                let (row, column) = wrapped.cell_of(byte);
                assert!(row < wrapped.rows.len(), "row {row} escapes {text:?}");
                assert!(
                    column <= columns_of(&wrapped.rows[row]),
                    "column {column} escapes row {:?}",
                    wrapped.rows[row],
                );
            }
            let (row, column) = wrapped.cell_of(text.len());
            assert_eq!(row, wrapped.rows.len() - 1);
            assert_eq!(column, columns_of(wrapped.rows.last().unwrap()));
        }
    }
}

#[test]
fn cached_rendering_matches_the_uncached_document() {
    let app = conversation(5);
    let drawn = inputs(&app);
    let mut cache = TurnRenderCache::default();

    for width in [20, 40, 80] {
        assert_eq!(
            HistoryDocument::from_app_cached(&app, width, &mut cache, &drawn),
            HistoryDocument::from_app(&app, width, &drawn),
            "width {width}",
        );
    }
}

#[test]
fn appending_a_turn_only_renders_that_turn() {
    let mut app = conversation(5);
    let mut cache = TurnRenderCache::default();

    HistoryDocument::from_app_cached(&app, 40, &mut cache, &inputs(&app));
    assert_eq!(cache.rendered_turns(), 5);

    HistoryDocument::from_app_cached(&app, 40, &mut cache, &inputs(&app));
    assert_eq!(cache.rendered_turns(), 5, "unchanged turns must be reused");

    add_prompt(&mut app, Message::text("u5", "prompt 5", Some(5)));
    add_answer(&mut app, Message::final_text("a5", "answer 5", Some(5)));
    let drawn = inputs(&app);
    let grown = HistoryDocument::from_app_cached(&app, 40, &mut cache, &drawn);

    assert_eq!(cache.rendered_turns(), 6, "only the new turn is rendered");
    assert_eq!(grown, HistoryDocument::from_app(&app, 40, &drawn));
}

#[test]
fn an_answer_arriving_re_renders_only_its_own_turn() {
    let mut app = conversation(4);
    let mut cache = TurnRenderCache::default();
    HistoryDocument::from_app_cached(&app, 40, &mut cache, &inputs(&app));
    assert_eq!(cache.rendered_turns(), 4);

    app.turns[1].final_answer = Some(Message::final_text("a1", "revised answer", Some(9)));
    let drawn = inputs(&app);
    let updated = HistoryDocument::from_app_cached(&app, 40, &mut cache, &drawn);

    assert_eq!(cache.rendered_turns(), 5);
    assert_eq!(updated, HistoryDocument::from_app(&app, 40, &drawn));
}

#[test]
fn dropped_turns_do_not_accumulate_in_the_cache() {
    let mut app = conversation(6);
    let mut cache = TurnRenderCache::default();
    HistoryDocument::from_app_cached(&app, 40, &mut cache, &inputs(&app));

    app.turns.truncate(2);
    HistoryDocument::from_app_cached(&app, 40, &mut cache, &inputs(&app));

    assert_eq!(cache.entries.len(), 2);
}

#[test]
fn another_width_lays_everything_out_again() {
    let app = conversation(2);
    let mut cache = TurnRenderCache::default();
    HistoryDocument::from_app_cached(&app, 40, &mut cache, &inputs(&app));
    HistoryDocument::from_app_cached(&app, 41, &mut cache, &inputs(&app));
    assert_eq!(cache.rendered_turns(), 4);
}

#[test]
fn a_wrapped_row_knows_where_it_starts() {
    let wrapped = wrap_plain("界界x", 2);
    assert_eq!(wrapped.rows, ["界", "界", "x"]);
    assert_eq!(wrapped.height(), 3);
    assert_eq!(
        (0..3).map(|row| wrapped.row_start(row)).collect::<Vec<_>>(),
        [0, 3, 6]
    );
    assert_eq!(wrapped.cell_of(3), (1, 0));
}

#[test]
fn a_style_follows_its_bytes_across_the_rows() {
    let run = StyleRun {
        start_byte: 2,
        end_byte: 4,
        foreground: Some(AnsiColor::Red),
        background: None,
        modifiers: StyleModifiers::default(),
    };
    let rows = wrap_styled(
        &StyledText {
            text: "abcdef".into(),
            runs: vec![run],
        },
        3,
    );
    let drawn: Vec<Vec<(&str, Option<AnsiColor>)>> = rows
        .iter()
        .map(|row| {
            row.spans
                .iter()
                .map(|span| (span.text.as_str(), span.style.foreground))
                .collect()
        })
        .collect();
    assert_eq!(
        drawn,
        [
            vec![("ab", None), ("c", Some(AnsiColor::Red))],
            vec![("d", Some(AnsiColor::Red)), ("ef", None)],
        ]
    );
}

#[test]
fn no_prompt_above_the_view_leaves_nothing_sticky() {
    let sections: [PromptSection; 0] = [];
    assert!(sticky_overlay(&sections, 3, 10).is_none());
}

#[test]
fn the_rows_of_a_text_are_consecutive_parts_of_it() {
    let text = "one two\n\nтри четыре 表示 five\nend\n";
    for width in [1, 4, 9, 40] {
        let wrapped = wrap_plain(text, width);
        assert_eq!(wrapped.row_starts.len(), wrapped.rows.len());
        assert_eq!(wrapped.row_start(0), 0);
        for (row, shown) in wrapped.rows.iter().enumerate() {
            let end = if row + 1 < wrapped.rows.len() {
                wrapped.row_start(row + 1)
            } else {
                text.len()
            };
            let part = &text[wrapped.row_start(row)..end];
            assert_eq!(shown, part.strip_suffix('\n').unwrap_or(part));
        }
    }
}
