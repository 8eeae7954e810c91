use herdr_simple_prompts::agent::AgentKind;
use herdr_simple_prompts::ansi::extract_native_final;
use herdr_simple_prompts::style::{valid_styled_text, AnsiColor};

#[test]
fn an_answer_line_for_line_keeps_its_styles() {
    let pane = "────────\n• one \u{1b}[31mтри\u{1b}[0m\n  \u{1b}[32mtwo\u{1b}[0m\n────────\n› Write a prompt";
    let found = extract_native_final(pane, "one три\ntwo", AgentKind::Codex).unwrap();
    assert_eq!(found.text, "one три\ntwo");
    assert!(valid_styled_text(&found));
    let drawn: Vec<(&str, Option<AnsiColor>)> = found
        .runs
        .iter()
        .map(|run| (&found.text[run.start_byte..run.end_byte], run.foreground))
        .collect();
    assert_eq!(
        drawn,
        [("три", Some(AnsiColor::Red)), ("two", Some(AnsiColor::Green))]
    );
}

#[test]
fn an_answer_with_other_line_breaks_keeps_its_styles() {
    let pane = "────────\n• one \u{1b}[31mtwo\n  three\u{1b}[0m four\n────────\n› Write a prompt";
    let found = extract_native_final(pane, "one two three four", AgentKind::Codex).unwrap();
    assert_eq!(found.text, "one two three four");
    assert!(valid_styled_text(&found));
    let red: String = found
        .runs
        .iter()
        .filter(|run| run.foreground == Some(AnsiColor::Red))
        .map(|run| &found.text[run.start_byte..run.end_byte])
        .collect();
    assert_eq!(red, "twothree");
}

#[test]
fn what_is_not_the_answer_is_not_taken_for_it() {
    let pane = "────────\n• answer\n────────\n› Write a prompt";
    assert!(extract_native_final(pane, "answer", AgentKind::Codex).is_some());
    assert!(extract_native_final(pane, "answers", AgentKind::Codex).is_none());
    assert!(extract_native_final(pane, "", AgentKind::Codex).is_none());
    assert!(extract_native_final(pane, "answer\r", AgentKind::Codex).is_none());
    assert!(extract_native_final("", "answer", AgentKind::Codex).is_none());
}

#[test]
fn a_block_whose_white_space_differs_is_not_the_answer() {
    let rule = "────────";
    let shown = |line: &str| format!("{rule}\n• {line}\n{rule}\n› ");
    assert!(extract_native_final(&shown("answer"), "answer", AgentKind::Codex).is_some());
    assert!(extract_native_final(&shown("an swer"), "answer", AgentKind::Codex).is_none());
    assert!(extract_native_final(&shown("an answer"), "ananswer", AgentKind::Codex).is_none());
    assert!(extract_native_final(&shown("an  answer"), "an answer", AgentKind::Codex).is_none());
    assert!(extract_native_final(&shown("an\n  swer"), "answer", AgentKind::Codex).is_none());
    assert!(extract_native_final(&shown("an answer"), "an\nanswer", AgentKind::Codex).is_none());
    assert!(extract_native_final(&shown("an\n\n  answer"), "an answer", AgentKind::Codex).is_none());
    assert!(extract_native_final(&shown("an\n  answer\n"), "an answer", AgentKind::Codex).is_some());
}
