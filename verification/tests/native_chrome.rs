use herdr_simple_prompts::native_chrome::{
    composer_content_start, footer_model, is_codex_queue_footer, is_known_footer,
    is_known_footer_continuation, is_pure_separator, valid_elapsed_label, valid_model_label,
};

#[test]
fn footers_are_recognised_for_any_model_chip() {
    for (line, model) in [
        ("Sonnet 4.5 · /repo", "Sonnet 4.5"),
        ("Haiku 4.5 · ~/projects/demo", "Haiku 4.5"),
        (
            "  gpt-5.6-sol xhigh · ~/projects/own_projects/coachtm · weekly 10% left",
            "gpt-5.6-sol xhigh",
        ),
        ("GPT-5.3-Codex-Spark · /repo", "GPT-5.3-Codex-Spark"),
        ("o4-mini · /repo · 12% left", "o4-mini"),
    ] {
        assert_eq!(footer_model(line).as_deref(), Some(model), "footer: {line:?}");
    }
}

#[test]
fn ordinary_output_lines_are_not_footers() {
    for line in [
        "",
        "just prose",
        "prose · more prose",
        "· /repo",
        "⚠ Heads up, you have less than 10% of your weekly limit left.",
        "emoji 🚀 model · /repo",
    ] {
        assert!(!is_known_footer(line), "must not be a footer: {line:?}");
    }
}

#[test]
fn model_labels_reject_decorated_text() {
    assert!(valid_model_label("Sonnet 4.5"));
    assert!(!valid_model_label(""));
    assert!(!valid_model_label("❯ prompt"));
}

#[test]
fn composer_markers_accept_any_whitespace_separator() {
    assert_eq!(
        composer_content_start("❯\u{a0}", '❯'),
        Some("❯\u{a0}".len())
    );
    assert_eq!(composer_content_start("❯ text", '❯'), Some("❯ ".len()));
    assert_eq!(composer_content_start("❯", '❯'), Some("❯".len()));
    assert_eq!(composer_content_start("❯text", '❯'), None);
    assert_eq!(composer_content_start("› run", '›'), Some("› ".len()));
    assert_eq!(composer_content_start("plain", '›'), None);
}

#[test]
fn a_footer_needs_more_than_a_model() {
    assert!(!is_known_footer("Grand Opus"));
    assert!(is_known_footer("Grand Opus · /repo"));
    assert!(is_known_footer("gpt-5.6-sol high · agent-dashboard · Context 21% used · weekly 62%"));
}

#[test]
fn a_wrapped_footer_goes_on_in_the_row_below() {
    assert!(is_known_footer_continuation("  left · …"));
    assert!(!is_known_footer_continuation("half written prompt"));
}

#[test]
fn the_queue_hint_stands_for_a_footer() {
    assert!(is_codex_queue_footer("tab to queue message                  55% context left"));
    assert!(!is_codex_queue_footer("tab to queue"));
}

#[test]
fn a_separator_is_made_of_rules_alone() {
    assert!(is_pure_separator("────────", 8));
    assert!(!is_pure_separator("───────", 8));
    assert!(!is_pure_separator("───── ──", 8));
}

#[test]
fn elapsed_labels_are_numbers_with_units() {
    assert!(valid_elapsed_label("2m 3s"));
    assert!(!valid_elapsed_label("eventually"));
    assert!(!valid_elapsed_label(""));
}
