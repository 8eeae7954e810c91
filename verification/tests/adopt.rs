use herdr_simple_prompts::agent::AgentKind;
use herdr_simple_prompts::ui::adopt::{
    inspect_native_composer, removal_batches, removal_keys, removal_prefix, AdoptedDraft, LiftStep,
    NativeComposerView, Takeover,
};

/// Looks at a pane and takes its draft over, as the overlay does when it opens.
fn inspect(
    kind: AgentKind,
    may_adopt: bool,
    mut read: impl FnMut() -> Result<String, String>,
    mut press: impl FnMut(&[&str]) -> Result<(), String>,
    attempts: usize,
) -> Result<NativeComposerView, String> {
    let (attachments, takeover) = inspect_native_composer(kind, may_adopt, &read()?, attempts);
    let adopted = match takeover {
        Takeover::Leave => None,
        Takeover::Adopt(adopted) => Some(adopted),
        Takeover::Remove(first) => {
            let mut lift = first;
            loop {
                for batch in lift.presses() {
                    press(&batch)?;
                }
                match lift.read(&read()?) {
                    LiftStep::Again(next) => lift = next,
                    LiftStep::Done(adopted) => break Some(adopted),
                }
            }
        }
    };
    Ok(NativeComposerView { attachments, adopted })
}

fn adopt_native_draft(
    kind: AgentKind,
    read: impl FnMut() -> Result<String, String>,
    press: impl FnMut(&[&str]) -> Result<(), String>,
    attempts: usize,
) -> Result<Option<AdoptedDraft>, String> {
    inspect(kind, true, read, press, attempts).map(|view| view.adopted)
}

const OCCUPIED_CODEX: &str = "• answer\n────────\n› half written prompt\ngpt-5.6-sol xhigh · /repo · weekly 75% left";
const EMPTY_CODEX: &str = "• answer\n────────\n› \ngpt-5.6-sol xhigh · /repo · weekly 75% left";
const QUEUED_CODEX: &str = "• Working (2s • esc to interrupt)\n› half written steer\ntab to queue message                  55% context left";

/// Opening the overlay over a half-written prompt should not mean switching
/// back to finish it.
#[test]
fn adopting_a_native_draft_moves_the_text_and_clears_the_source() {
    let cleared = std::cell::Cell::new(0);
    let adopted = adopt_native_draft(
        AgentKind::Codex,
        || {
            Ok(if cleared.get() == 0 {
                OCCUPIED_CODEX.to_owned()
            } else {
                EMPTY_CODEX.to_owned()
            })
        },
        |_| {
            cleared.set(cleared.get() + 1);
            Ok(())
        },
        8,
    )
    .unwrap()
    .expect("an occupied composer must be adopted");

    assert_eq!(adopted.text, "half written prompt");
    assert!(adopted.markers.is_empty());
    assert!(adopted.cleared);
    assert!(cleared.get() > 0, "the composer must have been cleared");
}

#[test]
fn adopting_an_active_turn_draft_moves_it_into_the_overlay() {
    let cleared = std::cell::Cell::new(0);
    let adopted = adopt_native_draft(
        AgentKind::Codex,
        || {
            Ok(if cleared.get() == 0 {
                QUEUED_CODEX.to_owned()
            } else {
                EMPTY_CODEX.to_owned()
            })
        },
        |_| {
            cleared.set(cleared.get() + 1);
            Ok(())
        },
        8,
    )
    .unwrap()
    .expect("a queued steer must be adopted");

    assert_eq!(adopted.text, "half written steer");
    assert!(adopted.markers.is_empty());
    assert!(adopted.cleared);
    assert!(cleared.get() > 0, "the native copy must be cleared");
}

#[test]
fn an_empty_native_composer_is_left_alone() {
    let cleared = std::cell::Cell::new(0);
    let adopted = adopt_native_draft(
        AgentKind::Codex,
        || Ok(EMPTY_CODEX.to_owned()),
        |_| {
            cleared.set(cleared.get() + 1);
            Ok(())
        },
        8,
    )
    .unwrap();

    assert_eq!(adopted, None);
    assert_eq!(cleared.get(), 0, "nothing may be sent to an empty composer");
}

/// A draft is never lost to a half-finished takeover: the text comes back
/// even when the source could not be cleared, and the caller says so.
#[test]
fn a_draft_that_cannot_be_cleared_is_still_adopted() {
    let adopted = adopt_native_draft(
        AgentKind::Codex,
        || Ok(OCCUPIED_CODEX.to_owned()),
        |_| Ok(()),
        3,
    )
    .unwrap()
    .expect("the text must survive a failed takeover");

    assert_eq!(adopted.text, "half written prompt");
    assert!(!adopted.cleared);
}

const IMAGE_AND_TEXT: &str = "• answer\n────────\n› [Image #1] describe it\ngpt-5.6-sol xhigh · /repo · weekly 75% left";
const IMAGE_ONLY: &str = "• answer\n────────\n› [Image #1]\ngpt-5.6-sol xhigh · /repo · weekly 75% left";

/// An image cannot be carried, but the text beside it can: the marker stays
/// where it is and only the characters of the prompt are removed, one at a
/// time, so an overshoot can never eat the marker.
#[test]
fn text_beside_an_image_is_adopted_without_disturbing_the_image() {
    let keys: std::cell::RefCell<Vec<String>> = std::cell::RefCell::new(Vec::new());
    let adopted = adopt_native_draft(
        AgentKind::Codex,
        || {
            Ok(if keys.borrow().is_empty() {
                IMAGE_AND_TEXT.to_owned()
            } else {
                IMAGE_ONLY.to_owned()
            })
        },
        |pressed| {
            keys.borrow_mut()
                .extend(pressed.iter().map(|key| (*key).to_owned()));
            Ok(())
        },
        8,
    )
    .unwrap()
    .expect("text beside an image must be adopted");

    assert_eq!(adopted.text, "describe it");
    assert_eq!(adopted.markers, [1]);
    assert!(adopted.cleared);
    let pressed = keys.borrow();
    assert_eq!(pressed[0], "ctrl+e");
    assert!(
        !pressed.iter().any(|key| key == "ctrl+u"),
        "a line kill would take the image marker with it"
    );
    assert_eq!(
        pressed.iter().filter(|key| *key == "backspace").count(),
        "describe it".chars().count(),
        "exactly the characters of the text, never one more"
    );
}

/// A pane may still show the text when the removal is looked at. The keys are
/// not pressed again for that, or the next ones would reach the image.
#[test]
fn a_pane_that_redraws_late_is_not_pressed_again_beside_an_image() {
    for late in [1_usize, 3, 20] {
        let keys: std::cell::RefCell<Vec<String>> = std::cell::RefCell::new(Vec::new());
        let reads = std::cell::Cell::new(0_usize);
        let adopted = adopt_native_draft(
            AgentKind::Codex,
            || {
                reads.set(reads.get() + 1);
                Ok(if reads.get() <= late + 1 { IMAGE_AND_TEXT } else { IMAGE_ONLY }.to_owned())
            },
            |pressed| {
                keys.borrow_mut().extend(pressed.iter().map(|key| (*key).to_owned()));
                Ok(())
            },
            8,
        )
        .unwrap()
        .expect("text beside an image must be adopted");

        assert_eq!(adopted.text, "describe it");
        assert_eq!(adopted.markers, [1]);
        assert_eq!(adopted.cleared, late < 8);
        let pressed = keys.borrow();
        assert!(!pressed.iter().any(|key| key == "ctrl+u"));
        assert_eq!(pressed.iter().filter(|key| *key == "backspace").count(), 11);
    }
}

/// With no image to keep, a line that is not clear yet is killed again.
#[test]
fn a_pane_that_redraws_late_is_pressed_again_where_no_image_is() {
    let kills = std::cell::Cell::new(0_usize);
    let adopted = adopt_native_draft(
        AgentKind::Codex,
        || Ok(if kills.get() < 3 { OCCUPIED_CODEX } else { EMPTY_CODEX }.to_owned()),
        |pressed| {
            kills.set(kills.get() + pressed.iter().filter(|key| **key == "ctrl+u").count());
            Ok(())
        },
        8,
    )
    .unwrap()
    .expect("an occupied composer must be adopted");
    assert!(adopted.cleared);
    assert_eq!(kills.get(), 3);
}

/// A bare image is adopted without touching the composer: there is nothing
/// to lift out, and the overlay only has to learn the image is there.
#[test]
fn a_bare_image_is_adopted_without_pressing_anything() {
    let adopted = adopt_native_draft(
        AgentKind::Codex,
        || Ok(IMAGE_ONLY.to_owned()),
        |_| panic!("a composer with nothing to lift must not be touched"),
        8,
    )
    .unwrap()
    .expect("a bare image must be adopted");

    assert_eq!(adopted.text, "");
    assert_eq!(adopted.markers, [1]);
    assert!(adopted.cleared);
}

/// The count and the adoption have to come from the same reading: a redraw
/// between two of them can retire the marker just adopted, and the overlay
/// answers a count it disagrees with by guarding its own input.
#[test]
fn the_count_and_the_adoption_come_from_one_reading() {
    let reads = std::cell::Cell::new(0);
    let view = inspect(
        AgentKind::Codex,
        true,
        || {
            reads.set(reads.get() + 1);
            Ok(IMAGE_ONLY.to_owned())
        },
        |_| Ok(()),
        8,
    )
    .unwrap();

    assert_eq!(view.attachments.as_deref(), Some([1].as_slice()));
    assert_eq!(view.adopted.expect("a bare image is adopted").markers, [1]);
    assert_eq!(reads.get(), 1);
}

/// A draft of its own is measured against the pane but never overwritten by
/// it, or a saved marker would be counted twice.
#[test]
fn a_draft_of_its_own_is_measured_but_not_adopted() {
    let view = inspect(
        AgentKind::Codex,
        false,
        || Ok(IMAGE_ONLY.to_owned()),
        |_| panic!("a draft of its own must not be lifted from the pane"),
        8,
    )
    .unwrap();

    assert_eq!(view.attachments.as_deref(), Some([1].as_slice()));
    assert!(view.adopted.is_none());
}

/// A wrapped draft carries newlines the buffer does not have, so counting
/// deletions from it would overshoot into the marker.
#[test]
fn a_wrapped_draft_beside_an_image_is_left_alone() {
    let wrapped = "• answer\n────────\n› [Image #1] describe it\n  and then some more\ngpt-5.6-sol xhigh · /repo · weekly 75% left";

    let adopted = adopt_native_draft(
        AgentKind::Codex,
        || Ok(wrapped.to_owned()),
        |_| panic!("a draft that cannot be measured must not be touched"),
        8,
    )
    .unwrap();

    assert_eq!(adopted, None);
}

/// A removal goes out in batches, and never holds more backspaces than the text
/// has characters.
#[test]
fn a_long_removal_is_split_and_never_overshoots() {
    let text = "x".repeat(70);
    let batches = removal_batches(1, &text);
    assert_eq!(batches[0], ["ctrl+e"]);
    assert_eq!(batches[1..].iter().map(|batch| batch.len()).collect::<Vec<_>>(), [32, 32, 6]);
    assert!(batches[1..].iter().flatten().all(|key| *key == "backspace"));
    assert_eq!(removal_keys("").len(), 0);
    assert_eq!(removal_prefix(0), ["ctrl+e", "ctrl+u"]);
}

/// Without a single attempt the text is still adopted.
#[test]
fn no_attempt_at_all_still_adopts_the_text() {
    let adopted = adopt_native_draft(
        AgentKind::Codex,
        || Ok(OCCUPIED_CODEX.to_owned()),
        |_| panic!("nothing may be pressed without an attempt"),
        0,
    )
    .unwrap()
    .expect("the text is adopted");
    assert_eq!(adopted.text, "half written prompt");
    assert!(!adopted.cleared);
}
