//! How the overlay opens, and what it says when something around it fails.

use crate::agent::AgentStatus;
use crate::app::AppState;
use crate::composer::NativeComposerState;
use crate::model;
use crate::model::Attachment;
use crate::text;
use crate::ui::adopt::AdoptedDraft;
use crate::ui::keys;
use vstd::prelude::*;

verus! {

/// An image of the pane, as the draft holds it.
pub open spec fn native_image(marker: usize) -> model::AttachmentView {
    model::AttachmentView {
        id: "native-image-"@ + text::decimal_text(marker as nat),
        display: "Image #"@ + text::decimal_text(marker as nat),
        native_path: None,
    }
}

/// The images of an adopted draft, in the order of the pane.
pub fn adopted_attachments(markers: &Vec<usize>) -> (r: Vec<Attachment>)
    ensures
        model::attachment_views(r@) == Seq::new(
            markers@.len(),
            |i: int| native_image(markers@[i]),
        ),
{
    let mut r: Vec<Attachment> = Vec::new();
    let mut i: usize = 0;
    while i < markers.len()
        invariant
            i <= markers@.len(),
            r@.len() == i,
            forall|k: int| 0 <= k < i ==> (#[trigger] r@[k])@ == native_image(markers@[k]),
        decreases markers@.len() - i,
    {
        let marker: usize = markers[i];
        r.push(
            Attachment {
                id: text::numbered_text("native-image-", marker as u64),
                display: text::numbered_text("Image #", marker as u64),
                native_path: None,
            },
        );
        i = i + 1;
    }
    assert(model::attachment_views(r@) =~= Seq::new(
        markers@.len(),
        |i: int| native_image(markers@[i]),
    ));
    r
}

/// What is said of a draft that was taken over: nothing, unless the pane would
/// not let go of it.
pub fn adopt_notice(adopted: &AdoptedDraft) -> (r: Option<String>)
    ensures
        adopted.cleared ==> r is None,
        !adopted.cleared ==> keys::says(
            r,
            "native composer still holds a copy of the adopted draft"@,
        ),
{
    if adopted.cleared {
        None
    } else {
        Some("native composer still holds a copy of the adopted draft".to_owned())
    }
}

/// The state that the overlay opens in. Nothing is known of the composer until
/// the pane was looked at, so it takes no input yet.
pub fn opening_state(
    status: AgentStatus,
    draft_attachments: Vec<Attachment>,
    notice: Option<String>,
    now_ms: u64,
) -> (r: AppState)
    ensures
        r.agent_status == status,
        r.native_composer is Unknown,
        !keys::input_allowed(r),
        status.working() ==> r.working_since_ms == Some(now_ms),
        !status.working() ==> r.working_since_ms is None,
        r.draft_attachments == draft_attachments,
        r.background_error == notice,
        r.turns@.len() == 0,
        r.pending_attachments@.len() == 0,
        r.pending_action is None,
        r.clearing_line_to is None,
        r.scroll_from_bottom == 0,
        r.composer_width == 0,
        r.status_line is None,
        r.blocked_surface is Missing,
        r.transcript_error is None,
        r.connection_error is None,
        r.send_error is None,
        r.interaction_error is None,
        !r.source_pane_closed,
        r.input_enabled,
{
    let mut app: AppState = AppState::default();
    app.agent_status = status;
    app.native_composer = NativeComposerState::Unknown;
    app.working_since_ms = if status.is_working() {
        Some(now_ms)
    } else {
        None
    };
    app.draft_attachments = draft_attachments;
    app.background_error = notice;
    app
}

fn prefixed(prefix: &str, message: &str) -> (r: String)
    ensures
        r@ == prefix@ + message@,
{
    let mut r: String = prefix.to_owned();
    r.append(message);
    r
}

/// Takes in that the draft could not be saved.
pub fn draft_not_saved(app: &mut AppState, error: &str)
    ensures
        *final(app) == (AppState { background_error: final(app).background_error, ..*old(app) }),
        keys::says(final(app).background_error, "draft: "@ + error@),
{
    app.background_error = Some(prefixed("draft: ", error));
}

/// Takes in that the history could not be saved.
pub fn history_not_saved(app: &mut AppState, error: &str)
    ensures
        *final(app) == (AppState { background_error: final(app).background_error, ..*old(app) }),
        keys::says(final(app).background_error, "history: "@ + error@),
{
    app.background_error = Some(prefixed("history: ", error));
}

/// Takes in that what was kept of a closed pane could not be removed.
pub fn cleanup_failed(app: &mut AppState, error: &str)
    ensures
        *final(app) == (AppState { transcript_error: final(app).transcript_error, ..*old(app) }),
        keys::says(final(app).transcript_error, "source cleanup: "@ + error@),
{
    app.transcript_error = Some(prefixed("source cleanup: ", error));
}

/// An image of the pane goes by the number that the pane gave it: its label says so, and
/// no two numbers share an id.
pub proof fn lemma_native_images_go_by_their_number(a: usize, b: usize)
    ensures
        keys::label_number(native_image(a).display) == Some(a),
        a != b ==> native_image(a).id != native_image(b).id,
{
    crate::ui::bindings::lemma_label_reads_back(a as nat);
    text::lemma_decimal_text_reads_back(a as nat);
    text::lemma_decimal_text_reads_back(b as nat);
    let p = "native-image-"@;
    let x = text::decimal_text(a as nat);
    let y = text::decimal_text(b as nat);
    if p + x == p + y {
        assert((p + x).skip(p.len() as int) =~= x);
        assert((p + y).skip(p.len() as int) =~= y);
    }
}

}
