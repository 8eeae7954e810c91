//! Which keys do what.

use crate::app::AppState;
use crate::text;
use crate::ui::draft::DraftView;
use crate::ui::history::HistoryRenderCache;
use crate::ui::keys;
use crate::ui::keys::{
    DraftChange, EditorOp, HistoryScroll, Intent, KeyAction, KeyCode, KeyModifiers, KeyOutcome,
    KeyPress,
};
use crate::ui::visual_rows::wrap;
use vstd::prelude::*;

verus! {

// ---------------------------------------------------------------------------
// Scrolling
// ---------------------------------------------------------------------------

/// Whether a key is this character with control held.
pub open spec fn with_control(key: KeyPress, c: char) -> bool {
    key.code == KeyCode::Char(c) && key.modifiers.control
}

/// Whether a key is this character with option held, and control not.
pub open spec fn with_option(key: KeyPress, c: char) -> bool {
    key.code == KeyCode::Char(c) && key.modifiers.alt
}

/// Each way to scroll has its keys, and no other key scrolls whatever is shown: the page
/// keys by a page; an arrow with shift by a row; an arrow with shift and option, or the
/// keys for the ends with shift, to an end.
pub proof fn lemma_keys_that_scroll(key: KeyPress)
    ensures
        ({
            let shift = key.modifiers.shift;
            let far = key.modifiers.shift && key.modifiers.alt;
            let scroll = keys::scroll_of(key);
            &&& scroll == Some(HistoryScroll::PageUp) <==> key.code is PageUp
            &&& scroll == Some(HistoryScroll::PageDown) <==> key.code is PageDown
            &&& scroll == Some(HistoryScroll::RowUp) <==> key.code is Up && shift && !far
            &&& scroll == Some(HistoryScroll::RowDown) <==> key.code is Down && shift && !far
            &&& scroll == Some(HistoryScroll::Oldest) <==> (key.code is Up && far) || (
            key.code is Home && shift)
            &&& scroll == Some(HistoryScroll::Latest) <==> (key.code is Down && far) || (
            key.code is End && shift)
        }),
{
}

/// Scrolling moves by one row or by one page, as far as the history reaches, and to either
/// end; a move down undoes a move up that was not cut short.
pub proof fn lemma_scrolling_there_and_back(
    before: HistoryRenderCache,
    after: HistoryRenderCache,
)
    requires
        before.scroll <= before.maximum,
        after.maximum == before.maximum,
        after.viewport_height == before.viewport_height,
    ensures
        ({
            let at = before.scroll as int;
            let most = before.maximum as int;
            let page = before.page();
            &&& keys::scrolled_to(before, HistoryScroll::RowUp) == (if at < most {
                at + 1
            } else {
                most
            })
            &&& keys::scrolled_to(before, HistoryScroll::RowDown) == (if at > 0 {
                at - 1
            } else {
                0
            })
            &&& keys::scrolled_to(before, HistoryScroll::Oldest) == most
            &&& keys::scrolled_to(before, HistoryScroll::Latest) == 0
            &&& at + page <= most ==> keys::scrolled_to(before, HistoryScroll::PageUp) == at + page
            &&& at + page > most ==> keys::scrolled_to(before, HistoryScroll::PageUp) == most
            &&& at >= page ==> keys::scrolled_to(before, HistoryScroll::PageDown) == at - page
            &&& at < page ==> keys::scrolled_to(before, HistoryScroll::PageDown) == 0
            &&& at + page <= most && after.scroll == keys::scrolled_to(
                before,
                HistoryScroll::PageUp,
            ) ==> keys::scrolled_to(after, HistoryScroll::PageDown) == at
            &&& at < most && after.scroll == keys::scrolled_to(before, HistoryScroll::RowUp)
                ==> keys::scrolled_to(after, HistoryScroll::RowDown) == at
        }),
{
}

// ---------------------------------------------------------------------------
// Writing
// ---------------------------------------------------------------------------

/// What is sent, attached, cleared and typed has its own keys. Only a bare return sends;
/// only a character with no modifier but shift is typed, and as it is.
pub proof fn lemma_keys_that_write(key: KeyPress, c: char)
    ensures
        ({
            let m = key.modifiers;
            let intent = keys::intent_of(key);
            let bare = !m.control && !m.alt && !m.super_key && !m.hyper && !m.meta;
            &&& intent == Intent::Submit <==> key.code is Enter && bare && !m.shift
            &&& intent == Intent::Attach <==> with_control(key, 'v')
            &&& intent == Intent::ClearLine <==> with_control(key, 'u') || (key.code is Backspace
                && m.super_key)
            &&& intent == Intent::Backspace <==> key.code is Backspace && !m.super_key && !m.alt
            &&& intent == Intent::Edit(EditorOp::Insert(c)) <==> key.code == KeyCode::Char(c) && bare
            &&& intent == Intent::Edit(EditorOp::Newline) <==> with_control(key, 'j') || (
            key.code is Enter && (m.shift || m.control))
        }),
{
}

/// The keys that delete.
pub proof fn lemma_keys_that_delete(key: KeyPress)
    ensures
        ({
            let m = key.modifiers;
            let intent = keys::intent_of(key);
            &&& intent == Intent::Edit(EditorOp::DeleteToLineEnd) <==> with_control(key, 'k') || (
            key.code is Delete && m.super_key)
            &&& intent == Intent::Edit(EditorOp::DeleteWordLeft) <==> with_control(key, 'w') || (
            key.code is Backspace && m.alt && !m.super_key)
            &&& intent == Intent::Edit(EditorOp::DeleteWordRight) <==> with_option(key, 'd') || (
            key.code is Delete && m.alt && !m.super_key)
            &&& intent == Intent::Edit(EditorOp::Delete) <==> key.code is Delete && !m.alt
                && !m.super_key
            &&& intent != Intent::Edit(EditorOp::Backspace)
        }),
{
}

/// The keys that move in the draft.
pub proof fn lemma_keys_that_move(key: KeyPress)
    ensures
        ({
            let m = key.modifiers;
            let intent = keys::intent_of(key);
            &&& intent == Intent::Edit(EditorOp::MoveHome) <==> with_control(key, 'a')
                || key.code is Home || (key.code is Left && m.super_key)
            &&& intent == Intent::Edit(EditorOp::MoveEnd) <==> with_control(key, 'e')
                || key.code is End || (key.code is Right && m.super_key)
            &&& intent == Intent::Edit(EditorOp::MoveDocumentStart) <==> key.code is Up
                && m.super_key
            &&& intent == Intent::Edit(EditorOp::MoveDocumentEnd) <==> key.code is Down
                && m.super_key
            &&& intent == Intent::Edit(EditorOp::MoveWordLeft) <==> with_option(key, 'b') || (
            key.code is Left && m.alt && !m.super_key)
            &&& intent == Intent::Edit(EditorOp::MoveWordRight) <==> with_option(key, 'f') || (
            key.code is Right && m.alt && !m.super_key)
            &&& intent == Intent::Edit(EditorOp::MoveLeft) <==> key.code is Left && !m.alt
                && !m.super_key
            &&& intent == Intent::Edit(EditorOp::MoveRight) <==> key.code is Right && !m.alt
                && !m.super_key
            &&& intent == Intent::Edit(EditorOp::MoveUp) <==> key.code is Up && !m.super_key
            &&& intent == Intent::Edit(EditorOp::MoveDown) <==> key.code is Down && !m.super_key
        }),
{
}

/// The draft is saved after what changes it, and only after that.
pub proof fn lemma_changes_are_saved(op: EditorOp)
    ensures
        op.change_spec() is Debounced <==> op is Newline || op is Insert || op is Backspace
            || op is Delete || op is DeleteToLineEnd || op is DeleteWordLeft || op
            is DeleteWordRight,
        !(op.change_spec() is Debounced) ==> op.change_spec() is Unchanged,
{
}

// ---------------------------------------------------------------------------
// Whose a key is
// ---------------------------------------------------------------------------

/// An agent at work is interrupted by escape, and by nothing else; no other agent is.
/// The bare arrows scroll where the composer has nothing for them to move in. Whatever
/// is left goes to a composer that may be written to, as what it means there.
pub proof fn lemma_whose_a_key_is(key: KeyPress, app: AppState, draft: DraftView)
    requires
        keys::scroll_of(key) is None,
        !(app.agent_status is Blocked),
    ensures
        ({
            let open = app.input_enabled && app.access() is Ready;
            let free = !open || draft.display_text@.len() == 0;
            let decision = keys::decide(key, app, draft);
            &&& decision is Interrupt <==> key.code is Esc && app.agent_status is Working
            &&& decision == keys::Decision::Scroll(HistoryScroll::RowUp) <==> key.code is Up && free
            &&& decision == keys::Decision::Scroll(HistoryScroll::RowDown) <==> key.code is Down
                && free
            &&& decision is Ignore <==> !open && !(key.code is Up) && !(key.code is Down)
                && !(decision is Interrupt)
            &&& decision is Compose ==> open && decision == keys::Decision::Compose(
                keys::intent_of(key),
            )
            &&& !(decision is Forward)
        }),
{
}

/// A bare return sends a draft that holds something, with its images and under an id of
/// its own. It sends nothing while an image is still being verified, and says so; and
/// nothing where there is nothing to send.
pub proof fn lemma_return_sends_the_draft(
    key: KeyPress,
    before: AppState,
    after: AppState,
    draft: DraftView,
    sequence: u64,
    next: u64,
    old_history: HistoryRenderCache,
    new_history: HistoryRenderCache,
    r: KeyOutcome,
)
    requires
        key.code is Enter,
        key.modifiers == (KeyModifiers {
            shift: false,
            control: false,
            alt: false,
            super_key: false,
            hyper: false,
            meta: false,
        }),
        !(before.agent_status is Blocked),
        before.input_enabled,
        before.access() is Ready,
        keys::handled(
            keys::decide(key, before, draft),
            before,
            after,
            draft,
            sequence,
            next,
            old_history,
            new_history,
            r,
        ),
    ensures
        r.action is Submit <==> before.pending_attachments@.len() == 0 && !(text::blank(
            draft.submission_text@,
        ) && before.draft_attachments@.len() == 0),
        r.action matches KeyAction::Submit { local_id, .. } ==> local_id@ == "local-"@
            + text::decimal_text(sequence as nat) && next == sequence + 1 && r.change
            == DraftChange::Immediate,
        !(r.action is Submit) ==> r.action is Nothing && r.change is Unchanged && next == sequence,
        before.pending_attachments@.len() > 0 ==> (after.send_error matches Some(said) && said@
            == "wait for image attachment verification"@),
        after.turns == before.turns,
        after.pending_attachments == before.pending_attachments,
{
}

/// Two drafts never go under one id.
pub proof fn lemma_ids_differ(a: nat, b: nat)
    requires
        a != b,
    ensures
        "local-"@ + text::decimal_text(a) != "local-"@ + text::decimal_text(b),
        "local-image-"@ + text::decimal_text(a) != "local-image-"@ + text::decimal_text(b),
{
    text::lemma_decimal_text_reads_back(a);
    text::lemma_decimal_text_reads_back(b);
    let x = text::decimal_text(a);
    let y = text::decimal_text(b);
    let p = "local-"@;
    let q = "local-image-"@;
    if p + x == p + y {
        assert((p + x).skip(p.len() as int) =~= x);
        assert((p + y).skip(p.len() as int) =~= y);
    }
    if q + x == q + y {
        assert((q + x).skip(q.len() as int) =~= x);
        assert((q + y).skip(q.len() as int) =~= y);
    }
}

// ---------------------------------------------------------------------------
// Images
// ---------------------------------------------------------------------------

/// The number of an image is read back from the label that it is given.
pub proof fn lemma_label_reads_back(n: nat)
    requires
        n <= usize::MAX,
    ensures
        keys::label_number("Image #"@ + text::decimal_text(n)) == Some(n as usize),
{
    reveal_strlit("Image #");
    let digits = text::decimal_text(n);
    let label = "Image #"@ + digits;
    text::lemma_decimal_text_reads_back(n);
    assert("Image #"@.is_prefix_of(label));
    assert(label.skip("Image #"@.len() as int) =~= digits);
    if digits.len() > 1 {
        assert(text::ascii_digit(digits[0]));
    }
}

/// A backspace removes the image that the cursor stands on, and else the one behind it;
/// by the number that its label says.
pub proof fn lemma_backspace_takes_the_nearest_image(draft: DraftView, n: nat)
    requires
        n <= usize::MAX,
    ensures
        draft.attachment_at_cursor matches Some(image) ==> (image.display@ == "Image #"@
            + text::decimal_text(n) ==> keys::image_to_remove(draft) == Some(
            (image.id@, n as usize),
        )),
        draft.attachment_at_cursor is None ==> (draft.attachment_behind_cursor matches Some(image)
            ==> (image.display@ == "Image #"@ + text::decimal_text(n) ==> keys::image_to_remove(
            draft,
        ) == Some((image.id@, n as usize)))),
        draft.attachment_at_cursor is None && draft.attachment_behind_cursor is None
            ==> keys::image_to_remove(draft) is None,
{
    lemma_label_reads_back(n);
}

// ---------------------------------------------------------------------------
// Clearing a line
// ---------------------------------------------------------------------------

proof fn lemma_row_of_is(starts: Seq<usize>, byte: int, row: int, n: int)
    requires
        0 <= row < n <= starts.len(),
        starts[row] <= byte,
        forall|k: int| row < k < n ==> #[trigger] starts[k] > byte,
    ensures
        wrap::row_of(starts, byte, n) == row,
    decreases n,
{
    if n - 1 > row {
        assert(starts[n - 1] > byte);
        lemma_row_of_is(starts, byte, row, n - 1);
    }
}

/// A clear goes back to the start of the row as it is drawn. Where the cursor stands there
/// already, it takes the line feed before it, or the row above where the line was broken;
/// at the very start there is nothing to clear.
pub proof fn lemma_clear_stops_at_the_row(
    app: AppState,
    draft: DraftView,
    starts: Seq<usize>,
    row: int,
)
    requires
        app.composer_width == 0 ==> starts == wrap::bytes_at(
            draft.display_text@,
            wrap::wrapped_starts(draft.display_text@, usize::MAX as nat),
        ),
        app.composer_width > 0 ==> starts == wrap::bytes_at(
            draft.display_text@,
            wrap::wrapped_starts(draft.display_text@, app.composer_width as nat),
        ),
        0 <= row < starts.len(),
        starts[row] <= draft.cursor_byte,
        forall|k: int| row < k < starts.len() ==> #[trigger] starts[k] > draft.cursor_byte,
    ensures
        ({
            let start = draft.atoms@[starts[row] as int];
            let stop = keys::clear_stop(app, draft);
            &&& start < draft.cursor_atom ==> stop == start
            &&& start >= draft.cursor_atom && keys::behind_newline(draft) && draft.cursor_atom > 0
                ==> stop == draft.cursor_atom - 1
            &&& start >= draft.cursor_atom && !keys::behind_newline(draft) && row > 0 ==> stop
                == draft.atoms@[starts[row - 1] as int]
            &&& start >= draft.cursor_atom && !keys::behind_newline(draft) && row == 0 ==> stop == 0
        }),
{
    lemma_row_of_is(starts, draft.cursor_byte as int, row, starts.len() as int);
}

/// Whether the cursor stands behind a line feed is told by the character right before it.
pub proof fn lemma_feed_before_the_cursor(draft: DraftView, i: int)
    requires
        0 <= i <= draft.display_text@.len(),
        text::byte_at(draft.display_text@, i) == draft.cursor_byte,
    ensures
        keys::behind_newline(draft) <==> i > 0 && draft.display_text@[i - 1] == '\n',
{
    let s = draft.display_text@;
    lemma_characters_before(s, draft.cursor_byte as int, i, s.len() as int);
}

proof fn lemma_characters_before(s: Seq<char>, byte: int, i: int, n: int)
    requires
        0 <= i <= n <= s.len(),
        text::byte_at(s, i) == byte,
    ensures
        wrap::chars_before(s, byte, n) == i,
    decreases n,
{
    if n > i {
        text::lemma_byte_at_monotone(s, i, n - 1);
        lemma_characters_before(s, byte, i, n - 1);
    } else if n > 0 {
        text::lemma_byte_at_monotone(s, n - 1, n);
    }
}

/// Control and `v` asks for the image on the clipboard. It gets an id of its own, and a
/// label that counts it behind the images of the draft.
pub proof fn lemma_image_is_asked_for(
    key: KeyPress,
    before: AppState,
    after: AppState,
    draft: DraftView,
    sequence: u64,
    next: u64,
    old_history: HistoryRenderCache,
    new_history: HistoryRenderCache,
    r: KeyOutcome,
)
    requires
        with_control(key, 'v'),
        !(before.agent_status is Blocked),
        before.input_enabled,
        before.access() is Ready,
        before.draft_attachments@.len() < usize::MAX,
        keys::handled(
            keys::decide(key, before, draft),
            before,
            after,
            draft,
            sequence,
            next,
            old_history,
            new_history,
            r,
        ),
    ensures
        r.action matches KeyAction::Attach(image) && image@.id == "local-image-"@
            + text::decimal_text(sequence as nat) && keys::label_number(image@.display) == Some(
            (before.draft_attachments@.len() + 1) as usize,
        ) && image@.native_path is None,
        next == sequence + 1,
        after == before,
{
    lemma_label_reads_back(before.draft_attachments@.len() + 1);
}


/// A clear takes the image right behind the cursor, by the number that its label says;
/// none at or before the place where it stops, and none while another is waited for.
pub proof fn lemma_clear_takes_the_images_in_its_way(
    app: AppState,
    draft: DraftView,
    target: int,
    n: nat,
)
    requires
        n <= usize::MAX,
    ensures
        draft.cursor_atom <= target ==> keys::image_in_the_way(app, draft, target) is None,
        app.pending_action is Some ==> keys::image_in_the_way(app, draft, target) is None,
        draft.attachment_behind_cursor is None ==> keys::image_in_the_way(
            app,
            draft,
            target,
        ) is None,
        draft.attachment_behind_cursor matches Some(image) ==> (draft.cursor_atom > target
            && app.pending_action is None && image.display@ == "Image #"@ + text::decimal_text(n)
            ==> keys::image_in_the_way(app, draft, target) == Some((image.id@, n as usize))),
{
    lemma_label_reads_back(n);
}

}
