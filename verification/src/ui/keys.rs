//! What a key does.
//!
//! A key is decided on here. What has to be asked of the editor or of the pane
//! is handed back as an action, and the answer is taken in by the functions
//! further down.

use crate::agent::AgentStatus;
use crate::app::{AppState, PendingAction};
use crate::composer::ComposerAccess;
use crate::model;
use crate::model::Attachment;
use crate::style;
use crate::text;
use crate::ui::draft::DraftView;
use crate::ui::history;
use crate::ui::history::HistoryRenderCache;
use crate::ui::render::parts;
use crate::ui::visual_rows::document;
use crate::ui::visual_rows::wrap;
use crate::ui::visual_rows::wrap::{wrap_plain, WrappedText};
use vstd::prelude::*;

verus! {

// ---------------------------------------------------------------------------
// Keys
// ---------------------------------------------------------------------------

#[derive(Clone, Copy, Debug, PartialEq, Eq, Structural)]
pub enum KeyCode {
    Backspace,
    Enter,
    Left,
    Right,
    Up,
    Down,
    Home,
    End,
    PageUp,
    PageDown,
    Delete,
    Esc,
    Char(char),
    Other,
}

#[derive(Clone, Copy, Debug, PartialEq, Eq, Structural)]
pub struct KeyModifiers {
    pub shift: bool,
    pub control: bool,
    pub alt: bool,
    pub super_key: bool,
    pub hyper: bool,
    pub meta: bool,
}

impl KeyModifiers {
    /// Whether no modifier but shift is held.
    pub open spec fn at_most_shift(self) -> bool {
        !self.control && !self.alt && !self.super_key && !self.hyper && !self.meta
    }

    /// Whether no modifier is held.
    pub open spec fn none(self) -> bool {
        self.at_most_shift() && !self.shift
    }
}

#[derive(Clone, Copy, Debug, PartialEq, Eq, Structural)]
pub struct KeyPress {
    pub code: KeyCode,
    pub modifiers: KeyModifiers,
}

/// How the history is moved.
#[derive(Clone, Copy, Debug, PartialEq, Eq, Structural)]
pub enum HistoryScroll {
    RowUp,
    RowDown,
    PageUp,
    PageDown,
    Oldest,
    Latest,
}

/// The chords that scroll whatever else is on screen.
pub open spec fn scroll_of(key: KeyPress) -> Option<HistoryScroll> {
    let shift = key.modifiers.shift;
    let alt = key.modifiers.alt;
    match key.code {
        KeyCode::PageUp => Some(HistoryScroll::PageUp),
        KeyCode::PageDown => Some(HistoryScroll::PageDown),
        KeyCode::Up => if shift && alt {
            Some(HistoryScroll::Oldest)
        } else if shift {
            Some(HistoryScroll::RowUp)
        } else {
            None
        },
        KeyCode::Down => if shift && alt {
            Some(HistoryScroll::Latest)
        } else if shift {
            Some(HistoryScroll::RowDown)
        } else {
            None
        },
        KeyCode::Home => if shift {
            Some(HistoryScroll::Oldest)
        } else {
            None
        },
        KeyCode::End => if shift {
            Some(HistoryScroll::Latest)
        } else {
            None
        },
        _ => None,
    }
}

/// The chords that scroll whatever else is on screen.
///
/// The bare arrows belong to the wheel, and a composer with text keeps them for
/// its cursor. A draft must never take reading away, so the same movements
/// answer to shift as well, and the page keys move by the view rather than by a
/// fixed count.
///
/// The ends of the history are spelled twice: with the keys a full keyboard has,
/// and with shift and alt on the arrows for one that has not.
pub fn history_scroll_key(key: KeyPress) -> (r: Option<HistoryScroll>)
    ensures
        r == scroll_of(key),
{
    let shift: bool = key.modifiers.shift;
    let alt: bool = key.modifiers.alt;
    match key.code {
        KeyCode::PageUp => Some(HistoryScroll::PageUp),
        KeyCode::PageDown => Some(HistoryScroll::PageDown),
        KeyCode::Up if shift && alt => Some(HistoryScroll::Oldest),
        KeyCode::Down if shift && alt => Some(HistoryScroll::Latest),
        KeyCode::Up if shift => Some(HistoryScroll::RowUp),
        KeyCode::Down if shift => Some(HistoryScroll::RowDown),
        KeyCode::Home if shift => Some(HistoryScroll::Oldest),
        KeyCode::End if shift => Some(HistoryScroll::Latest),
        _ => None,
    }
}

/// What the editor is asked to do.
#[derive(Clone, Copy, Debug, PartialEq, Eq, Structural)]
pub enum EditorOp {
    Newline,
    Insert(char),
    Backspace,
    Delete,
    DeleteToLineEnd,
    DeleteWordLeft,
    DeleteWordRight,
    MoveLeft,
    MoveRight,
    MoveUp,
    MoveDown,
    MoveWordLeft,
    MoveWordRight,
    MoveHome,
    MoveEnd,
    MoveDocumentStart,
    MoveDocumentEnd,
}

impl EditorOp {
    /// Whether the draft is the same afterwards.
    pub open spec fn only_moves(self) -> bool {
        match self {
            EditorOp::Newline | EditorOp::Insert(_) | EditorOp::Backspace | EditorOp::Delete
            | EditorOp::DeleteToLineEnd | EditorOp::DeleteWordLeft | EditorOp::DeleteWordRight => false,
            _ => true,
        }
    }

    pub open spec fn change_spec(self) -> DraftChange {
        if self.only_moves() {
            DraftChange::Unchanged
        } else {
            DraftChange::Debounced
        }
    }

    /// How soon the draft is saved after the operation.
    pub fn change(self) -> (r: DraftChange)
        ensures
            r == self.change_spec(),
    {
        match self {
            EditorOp::Newline | EditorOp::Insert(_) | EditorOp::Backspace | EditorOp::Delete
            | EditorOp::DeleteToLineEnd | EditorOp::DeleteWordLeft
            | EditorOp::DeleteWordRight => DraftChange::Debounced,
            _ => DraftChange::Unchanged,
        }
    }
}

/// How soon the draft is saved.
#[derive(Clone, Copy, Debug, PartialEq, Eq, Structural)]
pub enum DraftChange {
    Unchanged,
    Debounced,
    Immediate,
}

/// What a key means to a composer that may be written to.
#[derive(Clone, Copy, Debug, PartialEq, Eq, Structural)]
pub enum Intent {
    Nothing,
    Edit(EditorOp),
    /// Remove the image under or behind the cursor, or else one character.
    Backspace,
    /// Clear back to the start of the line.
    ClearLine,
    /// Attach the image on the clipboard.
    Attach,
    Submit,
}

/// What a character with modifiers means. Terminals disagree about what the
/// option key sends, and macOS never delivers the command key, so the readline
/// bindings are accepted next to the modified keys.
pub open spec fn char_intent(c: char, m: KeyModifiers) -> Intent {
    if m.control && c == 'j' {
        Intent::Edit(EditorOp::Newline)
    } else if m.control && c == 'v' {
        Intent::Attach
    } else if m.control && c == 'u' {
        Intent::ClearLine
    } else if m.control && c == 'k' {
        Intent::Edit(EditorOp::DeleteToLineEnd)
    } else if m.control && c == 'w' {
        Intent::Edit(EditorOp::DeleteWordLeft)
    } else if m.control && c == 'a' {
        Intent::Edit(EditorOp::MoveHome)
    } else if m.control && c == 'e' {
        Intent::Edit(EditorOp::MoveEnd)
    } else if m.alt && c == 'd' {
        Intent::Edit(EditorOp::DeleteWordRight)
    } else if m.alt && c == 'b' {
        Intent::Edit(EditorOp::MoveWordLeft)
    } else if m.alt && c == 'f' {
        Intent::Edit(EditorOp::MoveWordRight)
    } else if m.at_most_shift() {
        Intent::Edit(EditorOp::Insert(c))
    } else {
        Intent::Nothing
    }
}

/// What a key with the command modifier, the option modifier or neither means.
pub open spec fn by_modifier(m: KeyModifiers, command: Intent, option: Intent, bare: Intent) -> Intent {
    if m.super_key {
        command
    } else if m.alt {
        option
    } else {
        bare
    }
}

/// What a key means to a composer that may be written to.
pub open spec fn intent_of(key: KeyPress) -> Intent {
    let m = key.modifiers;
    match key.code {
        KeyCode::Enter => if m.shift || m.control {
            Intent::Edit(EditorOp::Newline)
        } else if m.none() {
            Intent::Submit
        } else {
            Intent::Nothing
        },
        KeyCode::Char(c) => char_intent(c, m),
        KeyCode::Left => by_modifier(
            m,
            Intent::Edit(EditorOp::MoveHome),
            Intent::Edit(EditorOp::MoveWordLeft),
            Intent::Edit(EditorOp::MoveLeft),
        ),
        KeyCode::Right => by_modifier(
            m,
            Intent::Edit(EditorOp::MoveEnd),
            Intent::Edit(EditorOp::MoveWordRight),
            Intent::Edit(EditorOp::MoveRight),
        ),
        KeyCode::Up => by_modifier(
            m,
            Intent::Edit(EditorOp::MoveDocumentStart),
            Intent::Edit(EditorOp::MoveUp),
            Intent::Edit(EditorOp::MoveUp),
        ),
        KeyCode::Down => by_modifier(
            m,
            Intent::Edit(EditorOp::MoveDocumentEnd),
            Intent::Edit(EditorOp::MoveDown),
            Intent::Edit(EditorOp::MoveDown),
        ),
        KeyCode::Backspace => by_modifier(
            m,
            Intent::ClearLine,
            Intent::Edit(EditorOp::DeleteWordLeft),
            Intent::Backspace,
        ),
        KeyCode::Delete => by_modifier(
            m,
            Intent::Edit(EditorOp::DeleteToLineEnd),
            Intent::Edit(EditorOp::DeleteWordRight),
            Intent::Edit(EditorOp::Delete),
        ),
        KeyCode::Home => Intent::Edit(EditorOp::MoveHome),
        KeyCode::End => Intent::Edit(EditorOp::MoveEnd),
        _ => Intent::Nothing,
    }
}

/// What a key means to a composer that may be written to.
pub fn key_intent(key: KeyPress) -> (r: Intent)
    ensures
        r == intent_of(key),
{
    let m: KeyModifiers = key.modifiers;
    let at_most_shift: bool = !m.control && !m.alt && !m.super_key && !m.hyper && !m.meta;
    match key.code {
        KeyCode::Enter if m.shift || m.control => Intent::Edit(EditorOp::Newline),
        KeyCode::Char('j') if m.control => Intent::Edit(EditorOp::Newline),
        KeyCode::Enter if at_most_shift && !m.shift => Intent::Submit,
        KeyCode::Char('v') if m.control => Intent::Attach,
        KeyCode::Left if m.super_key => Intent::Edit(EditorOp::MoveHome),
        KeyCode::Right if m.super_key => Intent::Edit(EditorOp::MoveEnd),
        KeyCode::Up if m.super_key => Intent::Edit(EditorOp::MoveDocumentStart),
        KeyCode::Down if m.super_key => Intent::Edit(EditorOp::MoveDocumentEnd),
        KeyCode::Backspace if m.super_key => Intent::ClearLine,
        KeyCode::Char('u') if m.control => Intent::ClearLine,
        KeyCode::Delete if m.super_key => Intent::Edit(EditorOp::DeleteToLineEnd),
        KeyCode::Char('k') if m.control => Intent::Edit(EditorOp::DeleteToLineEnd),
        KeyCode::Backspace if m.alt => Intent::Edit(EditorOp::DeleteWordLeft),
        KeyCode::Char('w') if m.control => Intent::Edit(EditorOp::DeleteWordLeft),
        KeyCode::Delete if m.alt => Intent::Edit(EditorOp::DeleteWordRight),
        KeyCode::Char('d') if m.alt => Intent::Edit(EditorOp::DeleteWordRight),
        KeyCode::Left if m.alt => Intent::Edit(EditorOp::MoveWordLeft),
        KeyCode::Char('b') if m.alt => Intent::Edit(EditorOp::MoveWordLeft),
        KeyCode::Right if m.alt => Intent::Edit(EditorOp::MoveWordRight),
        KeyCode::Char('f') if m.alt => Intent::Edit(EditorOp::MoveWordRight),
        KeyCode::Backspace => Intent::Backspace,
        KeyCode::Delete => Intent::Edit(EditorOp::Delete),
        KeyCode::Left => Intent::Edit(EditorOp::MoveLeft),
        KeyCode::Right => Intent::Edit(EditorOp::MoveRight),
        KeyCode::Up => Intent::Edit(EditorOp::MoveUp),
        KeyCode::Down => Intent::Edit(EditorOp::MoveDown),
        KeyCode::Char('a') if m.control => Intent::Edit(EditorOp::MoveHome),
        KeyCode::Char('e') if m.control => Intent::Edit(EditorOp::MoveEnd),
        KeyCode::Home => Intent::Edit(EditorOp::MoveHome),
        KeyCode::End => Intent::Edit(EditorOp::MoveEnd),
        KeyCode::Char(c) if at_most_shift => Intent::Edit(EditorOp::Insert(c)),
        _ => Intent::Nothing,
    }
}

// ---------------------------------------------------------------------------
// Images in the draft
// ---------------------------------------------------------------------------

/// The number that a text stands for, where a machine word holds it. A plus sign
/// may go before the digits.
pub open spec fn parsed(s: Seq<char>) -> Option<usize> {
    let digits = if s.len() > 1 && s[0] == '+' {
        s.skip(1)
    } else {
        s
    };
    if digits.len() > 0 && text::all_digits(digits) && text::decimal(digits) <= usize::MAX {
        Some(text::decimal(digits) as usize)
    } else {
        None
    }
}

/// The number the pane printed for an image, taken back out of its label.
pub open spec fn label_number(display: Seq<char>) -> Option<usize> {
    if "Image #"@.is_prefix_of(display) {
        parsed(display.skip("Image #"@.len() as int))
    } else {
        None
    }
}

pub fn marker_number(attachment: &Attachment) -> (r: Option<usize>)
    ensures
        r == label_number(attachment.display@),
{
    let chars: Vec<char> = text::chars_of(attachment.display.as_str());
    let prefix: Vec<char> = text::chars_of("Image #");
    let n: usize = chars.len();
    assert(chars@.subrange(0, n as int) =~= chars@);
    if !text::opens_with(&chars, 0, n, &prefix) {
        return None;
    }
    let mut start: usize = prefix.len();
    let ghost rest = chars@.skip(start as int);
    if n - start > 1 && chars[start] == '+' {
        start = start + 1;
    }
    let ghost digits = if rest.len() > 1 && rest[0] == '+' {
        rest.skip(1)
    } else {
        rest
    };
    assert(chars@.subrange(start as int, n as int) =~= digits);
    if start == n || !text::is_all_digits(&chars, start, n) {
        return None;
    }
    text::parse_number(&chars, start, n)
}

/// The image that a backspace removes, with the number the pane calls it by.
pub open spec fn image_to_remove(draft: DraftView) -> Option<(Seq<char>, usize)> {
    let attachment = match draft.attachment_at_cursor {
        Some(attachment) => Some(attachment),
        None => draft.attachment_behind_cursor,
    };
    numbered(attachment)
}

/// An image with the number the pane calls it by, where it has one.
pub open spec fn numbered(attachment: Option<Attachment>) -> Option<(Seq<char>, usize)> {
    match attachment {
        Some(attachment) => match label_number(attachment.display@) {
            Some(number) => Some((attachment.id@, number)),
            None => None,
        },
        None => None,
    }
}

/// What an image request says.
pub open spec fn request_view(r: Option<(String, usize)>) -> Option<(Seq<char>, usize)> {
    match r {
        Some((id, number)) => Some((id@, number)),
        None => None,
    }
}

fn numbered_image(attachment: &Option<Attachment>) -> (r: Option<(String, usize)>)
    ensures
        request_view(r) == numbered(*attachment),
{
    match attachment {
        Some(attachment) => {
            match marker_number(attachment) {
                Some(number) => Some((attachment.id.clone(), number)),
                None => None,
            }
        },
        None => None,
    }
}

fn removable_image(draft: &DraftView) -> (r: Option<(String, usize)>)
    ensures
        request_view(r) == image_to_remove(*draft),
{
    if draft.attachment_at_cursor.is_some() {
        numbered_image(&draft.attachment_at_cursor)
    } else {
        numbered_image(&draft.attachment_behind_cursor)
    }
}

// ---------------------------------------------------------------------------
// Clearing a line
// ---------------------------------------------------------------------------

/// Whether the places of a draft lie in what is shown of it.
pub open spec fn draft_fits(draft: DraftView) -> bool {
    &&& style::on_boundary(draft.display_text@, draft.cursor_byte as int)
    &&& draft.atoms@.len() == text::byte_len(draft.display_text@) + 1
}

/// The width that the draft is wrapped to. Before the first draw there is none,
/// and a line is the whole paragraph.
pub open spec fn wrap_width(app: AppState) -> nat {
    if app.composer_width == 0 {
        usize::MAX as nat
    } else {
        app.composer_width as nat
    }
}

/// Whether the cursor stands right behind a line feed.
pub open spec fn behind_newline(draft: DraftView) -> bool {
    let s = draft.display_text@;
    let k = wrap::chars_before(s, draft.cursor_byte as int, s.len() as int);
    k > 0 && s[k - 1] == '\n'
}

/// Where a clear stops: the start of the line as it is drawn. Standing there
/// already, it takes the line feed before it, or else the row above.
pub open spec fn clear_stop(app: AppState, draft: DraftView) -> int {
    let s = draft.display_text@;
    let starts = wrap::bytes_at(s, wrap::wrapped_starts(s, wrap_width(app)));
    let row = wrap::row_of(starts, draft.cursor_byte as int, starts.len() as int);
    let start = draft.atoms@[wrap::start_of(starts, row)] as int;
    if start < draft.cursor_atom {
        start
    } else if behind_newline(draft) {
        parts::floored(draft.cursor_atom - 1)
    } else if row > 0 {
        draft.atoms@[wrap::start_of(starts, row - 1)] as int
    } else {
        0
    }
}

fn is_behind_newline(draft: &DraftView) -> (r: bool)
    ensures
        r == behind_newline(*draft),
{
    let chars: Vec<char> = text::chars_of(draft.display_text.as_str());
    let offsets: Vec<usize> = text::byte_offsets(draft.display_text.as_str(), &chars);
    let ghost s = draft.display_text@;
    let mut n: usize = chars.len();
    while n > 0 && offsets[n - 1] >= draft.cursor_byte
        invariant
            chars@ == s,
            s == draft.display_text@,
            n <= s.len(),
            offsets@.len() == s.len() + 1,
            forall|i: int| 0 <= i <= s.len() ==> #[trigger] offsets@[i] == text::byte_at(s, i),
            wrap::chars_before(s, draft.cursor_byte as int, n as int) == wrap::chars_before(
                s,
                draft.cursor_byte as int,
                s.len() as int,
            ),
        decreases n,
    {
        n = n - 1;
    }
    n > 0 && chars[n - 1] == '\n'
}

/// Where a clear should stop.
///
/// A paragraph that has wrapped is several lines on the screen, and the one
/// being cleared is the one the cursor is on rather than the whole paragraph
/// above it.
pub fn clear_target(app: &AppState, draft: &DraftView) -> (r: usize)
    requires
        draft_fits(*draft),
    ensures
        r == clear_stop(*app, *draft),
{
    let cursor: usize = draft.cursor_atom;
    let width: usize = if app.composer_width == 0 {
        usize::MAX
    } else {
        app.composer_width
    };
    let wrapped: WrappedText = wrap_plain(draft.display_text.as_str(), width);
    let total: usize = text::byte_count(draft.display_text.as_str());
    let ghost s = draft.display_text@;
    let ghost starts = wrap::bytes_at(s, wrap::wrapped_starts(s, wrap_width(*app)));
    let (row, _) = wrapped.cell_of(draft.cursor_byte);
    proof {
        wrap::lemma_rows_start_inside(s, wrap_width(*app));
        lemma_row_of_bound(starts, draft.cursor_byte as int, starts.len() as int);
        assert(starts[row as int] <= total);
    }
    let start: usize = draft.atoms[wrapped.row_start(row)];
    if start < cursor {
        return start;
    }
    if is_behind_newline(draft) {
        return if cursor == 0 {
            0
        } else {
            cursor - 1
        };
    }
    if row > 0 {
        assert(starts[row - 1] <= total);
        draft.atoms[wrapped.row_start(row - 1)]
    } else {
        0
    }
}

proof fn lemma_row_of_bound(starts: Seq<usize>, byte: int, n: int)
    requires
        0 < n <= starts.len(),
    ensures
        0 <= wrap::row_of(starts, byte, n) < n,
    decreases n,
{
    if n > 1 && starts[n - 1] > byte {
        lemma_row_of_bound(starts, byte, n - 1);
    }
}

/// The image that a clear has run into, if it has run into one and none is
/// waited for.
pub open spec fn image_in_the_way(app: AppState, draft: DraftView, target: int) -> Option<
    (Seq<char>, usize),
> {
    if draft.cursor_atom <= target || app.pending_action is Some {
        None
    } else {
        numbered(draft.attachment_behind_cursor)
    }
}

/// The image that the clear has run into, to be asked of the pane.
pub fn next_image_in_the_way(app: &AppState, draft: &DraftView, target: usize) -> (r: Option<
    (String, usize),
>)
    ensures
        request_view(r) == image_in_the_way(*app, *draft, target as int),
{
    if draft.cursor_atom <= target || app.pending_action.is_some() {
        None
    } else {
        numbered_image(&draft.attachment_behind_cursor)
    }
}

// ---------------------------------------------------------------------------
// Scrolling
// ---------------------------------------------------------------------------

/// Whether a history is the same one, read at another place.
pub open spec fn moved_to(
    before: HistoryRenderCache,
    after: HistoryRenderCache,
    scroll: int,
) -> bool {
    &&& history::same_layout(after, before)
    &&& after.generation == before.generation
    &&& after.maximum == before.maximum
    &&& after.viewport_height == before.viewport_height
    &&& after.viewport_initialized == before.viewport_initialized
    &&& after.scroll == scroll
}

/// The place after a move.
pub open spec fn scrolled_to(history: HistoryRenderCache, scroll: HistoryScroll) -> int {
    let at = history.scroll as int;
    let most = history.maximum as int;
    match scroll {
        HistoryScroll::RowUp => document::smaller(at + 1, most),
        HistoryScroll::RowDown => parts::floored(at - 1),
        HistoryScroll::PageUp => document::smaller(at + history.page(), most),
        HistoryScroll::PageDown => parts::floored(at - history.page()),
        HistoryScroll::Oldest => most,
        HistoryScroll::Latest => 0,
    }
}

pub fn apply_history_scroll(
    scroll: HistoryScroll,
    app: &mut AppState,
    history: &mut HistoryRenderCache,
)
    requires
        old(history).wf(),
    ensures
        final(history).wf(),
        moved_to(*old(history), *final(history), scrolled_to(*old(history), scroll)),
        *final(app) == (AppState { scroll_from_bottom: final(history).scroll, ..*old(app) }),
{
    let page: usize = history.page_rows();
    match scroll {
        HistoryScroll::RowUp => history.scroll_up(1),
        HistoryScroll::RowDown => history.scroll_down(1),
        HistoryScroll::PageUp => history.scroll_up(page),
        HistoryScroll::PageDown => history.scroll_down(page),
        HistoryScroll::Oldest => history.scroll_to_oldest(),
        HistoryScroll::Latest => history.scroll_to_latest(),
    }
    app.scroll_from_bottom = history.scroll_from_bottom();
}

// ---------------------------------------------------------------------------
// Deciding on a key
// ---------------------------------------------------------------------------

/// Whether the composer takes input.
pub open spec fn input_allowed(app: AppState) -> bool {
    app.input_enabled && app.access() is Ready
}

pub fn ordinary_input_allowed(app: &AppState) -> (r: bool)
    ensures
        r == input_allowed(*app),
{
    let ready: bool = match app.composer_access() {
        ComposerAccess::Ready => true,
        _ => false,
    };
    app.input_enabled && ready
}

/// The wheel arrives as arrow keys, so the arrows drive the history whenever
/// the composer has no text for a cursor to move through, and always while the
/// composer is guarded.
pub open spec fn arrows_scroll(app: AppState, draft: DraftView) -> bool {
    !input_allowed(app) || draft.display_text@.len() == 0
}

pub fn scrolls_history(app: &AppState, draft: &DraftView) -> (r: bool)
    ensures
        r == arrows_scroll(*app, *draft),
{
    !ordinary_input_allowed(app) || text::chars_of(draft.display_text.as_str()).len() == 0
}

/// Whose a key is.
pub ghost enum Decision {
    /// It scrolls the history.
    Scroll(HistoryScroll),
    /// It goes to the question of a blocked agent.
    Forward,
    /// It stops the agent.
    Interrupt,
    /// It is dropped: the composer is guarded.
    Ignore,
    /// It goes to the composer.
    Compose(Intent),
}

/// Whose a key is. Reading comes before everything else: whatever the agent is
/// doing, the conversation stays readable.
pub open spec fn decide(key: KeyPress, app: AppState, draft: DraftView) -> Decision {
    match scroll_of(key) {
        Some(scroll) => Decision::Scroll(scroll),
        None => if app.agent_status is Blocked {
            Decision::Forward
        } else if key.code is Up && arrows_scroll(app, draft) {
            Decision::Scroll(HistoryScroll::RowUp)
        } else if key.code is Down && arrows_scroll(app, draft) {
            Decision::Scroll(HistoryScroll::RowDown)
        } else if key.code is Esc && app.agent_status is Working {
            Decision::Interrupt
        } else if !input_allowed(app) {
            Decision::Ignore
        } else {
            Decision::Compose(intent_of(key))
        },
    }
}

/// What has to be done about a key.
#[derive(Clone, Debug, PartialEq, Eq)]
pub enum KeyAction {
    Nothing,
    /// Forward the key to the native question.
    Forward,
    /// Interrupt the agent.
    Interrupt,
    /// Change the draft or move in it.
    Edit(EditorOp),
    /// Take the draft and send it under this id, with these images, which the
    /// composer lets go of.
    Submit { local_id: String, attachments: Vec<Attachment>, expected_attachments: usize },
    /// Ask the pane to attach the image on the clipboard.
    Attach(Attachment),
    /// Ask the pane to remove the image with this number.
    RemoveImage { id: String, marker: usize },
    /// Delete back to this place, then look for an image in the way.
    ClearTo(usize),
}

/// What comes of a key.
#[derive(Clone, Debug, PartialEq, Eq)]
pub struct KeyOutcome {
    pub action: KeyAction,
    pub change: DraftChange,
}

/// Whether an outcome does nothing at all.
pub open spec fn nothing(r: KeyOutcome) -> bool {
    r.action is Nothing && r.change is Unchanged
}

/// Whether an outcome is this edit.
pub open spec fn edits(r: KeyOutcome, op: EditorOp) -> bool {
    r.action == KeyAction::Edit(op) && r.change == op.change_spec()
}

/// Whether there is nothing to send.
pub open spec fn nothing_to_send(app: AppState, draft: DraftView) -> bool {
    text::blank(draft.submission_text@) && app.draft_attachments@.len() == 0
}

/// Whether an optional text is just this one.
pub open spec fn says(s: Option<String>, expected: Seq<char>) -> bool {
    s matches Some(value) && value@ == expected
}

/// Whether a press of the send key came out right.
pub open spec fn submitted(
    before: AppState,
    after: AppState,
    draft: DraftView,
    sequence: u64,
    next: u64,
    old_history: HistoryRenderCache,
    new_history: HistoryRenderCache,
    r: KeyOutcome,
) -> bool {
    if before.pending_attachments@.len() > 0 {
        &&& nothing(r)
        &&& after == AppState { send_error: after.send_error, ..before }
        &&& says(after.send_error, "wait for image attachment verification"@)
        &&& next == sequence
        &&& new_history == old_history
    } else if nothing_to_send(before, draft) {
        &&& nothing(r)
        &&& after == before
        &&& next == sequence
        &&& new_history == old_history
    } else {
        &&& r.action matches KeyAction::Submit { local_id, attachments, expected_attachments }
            && local_id@ == "local-"@ + text::decimal_text(sequence as nat) && attachments
            == before.draft_attachments && expected_attachments == before.draft_attachments@.len()
        &&& r.change is Immediate
        &&& after == AppState {
            send_error: None,
            draft_attachments: after.draft_attachments,
            ..before
        }
        &&& after.draft_attachments@.len() == 0
        &&& next == sequence + 1
        &&& invalidated(old_history, new_history)
    }
}

/// Whether a history is the same one, marked as outdated.
pub open spec fn invalidated(before: HistoryRenderCache, after: HistoryRenderCache) -> bool {
    &&& history::same_layout(after, before)
    &&& history::same_place(after, before)
    &&& after.generation == (before.generation + 1) % 0x1_0000_0000_0000_0000
}

/// Whether a key that goes to the composer came out right.
pub open spec fn composed(
    intent: Intent,
    before: AppState,
    after: AppState,
    draft: DraftView,
    sequence: u64,
    next: u64,
    old_history: HistoryRenderCache,
    new_history: HistoryRenderCache,
    r: KeyOutcome,
) -> bool {
    match intent {
        Intent::Submit => submitted(
            before,
            after,
            draft,
            sequence,
            next,
            old_history,
            new_history,
            r,
        ),
        Intent::Attach => {
            &&& after == before
            &&& next == sequence + 1
            &&& new_history == old_history
            &&& r.change is Unchanged
            &&& r.action matches KeyAction::Attach(attachment) && attachment@
                == (model::AttachmentView {
                id: "local-image-"@ + text::decimal_text(sequence as nat),
                display: "Image #"@ + text::decimal_text(before.draft_attachments@.len() + 1),
                native_path: None,
            })
        },
        Intent::Edit(op) => {
            &&& edits(r, op)
            &&& after == if op is Insert {
                AppState { send_error: None, ..before }
            } else {
                before
            }
            &&& next == sequence
            &&& new_history == old_history
        },
        Intent::Backspace => {
            &&& after == before
            &&& next == sequence
            &&& new_history == old_history
            &&& match image_to_remove(draft) {
                None => edits(r, EditorOp::Backspace),
                Some((image, number)) => if before.pending_action is Some {
                    nothing(r)
                } else {
                    r.change is Unchanged && (r.action matches KeyAction::RemoveImage { id, marker }
                        && id@ == image && marker == number)
                },
            }
        },
        Intent::ClearLine => {
            &&& after == before
            &&& next == sequence
            &&& new_history == old_history
            &&& r.change is Debounced
            &&& r.action matches KeyAction::ClearTo(target) && target == clear_stop(before, draft)
        },
        Intent::Nothing => {
            &&& nothing(r)
            &&& after == before
            &&& next == sequence
            &&& new_history == old_history
        },
    }
}

/// Whether a key came out right.
pub open spec fn handled(
    decision: Decision,
    before: AppState,
    after: AppState,
    draft: DraftView,
    sequence: u64,
    next: u64,
    old_history: HistoryRenderCache,
    new_history: HistoryRenderCache,
    r: KeyOutcome,
) -> bool {
    match decision {
        Decision::Scroll(scroll) => {
            &&& nothing(r)
            &&& moved_to(old_history, new_history, scrolled_to(old_history, scroll))
            &&& after == AppState { scroll_from_bottom: new_history.scroll, ..before }
            &&& next == sequence
        },
        Decision::Forward => {
            &&& r.action is Forward
            &&& r.change is Unchanged
            &&& after == before
            &&& next == sequence
            &&& new_history == old_history
        },
        Decision::Interrupt => {
            &&& r.action is Interrupt
            &&& r.change is Unchanged
            &&& after == before
            &&& next == sequence
            &&& new_history == old_history
        },
        Decision::Ignore => {
            &&& nothing(r)
            &&& after == before
            &&& next == sequence
            &&& new_history == old_history
        },
        Decision::Compose(intent) => composed(
            intent,
            before,
            after,
            draft,
            sequence,
            next,
            old_history,
            new_history,
            r,
        ),
    }
}

/// The id of an image that is attached from here.
pub fn next_image_id(sequence: &mut u64) -> (r: String)
    requires
        *old(sequence) < u64::MAX,
    ensures
        r@ == "local-image-"@ + text::decimal_text(*old(sequence) as nat),
        *final(sequence) == *old(sequence) + 1,
{
    let id: String = text::numbered_text("local-image-", *sequence);
    *sequence = *sequence + 1;
    id
}

fn outcome(action: KeyAction, change: DraftChange) -> (r: KeyOutcome)
    ensures
        r.action == action,
        r.change == change,
{
    KeyOutcome { action, change }
}

/// Takes the draft on its way, where there is something to send.
fn submit(
    app: &mut AppState,
    draft: &DraftView,
    local_sequence: &mut u64,
    history: &mut HistoryRenderCache,
) -> (r: KeyOutcome)
    requires
        old(history).wf(),
        *old(local_sequence) < u64::MAX,
    ensures
        final(history).wf(),
        submitted(
            *old(app),
            *final(app),
            *draft,
            *old(local_sequence),
            *final(local_sequence),
            *old(history),
            *final(history),
            r,
        ),
{
    if app.pending_attachments.len() > 0 {
        app.send_error = Some("wait for image attachment verification".to_owned());
        return outcome(KeyAction::Nothing, DraftChange::Unchanged);
    }
    if text::is_blank(draft.submission_text.as_str()) && app.draft_attachments.len() == 0 {
        return outcome(KeyAction::Nothing, DraftChange::Unchanged);
    }
    app.send_error = None;
    let expected_attachments: usize = app.draft_attachments.len();
    let mut attachments: Vec<Attachment> = Vec::new();
    std::mem::swap(&mut attachments, &mut app.draft_attachments);
    let local_id: String = text::numbered_text("local-", *local_sequence);
    *local_sequence = *local_sequence + 1;
    history.invalidate();
    outcome(
        KeyAction::Submit { local_id, attachments, expected_attachments },
        DraftChange::Immediate,
    )
}

/// Does what a key means to the composer.
fn compose(
    intent: Intent,
    app: &mut AppState,
    draft: &DraftView,
    local_sequence: &mut u64,
    history: &mut HistoryRenderCache,
) -> (r: KeyOutcome)
    requires
        old(history).wf(),
        *old(local_sequence) < u64::MAX,
        draft_fits(*draft),
        parts::countable(*old(app)),
    ensures
        final(history).wf(),
        composed(
            intent,
            *old(app),
            *final(app),
            *draft,
            *old(local_sequence),
            *final(local_sequence),
            *old(history),
            *final(history),
            r,
        ),
{
    match intent {
        Intent::Submit => submit(app, draft, local_sequence, history),
        Intent::Attach => {
            let id: String = next_image_id(local_sequence);
            let number: u64 = (app.draft_attachments.len() + 1) as u64;
            let display: String = text::numbered_text("Image #", number);
            outcome(
                KeyAction::Attach(Attachment { id, display, native_path: None }),
                DraftChange::Unchanged,
            )
        },
        Intent::Edit(op) => {
            match op {
                EditorOp::Insert(_) => {
                    app.send_error = None;
                },
                _ => {},
            }
            outcome(KeyAction::Edit(op), op.change())
        },
        Intent::Backspace => {
            match removable_image(draft) {
                None => outcome(KeyAction::Edit(EditorOp::Backspace), DraftChange::Debounced),
                Some((id, marker)) => {
                    if app.pending_action.is_some() {
                        outcome(KeyAction::Nothing, DraftChange::Unchanged)
                    } else {
                        outcome(KeyAction::RemoveImage { id, marker }, DraftChange::Unchanged)
                    }
                },
            }
        },
        Intent::ClearLine => {
            let target: usize = clear_target(app, draft);
            outcome(KeyAction::ClearTo(target), DraftChange::Debounced)
        },
        Intent::Nothing => outcome(KeyAction::Nothing, DraftChange::Unchanged),
    }
}

/// Decides on a key.
pub fn handle_key(
    key: KeyPress,
    app: &mut AppState,
    draft: &DraftView,
    local_sequence: &mut u64,
    history: &mut HistoryRenderCache,
) -> (r: KeyOutcome)
    requires
        old(history).wf(),
        *old(local_sequence) < u64::MAX,
        draft_fits(*draft),
        parts::countable(*old(app)),
    ensures
        final(history).wf(),
        handled(
            decide(key, *old(app), *draft),
            *old(app),
            *final(app),
            *draft,
            *old(local_sequence),
            *final(local_sequence),
            *old(history),
            *final(history),
            r,
        ),
{
    if let Some(scroll) = history_scroll_key(key) {
        apply_history_scroll(scroll, app, history);
        return outcome(KeyAction::Nothing, DraftChange::Unchanged);
    }
    match app.agent_status {
        AgentStatus::Blocked => {
            return outcome(KeyAction::Forward, DraftChange::Unchanged);
        },
        _ => {},
    }
    match key.code {
        KeyCode::Up if scrolls_history(app, draft) => {
            apply_history_scroll(HistoryScroll::RowUp, app, history);
            return outcome(KeyAction::Nothing, DraftChange::Unchanged);
        },
        KeyCode::Down if scrolls_history(app, draft) => {
            apply_history_scroll(HistoryScroll::RowDown, app, history);
            return outcome(KeyAction::Nothing, DraftChange::Unchanged);
        },
        KeyCode::Esc if app.agent_status.is_working() => {
            return outcome(KeyAction::Interrupt, DraftChange::Unchanged);
        },
        _ => {},
    }
    if !ordinary_input_allowed(app) {
        return outcome(KeyAction::Nothing, DraftChange::Unchanged);
    }
    let intent: Intent = key_intent(key);
    compose(intent, app, draft, local_sequence, history)
}

// ---------------------------------------------------------------------------
// What came of an action
// ---------------------------------------------------------------------------

/// Takes in that a key could not be forwarded.
pub fn forward_refused(app: &mut AppState, reason: String)
    ensures
        *final(app) == (AppState { interaction_error: Some(reason), ..*old(app) }),
{
    app.interaction_error = Some(reason);
}

/// Takes in that the agent could not be interrupted.
pub fn interrupt_refused(app: &mut AppState, reason: String)
    ensures
        *final(app) == (AppState { send_error: Some(reason), ..*old(app) }),
{
    app.send_error = Some(reason);
}

/// Takes in that a prompt could not be sent.
pub fn submission_refused(app: &mut AppState, history: &mut HistoryRenderCache, reason: String)
    requires
        old(history).wf(),
    ensures
        final(history).wf(),
        invalidated(*old(history), *final(history)),
        *final(app) == (AppState { send_error: Some(reason), ..*old(app) }),
{
    history.invalidate();
    app.send_error = Some(reason);
}

/// Whether something is waited for under this label from this moment on.
pub open spec fn waits_for(pending: Option<PendingAction>, label: Seq<char>, now_ms: u64) -> bool {
    pending matches Some(action) && action.label@ == label && action.since_ms == now_ms
}

/// Takes in whether the pane was asked to attach an image, from the clipboard or
/// from a file that was pasted. The image waits to be verified, and the wait is
/// named and counted from here on.
pub fn attach_settled(
    app: &mut AppState,
    attachment: Attachment,
    result: Result<(), String>,
    now_ms: u64,
)
    ensures
        result is Ok ==> {
            &&& *final(app) == (AppState {
                pending_attachments: final(app).pending_attachments,
                pending_action: final(app).pending_action,
                ..*old(app)
            })
            &&& final(app).pending_attachments@ == old(app).pending_attachments@.push(attachment)
            &&& waits_for(final(app).pending_action, "Attaching image"@, now_ms)
        },
        result matches Err(reason) ==> *final(app) == (AppState {
            send_error: Some(reason),
            ..*old(app)
        }),
{
    match result {
        Ok(()) => {
            app.pending_action = Some(
                PendingAction { label: "Attaching image".to_owned(), since_ms: now_ms },
            );
            app.pending_attachments.push(attachment);
        },
        Err(reason) => {
            app.send_error = Some(reason);
        },
    }
}

/// Takes in whether the pane was asked to remove an image.
pub fn removal_settled(app: &mut AppState, result: Result<(), String>, now_ms: u64)
    ensures
        result is Ok ==> *final(app) == (AppState {
            pending_action: final(app).pending_action,
            ..*old(app)
        }) && waits_for(final(app).pending_action, "Removing image"@, now_ms),
        result matches Err(reason) ==> *final(app) == (AppState {
            background_error: Some(reason),
            ..*old(app)
        }),
{
    match result {
        Ok(()) => {
            app.pending_action = Some(
                PendingAction { label: "Removing image".to_owned(), since_ms: now_ms },
            );
        },
        Err(reason) => {
            app.background_error = Some(reason);
        },
    }
}

/// Takes in how a clear went on: whether an image was in the way, and whether
/// the pane was asked for it. The clear is still going only where it was.
pub fn clear_settled(
    app: &mut AppState,
    target: usize,
    asked: Option<Result<(), String>>,
    now_ms: u64,
)
    ensures
        asked is None ==> *final(app) == (AppState { clearing_line_to: None, ..*old(app) }),
        asked matches Some(Ok(_)) ==> *final(app) == (AppState {
            clearing_line_to: Some(target),
            pending_action: final(app).pending_action,
            ..*old(app)
        }) && waits_for(final(app).pending_action, "Removing image"@, now_ms),
        asked matches Some(Err(reason)) ==> *final(app) == (AppState {
            clearing_line_to: None,
            background_error: Some(reason),
            ..*old(app)
        }),
{
    match asked {
        None => {
            app.clearing_line_to = None;
        },
        Some(result) => {
            app.clearing_line_to = match &result {
                Ok(()) => Some(target),
                Err(_) => None,
            };
            removal_settled(app, result, now_ms);
        },
    }
}

// ---------------------------------------------------------------------------
// Pasting
// ---------------------------------------------------------------------------

/// Whether a paste goes to the question of a blocked agent.
pub fn blocked_paste(app: &AppState) -> (r: bool)
    ensures
        r == (app.agent_status is Blocked),
{
    match app.agent_status {
        AgentStatus::Blocked => true,
        _ => false,
    }
}

/// An image file that a paste names.
#[derive(Clone, Debug, PartialEq, Eq)]
pub struct StagedImage {
    pub path: String,
    pub file_name: String,
}

/// What has to be done about a paste.
#[derive(Clone, Debug, PartialEq, Eq)]
pub enum PasteAction {
    Nothing,
    /// Insert what was pasted into the draft.
    Insert,
    /// Ask the pane to attach the file.
    Attach(Attachment),
}

/// Decides on a paste. A guarded composer takes none; the path of an image is
/// attached, and anything else is text.
pub fn handle_ordinary_paste(
    staged: Option<StagedImage>,
    app: &AppState,
    local_sequence: &mut u64,
) -> (r: (PasteAction, DraftChange))
    requires
        *old(local_sequence) < u64::MAX,
    ensures
        !input_allowed(*app) ==> r.0 is Nothing && r.1 is Unchanged && *final(local_sequence) == *old(local_sequence),
        input_allowed(*app) && staged is None ==> r.0 is Insert && r.1 is Debounced && *final(local_sequence) == *old(local_sequence),
        input_allowed(*app) && staged is Some ==> {
            &&& r.1 is Unchanged
            &&& *final(local_sequence) == *old(local_sequence) + 1
            &&& r.0 matches PasteAction::Attach(attachment) && attachment@ == (
            model::AttachmentView {
                id: "local-image-"@ + text::decimal_text(*old(local_sequence) as nat),
                display: staged.unwrap().file_name@,
                native_path: Some(staged.unwrap().path@),
            })
        },
{
    if !ordinary_input_allowed(app) {
        return (PasteAction::Nothing, DraftChange::Unchanged);
    }
    match staged {
        None => (PasteAction::Insert, DraftChange::Debounced),
        Some(image) => {
            let id: String = next_image_id(local_sequence);
            (
                PasteAction::Attach(
                    Attachment { id, display: image.file_name, native_path: Some(image.path) },
                ),
                DraftChange::Unchanged,
            )
        },
    }
}

// ---------------------------------------------------------------------------
// What holds of every key
// ---------------------------------------------------------------------------

/// A chord that scrolls is answered here and never forwarded, whatever the agent
/// is doing and whatever the draft holds.
pub proof fn lemma_reading_is_always_possible(key: KeyPress, app: AppState, draft: DraftView)
    requires
        scroll_of(key) is Some,
    ensures
        decide(key, app, draft) == Decision::Scroll(scroll_of(key).unwrap()),
{
}

/// While the agent asks something, every key that does not scroll goes to the
/// question and none to the draft.
pub proof fn lemma_blocked_agent_gets_the_keys(key: KeyPress, app: AppState, draft: DraftView)
    requires
        app.agent_status is Blocked,
        scroll_of(key) is None,
    ensures
        decide(key, app, draft) is Forward,
{
}

/// While the composer is guarded no key reaches the draft, sends anything or
/// attaches anything. The arrows still scroll.
pub proof fn lemma_guarded_composer_takes_no_input(key: KeyPress, app: AppState, draft: DraftView)
    requires
        !input_allowed(app),
    ensures
        !(decide(key, app, draft) is Compose),
        key.code is Up && !(app.agent_status is Blocked) ==> decide(key, app, draft) is Scroll,
        key.code is Down && !(app.agent_status is Blocked) ==> decide(key, app, draft) is Scroll,
{
}

/// No image is asked to be removed while something else is waited for.
pub proof fn lemma_one_image_at_a_time(
    key: KeyPress,
    before: AppState,
    after: AppState,
    draft: DraftView,
    sequence: u64,
    next: u64,
    old_history: HistoryRenderCache,
    new_history: HistoryRenderCache,
    r: KeyOutcome,
    target: int,
)
    requires
        handled(
            decide(key, before, draft),
            before,
            after,
            draft,
            sequence,
            next,
            old_history,
            new_history,
            r,
        ),
        before.pending_action is Some,
    ensures
        !(r.action is RemoveImage),
        image_in_the_way(before, draft, target) is None,
{
}

/// No key lets a pane take input again, nor closes one.
pub proof fn lemma_keys_leave_the_pane_as_it_is(
    key: KeyPress,
    before: AppState,
    after: AppState,
    draft: DraftView,
    sequence: u64,
    next: u64,
    old_history: HistoryRenderCache,
    new_history: HistoryRenderCache,
    r: KeyOutcome,
)
    requires
        handled(
            decide(key, before, draft),
            before,
            after,
            draft,
            sequence,
            next,
            old_history,
            new_history,
            r,
        ),
    ensures
        after.source_pane_closed == before.source_pane_closed,
        after.input_enabled == before.input_enabled,
        after.agent_status == before.agent_status,
        after.blocked_surface == before.blocked_surface,
{
}

/// The images of a draft that is sent leave the composer with it, all of them
/// and in their order, and are counted as the pane has them.
pub proof fn lemma_submission_takes_the_images_along(
    key: KeyPress,
    before: AppState,
    after: AppState,
    draft: DraftView,
    sequence: u64,
    next: u64,
    old_history: HistoryRenderCache,
    new_history: HistoryRenderCache,
    r: KeyOutcome,
)
    requires
        handled(
            decide(key, before, draft),
            before,
            after,
            draft,
            sequence,
            next,
            old_history,
            new_history,
            r,
        ),
    ensures
        r.action matches KeyAction::Submit { attachments, expected_attachments, .. } ==> {
            &&& attachments == before.draft_attachments
            &&& expected_attachments == before.draft_attachments@.len()
            &&& after.draft_attachments@.len() == 0
        },
        !(r.action is Submit) ==> after.draft_attachments == before.draft_attachments,
{
}

}
