//! Taking over what the native composer is holding.
//!
//! Opening the overlay over a half-written prompt moves the text here and
//! clears it there, since a copy left behind would be spliced onto the next
//! prompt. The text is kept even where clearing fails, so a draft is never lost
//! to a half-finished takeover.

use crate::agent::AgentKind;
use crate::ansi;
use crate::ansi::sanitize_ansi;
use crate::composer;
use crate::composer::{
    classify_native_composer, native_attachment_markers, native_composer_parts, ComposerAccess,
    ComposerParts,
};
use crate::native_chrome;
use crate::style;
use crate::style::StyledText;
use crate::text;
use vstd::prelude::*;

verus! {

/// How many keys are pressed at once.
pub const ADOPT_KEY_BATCH: usize = 32;

/// A draft that was taken over.
#[derive(Clone, Debug, PartialEq, Eq)]
pub struct AdoptedDraft {
    pub text: String,
    pub markers: Vec<usize>,
    pub cleared: bool,
}

pub ghost struct AdoptedView {
    pub text: Seq<char>,
    pub markers: Seq<usize>,
    pub cleared: bool,
}

impl View for AdoptedDraft {
    type V = AdoptedView;

    open spec fn view(&self) -> AdoptedView {
        AdoptedView { text: self.text@, markers: self.markers@, cleared: self.cleared }
    }
}

/// What the pane is holding, read once.
///
/// The count and the adoption come from the same reading. Taken from two, a
/// redraw between them could retire the very marker just adopted.
#[derive(Clone, Debug, PartialEq, Eq)]
pub struct NativeComposerView {
    pub attachments: Option<Vec<usize>>,
    pub adopted: Option<AdoptedDraft>,
}

// ---------------------------------------------------------------------------
// Keys
// ---------------------------------------------------------------------------

/// The keys that go before the removal: to the end of the line, and where no
/// image has to be kept also a kill of the whole line.
pub open spec fn prefix_keys(attachments: nat) -> Seq<Seq<char>> {
    if attachments == 0 {
        seq!["ctrl+e"@, "ctrl+u"@]
    } else {
        seq!["ctrl+e"@]
    }
}

/// Beside an image the text is removed character by character, so the markers
/// that stay are never touched. With nothing to preserve, one kill is enough.
pub fn removal_prefix(attachments: usize) -> (r: Vec<&'static str>)
    ensures
        native_chrome::literals(r@) == prefix_keys(attachments as nat),
{
    let mut r: Vec<&'static str> = Vec::new();
    r.push("ctrl+e");
    if attachments == 0 {
        r.push("ctrl+u");
    }
    assert(native_chrome::literals(r@) =~= prefix_keys(attachments as nat));
    r
}

/// A number of backspaces.
pub open spec fn backspaces(n: nat) -> Seq<Seq<char>> {
    Seq::new(n, |i: int| "backspace"@)
}

/// One backspace for each character.
pub fn removal_keys(s: &str) -> (r: Vec<&'static str>)
    ensures
        native_chrome::literals(r@) == backspaces(s@.len()),
{
    let count: usize = text::chars_of(s).len();
    repeated_backspace(count)
}

fn repeated_backspace(count: usize) -> (r: Vec<&'static str>)
    ensures
        native_chrome::literals(r@) == backspaces(count as nat),
        r@.len() == count,
{
    let mut r: Vec<&'static str> = Vec::new();
    let mut i: usize = 0;
    while i < count
        invariant
            i <= count,
            r@.len() == i,
            forall|k: int| 0 <= k < i ==> (#[trigger] r@[k])@ == "backspace"@,
        decreases count - i,
    {
        r.push("backspace");
        i = i + 1;
    }
    assert(native_chrome::literals(r@) =~= backspaces(count as nat));
    r
}

/// The backspaces in batches, none larger than may be pressed at once.
pub open spec fn batches(n: nat) -> Seq<Seq<Seq<char>>>
    decreases n,
{
    if n == 0 {
        Seq::empty()
    } else if n <= ADOPT_KEY_BATCH {
        seq![backspaces(n)]
    } else {
        seq![backspaces(ADOPT_KEY_BATCH as nat)] + batches((n - ADOPT_KEY_BATCH) as nat)
    }
}

/// All that is pressed to remove a text of `n` characters beside some images,
/// one batch after the other.
pub open spec fn presses_for(attachments: nat, n: nat) -> Seq<Seq<Seq<char>>> {
    seq![prefix_keys(attachments)] + batches(n)
}

/// All that is pressed in an attempt, where the keys may have been pressed
/// already. Beside an image they are pressed once.
pub open spec fn presses_at(attachments: nat, n: nat, pressed: bool) -> Seq<Seq<Seq<char>>> {
    if pressed && attachments > 0 {
        Seq::empty()
    } else {
        presses_for(attachments, n)
    }
}

/// All that is pressed in some attempts, one after the other.
pub open spec fn keys_pressed(attachments: nat, n: nat, pressed: bool, attempts: nat) -> Seq<
    Seq<char>,
>
    decreases attempts,
{
    if attempts == 0 {
        Seq::empty()
    } else {
        all_keys(presses_at(attachments, n, pressed)) + keys_pressed(
            attachments,
            n,
            true,
            (attempts - 1) as nat,
        )
    }
}

/// What batches of keys say.
pub open spec fn batch_views(v: Seq<Vec<&'static str>>) -> Seq<Seq<Seq<char>>> {
    Seq::new(v.len(), |i: int| native_chrome::literals(v[i]@))
}

/// The keys of batches, one after the other.
pub open spec fn all_keys(v: Seq<Seq<Seq<char>>>) -> Seq<Seq<char>>
    decreases v.len(),
{
    if v.len() == 0 {
        Seq::empty()
    } else {
        v[0] + all_keys(v.skip(1))
    }
}

/// How often a key is pressed.
pub open spec fn times(keys: Seq<Seq<char>>, key: Seq<char>) -> nat
    decreases keys.len(),
{
    if keys.len() == 0 {
        0
    } else {
        times(keys.drop_last(), key) + if keys.last() == key {
            1nat
        } else {
            0nat
        }
    }
}

proof fn lemma_nothing_is_pressed_again(attachments: nat, n: nat, attempts: nat)
    requires
        attachments > 0,
    ensures
        keys_pressed(attachments, n, true, attempts) == Seq::<Seq<char>>::empty(),
    decreases attempts,
{
    if attempts > 0 {
        lemma_nothing_is_pressed_again(attachments, n, (attempts - 1) as nat);
        assert(all_keys(presses_at(attachments, n, true)) =~= Seq::<Seq<char>>::empty());
        assert(keys_pressed(attachments, n, true, attempts) =~= Seq::<Seq<char>>::empty());
    }
}

proof fn lemma_times_of_backspaces(n: nat)
    ensures
        times(seq!["ctrl+e"@] + backspaces(n), "backspace"@) == n,
        times(seq!["ctrl+e"@] + backspaces(n), "ctrl+u"@) == 0,
    decreases n,
{
    reveal_strlit("ctrl+e");
    reveal_strlit("ctrl+u");
    reveal_strlit("backspace");
    assert("ctrl+e"@.len() == 6 && "backspace"@.len() == 9);
    assert("ctrl+e"@[5] == 'e' && "ctrl+u"@[5] == 'u');
    let keys = seq!["ctrl+e"@] + backspaces(n);
    if n == 0 {
        assert(keys.last() == "ctrl+e"@);
        assert(keys.drop_last() =~= Seq::<Seq<char>>::empty());
        assert(times(keys.drop_last(), "backspace"@) == 0);
        assert(times(keys.drop_last(), "ctrl+u"@) == 0);
    } else {
        assert(keys.last() == "backspace"@);
        lemma_times_of_backspaces((n - 1) as nat);
        assert(keys.drop_last() =~= seq!["ctrl+e"@] + backspaces((n - 1) as nat));
    }
}

/// However often the removal of a text beside an image is looked at again, and
/// whatever the pane shows, backspace is pressed once for each character of the
/// text and no more often, and the line is never killed: no image is eaten.
pub proof fn lemma_takeover_never_eats_an_image(attachments: nat, n: nat, attempts: nat)
    requires
        attachments > 0,
    ensures
        times(keys_pressed(attachments, n, false, attempts), "backspace"@) <= n,
        times(keys_pressed(attachments, n, false, attempts), "ctrl+u"@) == 0,
        attempts > 0 ==> times(keys_pressed(attachments, n, false, attempts), "backspace"@) == n,
{
    if attempts > 0 {
        let keys = keys_pressed(attachments, n, false, attempts);
        lemma_nothing_is_pressed_again(attachments, n, (attempts - 1) as nat);
        lemma_removal_never_overshoots(n);
        let first = presses_for(attachments, n);
        assert(first.skip(1) =~= batches(n));
        assert(keys =~= seq!["ctrl+e"@] + backspaces(n));
        lemma_times_of_backspaces(n);
    }
}

/// An attempt presses backspace once for each character of the text and no more
/// often, in batches that are pressed at once.
pub proof fn lemma_removal_never_overshoots(n: nat)
    ensures
        all_keys(batches(n)) == backspaces(n),
        forall|i: int| 0 <= i < batches(n).len() ==> (#[trigger] batches(n)[i]).len() <= ADOPT_KEY_BATCH,
    decreases n,
{
    let here = batches(n);
    if n == 0 {
        assert(all_keys(here) =~= backspaces(0));
    } else if n <= ADOPT_KEY_BATCH {
        assert(here.skip(1) =~= Seq::<Seq<Seq<char>>>::empty());
        assert(all_keys(here.skip(1)) =~= Seq::<Seq<char>>::empty());
        assert(all_keys(here) =~= backspaces(n));
    } else {
        let rest = (n - ADOPT_KEY_BATCH) as nat;
        lemma_removal_never_overshoots(rest);
        assert(here.skip(1) =~= batches(rest));
        assert(all_keys(here) =~= backspaces(n));
        assert forall|i: int| 0 <= i < here.len() implies (#[trigger] here[i]).len()
            <= ADOPT_KEY_BATCH by {
            if i > 0 {
                assert(here[i] == batches(rest)[i - 1]);
            }
        }
    }
}

/// All that is pressed in one attempt to remove a text.
pub fn removal_batches(attachments: usize, s: &str) -> (r: Vec<Vec<&'static str>>)
    ensures
        batch_views(r@) == presses_for(attachments as nat, s@.len()),
{
    let mut r: Vec<Vec<&'static str>> = Vec::new();
    let first: Vec<&'static str> = removal_prefix(attachments);
    r.push(first);
    let total: usize = text::chars_of(s).len();
    let ghost all = presses_for(attachments as nat, total as nat);
    let mut left: usize = total;
    assert(batch_views(r@) + batches(left as nat) =~= all);
    while left > 0
        invariant
            all == presses_for(attachments as nat, total as nat),
            batch_views(r@) + batches(left as nat) == all,
        decreases left,
    {
        let ghost so_far = batch_views(r@);
        let size: usize = if left < ADOPT_KEY_BATCH {
            left
        } else {
            ADOPT_KEY_BATCH
        };
        let batch: Vec<&'static str> = repeated_backspace(size);
        r.push(batch);
        assert(batch_views(r@) =~= so_far.push(backspaces(size as nat)));
        let ghost before = left as nat;
        left = left - size;
        proof {
            assert(batches(before) =~= seq![backspaces(size as nat)] + batches(left as nat));
            assert(batch_views(r@) + batches(left as nat) =~= so_far + batches(before));
        }
    }
    assert(batch_views(r@) + Seq::<Seq<Seq<char>>>::empty() =~= batch_views(r@));
    r
}

// ---------------------------------------------------------------------------
// The takeover
// ---------------------------------------------------------------------------

/// Whether a captured pane holds so many images and nothing else.
pub open spec fn holds_only(kind: AgentKind, captured: Seq<char>, attachments: nat) -> bool {
    composer::composer_state(kind, ansi::sanitized(captured)).access_spec(
        attachments as usize,
    ) is Ready
}

pub fn composer_holds_only(kind: AgentKind, captured: &str, attachments: usize) -> (r: bool)
    ensures
        r == holds_only(kind, captured@, attachments as nat),
{
    let surface: StyledText = sanitize_ansi(captured);
    match classify_native_composer(kind, &surface).access(attachments) {
        ComposerAccess::Ready => true,
        _ => false,
    }
}

/// A draft on its way out of the native composer.
pub struct Lift {
    pub kind: AgentKind,
    pub parts: ComposerParts,
    /// How often the removal may still be tried.
    pub attempts_left: usize,
    /// Whether the keys of the removal were pressed already.
    pub pressed: bool,
}

/// How a draft is taken over.
pub enum Takeover {
    /// The draft stays where it is.
    Leave,
    /// The draft is here, with nothing to remove there.
    Adopt(AdoptedDraft),
    /// The draft has to be removed there first.
    Remove(Lift),
}

pub ghost enum TakeoverView {
    Leave,
    Adopt(AdoptedView),
    Remove { parts: composer::PartsView, attempts_left: nat, pressed: bool },
}

impl View for Takeover {
    type V = TakeoverView;

    open spec fn view(&self) -> TakeoverView {
        match self {
            Takeover::Leave => TakeoverView::Leave,
            Takeover::Adopt(adopted) => TakeoverView::Adopt(adopted@),
            Takeover::Remove(lift) => TakeoverView::Remove {
                parts: lift.parts@,
                attempts_left: lift.attempts_left as nat,
                pressed: lift.pressed,
            },
        }
    }
}

/// How the parts of a composer are taken over.
///
/// Beside an image, only a single rendered line is taken. A wrapped or
/// multi-line draft carries newlines the buffer does not have, so counting
/// deletions from it would overshoot.
pub open spec fn takeover_of(parts: composer::PartsView, attempts: nat) -> TakeoverView {
    if parts.markers.len() > 0 && parts.text.contains('\n') {
        TakeoverView::Leave
    } else if parts.text.len() == 0 {
        TakeoverView::Adopt(
            AdoptedView { text: Seq::empty(), markers: parts.markers, cleared: true },
        )
    } else if attempts == 0 {
        TakeoverView::Adopt(
            AdoptedView { text: parts.text, markers: parts.markers, cleared: false },
        )
    } else {
        TakeoverView::Remove { parts, attempts_left: attempts, pressed: false }
    }
}

fn holds_newline(s: &str) -> (r: bool)
    ensures
        r == s@.contains('\n'),
{
    let chars: Vec<char> = text::chars_of(s);
    let mut i: usize = 0;
    while i < chars.len()
        invariant
            chars@ == s@,
            i <= chars@.len(),
            forall|k: int| 0 <= k < i ==> #[trigger] s@[k] != '\n',
        decreases chars@.len() - i,
    {
        if chars[i] == '\n' {
            assert(s@[i as int] == '\n');
            return true;
        }
        i = i + 1;
    }
    false
}

pub fn lift_native_draft(kind: AgentKind, parts: ComposerParts, attempts: usize) -> (r: Takeover)
    ensures
        r@ == takeover_of(parts@, attempts as nat),
        r matches Takeover::Remove(lift) ==> lift.kind == kind,
{
    if parts.markers.len() > 0 && holds_newline(parts.text.as_str()) {
        return Takeover::Leave;
    }
    if text::chars_of(parts.text.as_str()).len() == 0 {
        let text = String::new();
        return Takeover::Adopt(AdoptedDraft { text, markers: parts.markers, cleared: true });
    }
    if attempts == 0 {
        return Takeover::Adopt(
            AdoptedDraft { text: parts.text, markers: parts.markers, cleared: false },
        );
    }
    Takeover::Remove(Lift { kind, parts, attempts_left: attempts, pressed: false })
}

/// What to do after a removal was looked at.
pub enum LiftStep {
    Again(Lift),
    Done(AdoptedDraft),
}

impl Lift {
    /// The keys of one attempt, one batch after the other. Beside an image they
    /// are pressed once: a pane that redraws late would take a second round for
    /// the image.
    pub fn presses(&self) -> (r: Vec<Vec<&'static str>>)
        ensures
            batch_views(r@) == presses_at(
                self.parts@.markers.len(),
                self.parts@.text.len(),
                self.pressed,
            ),
    {
        if self.pressed && self.parts.markers.len() > 0 {
            let r: Vec<Vec<&'static str>> = Vec::new();
            assert(batch_views(r@) =~= Seq::<Seq<Seq<char>>>::empty());
            return r;
        }
        removal_batches(self.parts.markers.len(), self.parts.text.as_str())
    }

    /// Whether to wait before the pane is looked at. After the last attempt
    /// there is nothing to wait for.
    pub fn pauses(&self) -> (r: bool)
        ensures
            r == (self.attempts_left > 1),
    {
        self.attempts_left > 1
    }

    /// Takes in what the pane shows after an attempt.
    pub fn read(self, captured: &str) -> (r: LiftStep)
        requires
            self.attempts_left > 0,
        ensures
            holds_only(self.kind, captured@, self.parts@.markers.len()) ==> (r matches
                LiftStep::Done(adopted) && adopted@ == (AdoptedView {
                text: self.parts@.text,
                markers: self.parts@.markers,
                cleared: true,
            })),
            !holds_only(self.kind, captured@, self.parts@.markers.len()) && self.attempts_left
                == 1 ==> (r matches LiftStep::Done(adopted) && adopted@ == (AdoptedView {
                text: self.parts@.text,
                markers: self.parts@.markers,
                cleared: false,
            })),
            !holds_only(self.kind, captured@, self.parts@.markers.len()) && self.attempts_left
                > 1 ==> (r matches LiftStep::Again(lift) && lift.kind == self.kind && lift.parts@
                == self.parts@ && lift.attempts_left == self.attempts_left - 1 && lift.pressed),
    {
        let cleared: bool = composer_holds_only(
            self.kind,
            captured,
            self.parts.markers.len(),
        );
        if cleared || self.attempts_left == 1 {
            LiftStep::Done(
                AdoptedDraft { text: self.parts.text, markers: self.parts.markers, cleared },
            )
        } else {
            LiftStep::Again(
                Lift {
                    kind: self.kind,
                    parts: self.parts,
                    attempts_left: self.attempts_left - 1,
                    pressed: true,
                },
            )
        }
    }
}

/// What a list of markers says, where there is one.
pub open spec fn markers_view(v: Option<Vec<usize>>) -> Option<Seq<usize>> {
    match v {
        Some(markers) => Some(markers@),
        None => None,
    }
}

/// The images that a composer is known to hold.
pub open spec fn known_markers(kind: AgentKind, surface: style::StyledView) -> Option<Seq<usize>> {
    match composer::composer_state(kind, surface) {
        composer::NativeComposerState::Clear => Some(Seq::empty()),
        composer::NativeComposerState::Unknown => None,
        _ => match composer::composer_parts(kind, surface) {
            Some(parts) => Some(parts.markers),
            None => None,
        },
    }
}

/// Reads the composer once: the images it holds, and how its draft is taken
/// over, where it may be.
pub fn inspect_native_composer(
    kind: AgentKind,
    may_adopt: bool,
    captured: &str,
    attempts: usize,
) -> (r: (Option<Vec<usize>>, Takeover))
    ensures
        markers_view(r.0) == known_markers(kind, ansi::sanitized(captured@)),
        r.1@ == match composer::composer_parts(kind, ansi::sanitized(captured@)) {
            Some(parts) => if may_adopt {
                takeover_of(parts, attempts as nat)
            } else {
                TakeoverView::Leave
            },
            None => TakeoverView::Leave,
        },
        r.1 matches Takeover::Remove(lift) ==> lift.kind == kind,
{
    let surface: StyledText = sanitize_ansi(captured);
    let attachments: Option<Vec<usize>> = native_attachment_markers(kind, &surface);
    proof {
        if composer::composer_state(kind, surface@) is Clear {
            assert(attachments->0@ =~= Seq::<usize>::empty());
        }
    }
    let parts: Option<ComposerParts> = native_composer_parts(kind, &surface);
    let takeover: Takeover = match parts {
        Some(parts) => {
            if may_adopt {
                lift_native_draft(kind, parts, attempts)
            } else {
                Takeover::Leave
            }
        },
        None => Takeover::Leave,
    };
    (attachments, takeover)
}

/// A draft that is taken over keeps every character it had in the pane and the
/// numbers of its images, whether it could be removed there or not.
pub proof fn lemma_adopted_draft_keeps_its_parts(parts: composer::PartsView, attempts: nat)
    ensures
        takeover_of(parts, attempts) matches TakeoverView::Adopt(adopted) ==> adopted.text
            == parts.text && adopted.markers == parts.markers,
        takeover_of(parts, attempts) matches TakeoverView::Remove { parts: kept, .. } ==> kept
            == parts,
{
    if parts.text.len() == 0 {
        assert(parts.text =~= Seq::<char>::empty());
    }
}

}
