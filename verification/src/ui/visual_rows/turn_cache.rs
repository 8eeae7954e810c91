//! Rows of turns that were laid out before.
//!
//! The document is rebuilt on every transcript event and every resize. A turn
//! that did not change is not laid out again, so the cost of one new answer
//! does not grow with the whole history.

use super::block;
use super::block::{turn_block, TurnInput};
use super::document;
use super::document::HistoryDocument;
use super::rows;
use super::rows::VisualRow;
use super::wrap;
use crate::app::AppState;
use crate::model;
use crate::model::{Attachment, Delivery, Message, Turn};
use crate::style;
use crate::style::{MessagePresentation, StyleRun, StyledText};
use crate::text;
use vstd::prelude::*;

verus! {

// ---------------------------------------------------------------------------
// What of a turn is drawn
// ---------------------------------------------------------------------------

/// A message as far as it is drawn: where an image lies on disk is not.
pub open spec fn drawn_message(m: model::MessageView) -> model::MessageView {
    model::MessageView {
        attachments: Seq::new(
            m.attachments.len(),
            |i: int|
                model::AttachmentView {
                    id: m.attachments[i].id,
                    display: m.attachments[i].display,
                    native_path: None,
                },
        ),
        ..m
    }
}

/// A turn as far as it is drawn.
pub open spec fn signature(turn: model::TurnView) -> model::TurnView {
    model::TurnView {
        prompt: drawn_message(turn.prompt),
        delivery: turn.delivery,
        final_answer: match turn.final_answer {
            Some(answer) => Some(drawn_message(answer)),
            None => None,
        },
    }
}

/// A turn is drawn the same wherever its images lie.
pub proof fn lemma_block_of_signature(turn: model::TurnView, input: block::InputView, width: nat)
    ensures
        block::block(signature(turn), input, width) == block::block(turn, input, width),
{
    let drawn = signature(turn);
    let n = turn.prompt.attachments.len() as int;
    assert(block::image_lines(drawn.prompt.attachments, n) =~= block::image_lines(
        turn.prompt.attachments,
        n,
    ));
}

fn same_runs(a: &Vec<StyleRun>, b: &Vec<StyleRun>) -> (r: bool)
    ensures
        r == (a@ == b@),
{
    if a.len() != b.len() {
        return false;
    }
    let mut i: usize = 0;
    while i < a.len()
        invariant
            a@.len() == b@.len(),
            i <= a@.len(),
            forall|k: int| 0 <= k < i ==> a@[k] == b@[k],
        decreases a@.len() - i,
    {
        if a[i] != b[i] {
            return false;
        }
        i = i + 1;
    }
    assert(a@ =~= b@);
    true
}

fn same_styled(a: &StyledText, b: &StyledText) -> (r: bool)
    ensures
        r == (a@ == b@),
{
    text::same_text(a.text.as_str(), b.text.as_str()) && same_runs(&a.runs, &b.runs)
}

fn same_presentation(a: &MessagePresentation, b: &MessagePresentation) -> (r: bool)
    ensures
        r == (a@ == b@),
{
    match (a, b) {
        (MessagePresentation::Plain, MessagePresentation::Plain) => true,
        (MessagePresentation::MarkdownFallback, MessagePresentation::MarkdownFallback) => true,
        (MessagePresentation::NativeAnsi(left), MessagePresentation::NativeAnsi(right)) => {
            same_styled(left, right)
        },
        _ => false,
    }
}

fn same_attachments(a: &Vec<Attachment>, b: &Vec<Attachment>) -> (r: bool)
    ensures
        r == (a@.len() == b@.len() && forall|i: int|
            0 <= i < a@.len() ==> (#[trigger] a@[i])@.id == b@[i]@.id && a@[i]@.display
                == b@[i]@.display),
{
    if a.len() != b.len() {
        return false;
    }
    let mut i: usize = 0;
    while i < a.len()
        invariant
            a@.len() == b@.len(),
            i <= a@.len(),
            forall|k: int|
                0 <= k < i ==> (#[trigger] a@[k])@.id == b@[k]@.id && a@[k]@.display
                    == b@[k]@.display,
        decreases a@.len() - i,
    {
        if !text::same_text(a[i].id.as_str(), b[i].id.as_str()) || !text::same_text(
            a[i].display.as_str(),
            b[i].display.as_str(),
        ) {
            assert(!(a@[i as int]@.id == b@[i as int]@.id && a@[i as int]@.display
                == b@[i as int]@.display));
            return false;
        }
        i = i + 1;
    }
    true
}

fn same_message(a: &Message, b: &Message) -> (r: bool)
    ensures
        r == (drawn_message(a@) == drawn_message(b@)),
{
    let ghost left = drawn_message(a@);
    let ghost right = drawn_message(b@);
    let attached: bool = same_attachments(&a.attachments, &b.attachments);
    proof {
        if attached {
            assert forall|i: int| 0 <= i < left.attachments.len() implies left.attachments[i]
                == right.attachments[i] by {
                assert(a.attachments@[i]@.id == b.attachments@[i]@.id);
            }
            assert(left.attachments =~= right.attachments);
        } else if left.attachments == right.attachments {
            assert(left.attachments.len() == right.attachments.len());
            assert forall|i: int| 0 <= i < a.attachments@.len() implies (
            #[trigger] a.attachments@[i])@.id == b.attachments@[i]@.id
                && a.attachments@[i]@.display == b.attachments@[i]@.display by {
                assert(left.attachments[i] == right.attachments[i]);
            }
        }
    }
    attached && text::same_text(a.stable_id.as_str(), b.stable_id.as_str()) && text::same_text(
        a.text.as_str(),
        b.text.as_str(),
    ) && same_presentation(&a.presentation, &b.presentation) && same_moment(
        a.timestamp_ms,
        b.timestamp_ms,
    )
}

fn same_moment(a: Option<u64>, b: Option<u64>) -> (r: bool)
    ensures
        r == (a == b),
{
    match (a, b) {
        (None, None) => true,
        (Some(left), Some(right)) => left == right,
        _ => false,
    }
}

fn same_delivery(a: &Delivery, b: &Delivery) -> (r: bool)
    ensures
        r == (a@ == b@),
{
    match (a, b) {
        (Delivery::Native, Delivery::Native) => true,
        (Delivery::Optimistic, Delivery::Optimistic) => true,
        (Delivery::Failed { reason: left }, Delivery::Failed { reason: right }) => text::same_text(
            left.as_str(),
            right.as_str(),
        ),
        _ => false,
    }
}

/// Whether two turns are drawn from the same content.
fn same_turn(a: &Turn, b: &Turn) -> (r: bool)
    ensures
        r == (signature(a@) == signature(b@)),
{
    let answered: bool = match (&a.final_answer, &b.final_answer) {
        (None, None) => true,
        (Some(left), Some(right)) => same_message(left, right),
        _ => false,
    };
    answered && same_message(&a.prompt, &b.prompt) && same_delivery(&a.delivery, &b.delivery)
}

// ---------------------------------------------------------------------------
// The cache
// ---------------------------------------------------------------------------

/// A turn that was laid out, and its rows.
pub struct CachedTurn {
    pub turn: Turn,
    pub rows: Vec<VisualRow>,
    pub prompt_rows: usize,
}

pub ghost struct EntryView {
    pub turn: model::TurnView,
    pub rows: Seq<rows::RowView>,
    pub prompt_rows: nat,
}

impl View for CachedTurn {
    type V = EntryView;

    open spec fn view(&self) -> EntryView {
        EntryView {
            turn: signature(self.turn@),
            rows: rows::row_views(self.rows@),
            prompt_rows: self.prompt_rows as nat,
        }
    }
}

/// What an entry is found by.
pub open spec fn key_of(entry: EntryView) -> Seq<char> {
    entry.turn.prompt.stable_id
}

/// The entries by their keys. Of two with one key the later one counts.
pub open spec fn entry_map(entries: Seq<CachedTurn>) -> Map<Seq<char>, EntryView>
    decreases entries.len(),
{
    if entries.len() == 0 {
        Map::empty()
    } else {
        entry_map(entries.drop_last()).insert(key_of(entries.last()@), entries.last()@)
    }
}

/// Whether no two entries have one key.
pub open spec fn distinct_keys(entries: Seq<CachedTurn>) -> bool {
    forall|i: int, j: int|
        0 <= i < j < entries.len() ==> key_of((#[trigger] entries[i])@) != key_of(
            (#[trigger] entries[j])@,
        )
}

/// Rendered rows per turn, reused across rebuilds.
pub struct TurnRenderCache {
    pub width: Option<u16>,
    pub entries: Vec<CachedTurn>,
    pub rendered: u64,
}

pub ghost struct CacheView {
    pub width: Option<u16>,
    pub entries: Map<Seq<char>, EntryView>,
    pub rendered: nat,
}

impl View for TurnRenderCache {
    type V = CacheView;

    open spec fn view(&self) -> CacheView {
        CacheView {
            width: self.width,
            entries: entry_map(self.entries@),
            rendered: self.rendered as nat,
        }
    }
}

/// Whether what a cache holds of a turn holds its prompt.
pub open spec fn entry_fits(entry: EntryView) -> bool {
    document::block_fits(block_of(entry))
}

impl TurnRenderCache {
    /// Each turn is held once, with the rows around its prompt.
    pub open spec fn wf(&self) -> bool {
        &&& distinct_keys(self.entries@)
        &&& forall|i: int| 0 <= i < self.entries@.len() ==> entry_fits((#[trigger] self.entries@[i])@)
    }

    /// How many turns were laid out so far.
    pub fn rendered_turns(&self) -> (r: u64)
        ensures
            r == self@.rendered,
    {
        self.rendered
    }
}

impl Default for TurnRenderCache {
    fn default() -> (r: Self)
        ensures
            r.wf(),
            r@ == (CacheView { width: None, entries: Map::empty(), rendered: 0 }),
    {
        TurnRenderCache { width: None, entries: Vec::new(), rendered: 0 }
    }
}

/// The rows of an entry.
pub open spec fn block_of(entry: EntryView) -> block::BlockView {
    block::BlockView { rows: entry.rows, prompt_rows: entry.prompt_rows }
}

/// A turn that was just laid out.
pub open spec fn fresh_entry(
    turn: model::TurnView,
    input: block::InputView,
    width: nat,
) -> EntryView {
    let laid_out = block::block(turn, input, width);
    EntryView {
        turn: signature(turn),
        rows: laid_out.rows,
        prompt_rows: laid_out.prompt_rows,
    }
}

/// Whether the rows at hand are those of the turn.
pub open spec fn reusable(entries: Map<Seq<char>, EntryView>, turn: model::TurnView) -> bool {
    let key = turn.prompt.stable_id;
    entries.dom().contains(key) && entries[key].turn == signature(turn)
}

/// The entries once a turn was looked at.
pub open spec fn with_turn(
    entries: Map<Seq<char>, EntryView>,
    turn: model::TurnView,
    input: block::InputView,
    width: nat,
) -> Map<Seq<char>, EntryView> {
    if reusable(entries, turn) {
        entries
    } else {
        entries.insert(turn.prompt.stable_id, fresh_entry(turn, input, width))
    }
}

/// The state of a rebuild.
pub ghost struct Pass {
    pub entries: Map<Seq<char>, EntryView>,
    pub document: document::DocumentView,
    pub renders: nat,
}

/// A rebuild after its first `n` turns.
pub open spec fn pass_upto(
    entries: Map<Seq<char>, EntryView>,
    turns: Seq<model::TurnView>,
    inputs: Seq<block::InputView>,
    width: nat,
    n: int,
) -> Pass
    decreases n,
{
    if n <= 0 {
        Pass { entries, document: document::empty_document(), renders: 0 }
    } else {
        let before = pass_upto(entries, turns, inputs, width, n - 1);
        let turn = turns[n - 1];
        let after = with_turn(before.entries, turn, inputs[n - 1], width);
        Pass {
            entries: after,
            document: document::with_block(
                before.document,
                block_of(after[turn.prompt.stable_id]),
            ),
            renders: if reusable(before.entries, turn) {
                before.renders
            } else {
                before.renders + 1
            },
        }
    }
}

/// The entries a rebuild starts with: none where the width changed.
pub open spec fn starting_entries(cache: CacheView, width: u16) -> Map<Seq<char>, EntryView> {
    if cache.width == Some(width) {
        cache.entries
    } else {
        Map::empty()
    }
}

/// A whole rebuild.
pub open spec fn rebuild(
    cache: CacheView,
    turns: Seq<model::TurnView>,
    inputs: Seq<block::InputView>,
    width: u16,
) -> Pass {
    pass_upto(
        starting_entries(cache, width),
        turns,
        inputs,
        wrap::at_least_one(width as nat),
        turns.len() as int,
    )
}

/// Whether a key is that of a turn.
pub open spec fn live_key(turns: Seq<model::TurnView>, key: Seq<char>) -> bool {
    exists|i: int| 0 <= i < turns.len() && (#[trigger] turns[i]).prompt.stable_id == key
}

/// The keys of the turns.
pub open spec fn live_keys(turns: Seq<model::TurnView>) -> Set<Seq<char>> {
    Set::new(|key: Seq<char>| live_key(turns, key))
}

/// The number of turns laid out so far, as far as it can be counted.
pub open spec fn counted(rendered: nat, renders: nat) -> nat {
    if rendered + renders > u64::MAX {
        u64::MAX as nat
    } else {
        rendered + renders
    }
}

/// A cache after a rebuild. Turns that are gone are forgotten.
pub open spec fn rebuilt(
    cache: CacheView,
    turns: Seq<model::TurnView>,
    inputs: Seq<block::InputView>,
    width: u16,
) -> CacheView {
    let pass = rebuild(cache, turns, inputs, width);
    CacheView {
        width: Some(width),
        entries: pass.entries.restrict(live_keys(turns)),
        rendered: counted(cache.rendered, pass.renders),
    }
}

proof fn lemma_entry_map(entries: Seq<CachedTurn>)
    requires
        distinct_keys(entries),
    ensures
        forall|i: int|
            0 <= i < entries.len() ==> entry_map(entries).dom().contains(
                key_of((#[trigger] entries[i])@),
            ) && entry_map(entries)[key_of(entries[i]@)] == entries[i]@,
        forall|key: Seq<char>|
            #[trigger] entry_map(entries).dom().contains(key) ==> exists|i: int|
                0 <= i < entries.len() && key_of((#[trigger] entries[i])@) == key,
    decreases entries.len(),
{
    if entries.len() > 0 {
        let rest = entries.drop_last();
        let n = rest.len() as int;
        assert forall|i: int, j: int| 0 <= i < j < rest.len() implies key_of((#[trigger] rest[i])@)
            != key_of((#[trigger] rest[j])@) by {
            assert(rest[i] == entries[i] && rest[j] == entries[j]);
        }
        lemma_entry_map(rest);
        assert forall|i: int| 0 <= i < entries.len() implies entry_map(entries).dom().contains(
            key_of((#[trigger] entries[i])@),
        ) && entry_map(entries)[key_of(entries[i]@)] == entries[i]@ by {
            if i < n {
                assert(rest[i] == entries[i]);
                assert(key_of(entries[i]@) != key_of(entries[n]@));
            }
        }
        assert forall|key: Seq<char>| #[trigger]
            entry_map(entries).dom().contains(key) implies exists|i: int|
            0 <= i < entries.len() && key_of((#[trigger] entries[i])@) == key by {
            if key == key_of(entries[n]@) {
            } else {
                assert(entry_map(rest).dom().contains(key));
                let i = choose|i: int| 0 <= i < rest.len() && key_of((#[trigger] rest[i])@) == key;
                assert(entries[i] == rest[i]);
            }
        }
    }
}

proof fn lemma_entry_map_push(entries: Seq<CachedTurn>, entry: CachedTurn)
    ensures
        entry_map(entries.push(entry)) == entry_map(entries).insert(key_of(entry@), entry@),
{
    assert(entries.push(entry).drop_last() =~= entries);
}

/// Without the entry of a key the map is as it was without the key.
proof fn lemma_entry_map_without(entries: Seq<CachedTurn>, at: int)
    requires
        distinct_keys(entries),
        0 <= at < entries.len(),
    ensures
        distinct_keys(entries.remove(at)),
        entry_map(entries.remove(at)) == entry_map(entries).remove(key_of(entries[at]@)),
{
    let less = entries.remove(at);
    let gone = key_of(entries[at]@);
    assert forall|i: int| 0 <= i < less.len() implies #[trigger] less[i] == entries[if i < at {
        i
    } else {
        i + 1
    }] by {}
    assert forall|i: int, j: int| 0 <= i < j < less.len() implies key_of((#[trigger] less[i])@)
        != key_of((#[trigger] less[j])@) by {}
    lemma_entry_map(entries);
    lemma_entry_map(less);
    let before = entry_map(entries).remove(gone);
    let after = entry_map(less);
    assert forall|key: Seq<char>| before.dom().contains(key) == #[trigger] after.dom().contains(
        key,
    ) by {
        if before.dom().contains(key) {
            assert(entry_map(entries).dom().contains(key));
            let i = choose|i: int| 0 <= i < entries.len() && key_of((#[trigger] entries[i])@) == key;
            assert(i != at);
            let j = if i < at { i } else { i - 1 };
            assert(less[j] == entries[i]);
        }
        if after.dom().contains(key) {
            let j = choose|j: int| 0 <= j < less.len() && key_of((#[trigger] less[j])@) == key;
            let i = if j < at { j } else { j + 1 };
            assert(less[j] == entries[i]);
            assert(key_of(entries[i]@) != gone);
        }
    }
    assert forall|key: Seq<char>| #[trigger] after.dom().contains(key) implies after[key]
        == before[key] by {
        let j = choose|j: int| 0 <= j < less.len() && key_of((#[trigger] less[j])@) == key;
        let i = if j < at { j } else { j + 1 };
        assert(less[j] == entries[i]);
        assert(after[key] == less[j]@);
        assert(entry_map(entries)[key] == entries[i]@);
    }
    assert(after =~= before);
}

/// Whether an entry is one of those from an index on.
spec fn stands_from(entries: Seq<CachedTurn>, from: int, entry: CachedTurn) -> bool {
    exists|j: int| from <= j < entries.len() && #[trigger] entries[j] == entry
}

impl TurnRenderCache {
    /// Where the entry of a turn is.
    fn find(&self, key: &str) -> (r: Option<usize>)
        requires
            distinct_keys(self.entries@),
        ensures
            r is Some == self@.entries.dom().contains(key@),
            r matches Some(i) ==> i < self.entries@.len() && key_of(self.entries@[i as int]@) == key@
                && self@.entries[key@] == self.entries@[i as int]@,
    {
        proof {
            lemma_entry_map(self.entries@);
        }
        let mut i: usize = 0;
        while i < self.entries.len()
            invariant
                i <= self.entries@.len(),
                forall|k: int| 0 <= k < i ==> key_of((#[trigger] self.entries@[k])@) != key@,
                distinct_keys(self.entries@),
                forall|k: int|
                    0 <= k < self.entries@.len() ==> entry_map(self.entries@).dom().contains(
                        key_of((#[trigger] self.entries@[k])@),
                    ) && entry_map(self.entries@)[key_of(self.entries@[k]@)] == self.entries@[k]@,
            decreases self.entries@.len() - i,
        {
            assert(key_of(self.entries@[i as int]@) == self.entries@[i as int].turn.prompt.stable_id@);
            if text::same_text(self.entries[i].turn.prompt.stable_id.as_str(), key) {
                return Some(i);
            }
            i = i + 1;
        }
        None
    }

    /// Brings the entry of one turn up to date and gives where it is.
    fn refresh(&mut self, turn: &Turn, input: &TurnInput, cells: usize) -> (r: usize)
        requires
            old(self).wf(),
        ensures
            final(self).wf(),
            final(self)@.width == old(self)@.width,
            final(self)@.entries == with_turn(old(self)@.entries, turn@, input@, cells as nat),
            final(self)@.rendered == counted(
                old(self)@.rendered,
                if reusable(old(self)@.entries, turn@) {
                    0
                } else {
                    1
                },
            ),
            r < final(self).entries@.len(),
            final(self).entries@[r as int]@ == final(self)@.entries[turn@.prompt.stable_id],
    {
        let ghost before = self@;
        let ghost key = turn@.prompt.stable_id;
        let found: Option<usize> = self.find(turn.prompt.stable_id.as_str());
        if let Some(i) = found {
            if same_turn(&self.entries[i].turn, turn) {
                return i;
            }
            proof {
                lemma_entry_map_without(self.entries@, i as int);
            }
            let ghost all = self.entries@;
            self.entries.remove(i);
            assert(self.entries@ =~= all.remove(i as int));
            assert forall|k: int| 0 <= k < self.entries@.len() implies entry_fits(
                (#[trigger] self.entries@[k])@,
            ) by {
                let j = if k < i { k } else { k + 1 };
                assert(self.entries@[k] == all[j]);
            }
        }
        let ghost less = self.entries@;
        assert(distinct_keys(less));
        assert(entry_map(less) =~= before.entries.remove(key));
        let (laid_out, prompt_rows) = turn_block(turn, input, cells);
        let entry = CachedTurn { turn: turn.copied(), rows: laid_out, prompt_rows };
        let ghost view = entry@;
        assert(view == fresh_entry(turn@, input@, cells as nat));
        proof {
            lemma_entry_map(less);
            lemma_entry_map_push(less, entry);
            assert forall|k: int| 0 <= k < less.len() implies key_of((#[trigger] less[k])@)
                != key by {
                assert(entry_map(less).dom().contains(key_of(less[k]@)));
            }
        }
        self.entries.push(entry);
        assert(entry_map(self.entries@) =~= before.entries.insert(key, view));
        if self.rendered < u64::MAX {
            self.rendered = self.rendered + 1;
        }
        self.entries.len() - 1
    }

    /// Forgets turns that are gone.
    fn keep_live(&mut self, turns: &Vec<Turn>)
        requires
            old(self).wf(),
        ensures
            final(self).wf(),
            final(self)@.width == old(self)@.width,
            final(self)@.rendered == old(self)@.rendered,
            final(self)@.entries == old(self)@.entries.restrict(live_keys(model::turn_views(turns@))),
    {
        let ghost all = self.entries@;
        let ghost live = live_keys(model::turn_views(turns@));
        let mut old_entries: Vec<CachedTurn> = Vec::new();
        std::mem::swap(&mut old_entries, &mut self.entries);
        let mut kept: Vec<CachedTurn> = Vec::new();
        assert(old_entries@ == all);
        while old_entries.len() > 0
            invariant
                live == live_keys(model::turn_views(turns@)),
                distinct_keys(all),
                forall|i: int| 0 <= i < all.len() ==> entry_fits((#[trigger] all[i])@),
                old_entries@.len() <= all.len(),
                old_entries@ == all.take(old_entries@.len() as int),
                distinct_keys(kept@),
                forall|i: int| 0 <= i < kept@.len() ==> entry_fits((#[trigger] kept@[i])@),
                forall|i: int|
                    0 <= i < kept@.len() ==> stands_from(
                        all,
                        old_entries@.len() as int,
                        #[trigger] kept@[i],
                    ),
                forall|i: int|
                    0 <= i < kept@.len() ==> live.contains(key_of((#[trigger] kept@[i])@)),
                forall|j: int|
                    old_entries@.len() <= j < all.len() && live.contains(
                        key_of((#[trigger] all[j])@),
                    ) ==> kept@.contains(all[j]),
            decreases old_entries@.len(),
        {
            let ghost n = old_entries@.len() as int;
            let ghost so_far = kept@;
            if let Some(entry) = old_entries.pop() {
                assert(entry == all[n - 1]);
                assert(old_entries@ =~= all.take(n - 1));
                let lives: bool = is_live(turns, entry.turn.prompt.stable_id.as_str());
                assert(lives == live.contains(key_of(entry@)));
                if lives {
                    proof {
                        assert forall|i: int| 0 <= i < so_far.len() implies key_of(
                            (#[trigger] so_far[i])@,
                        ) != key_of(entry@) by {
                            assert(stands_from(all, n, so_far[i]));
                            let j = choose|j: int| n <= j < all.len() && #[trigger] all[j] == so_far[i];
                            assert(key_of(all[n - 1]@) != key_of(all[j]@));
                        }
                    }
                    kept.push(entry);
                    proof {
                        assert forall|i: int| 0 <= i < kept@.len() implies stands_from(
                            all,
                            n - 1,
                            #[trigger] kept@[i],
                        ) by {
                            if i < so_far.len() {
                                assert(kept@[i] == so_far[i]);
                                assert(stands_from(all, n, so_far[i]));
                                let j = choose|j: int| n <= j < all.len() && #[trigger] all[j] == so_far[i];
                                assert(all[j] == kept@[i]);
                            } else {
                                assert(all[n - 1] == kept@[i]);
                            }
                        }
                        assert forall|j: int|
                            n - 1 <= j < all.len() && live.contains(
                                key_of((#[trigger] all[j])@),
                            ) implies kept@.contains(all[j]) by {
                            if j == n - 1 {
                                assert(kept@[so_far.len() as int] == all[j]);
                            } else {
                                assert(so_far.contains(all[j]));
                                let i = choose|i: int| 0 <= i < so_far.len() && so_far[i] == all[j];
                                assert(kept@[i] == all[j]);
                            }
                        }
                    }
                } else {
                    proof {
                        assert forall|i: int| 0 <= i < kept@.len() implies stands_from(
                            all,
                            n - 1,
                            #[trigger] kept@[i],
                        ) by {
                            assert(stands_from(all, n, so_far[i]));
                            let j = choose|j: int| n <= j < all.len() && #[trigger] all[j] == so_far[i];
                            assert(all[j] == kept@[i]);
                        }
                    }
                }
            }
        }
        proof {
            lemma_entry_map(all);
            lemma_entry_map(kept@);
            let want = entry_map(all).restrict(live);
            let got = entry_map(kept@);
            assert forall|key: Seq<char>| want.dom().contains(key) == #[trigger] got.dom().contains(
                key,
            ) by {
                if want.dom().contains(key) {
                    assert(entry_map(all).dom().contains(key));
                    let j = choose|j: int| 0 <= j < all.len() && key_of((#[trigger] all[j])@) == key;
                    assert(kept@.contains(all[j]));
                    let i = choose|i: int| 0 <= i < kept@.len() && kept@[i] == all[j];
                    assert(got.dom().contains(key_of(kept@[i]@)));
                }
                if got.dom().contains(key) {
                    let i = choose|i: int| 0 <= i < kept@.len() && key_of((#[trigger] kept@[i])@) == key;
                    assert(stands_from(all, 0, kept@[i]));
                    let j = choose|j: int| 0 <= j < all.len() && #[trigger] all[j] == kept@[i];
                    assert(entry_map(all).dom().contains(key_of(all[j]@)));
                }
            }
            assert forall|key: Seq<char>| #[trigger] got.dom().contains(key) implies got[key]
                == want[key] by {
                let i = choose|i: int| 0 <= i < kept@.len() && key_of((#[trigger] kept@[i])@) == key;
                assert(stands_from(all, 0, kept@[i]));
                let j = choose|j: int| 0 <= j < all.len() && #[trigger] all[j] == kept@[i];
                assert(entry_map(all)[key_of(all[j]@)] == all[j]@);
            }
            assert(got =~= want);
        }
        self.entries = kept;
    }
}

fn is_live(turns: &Vec<Turn>, key: &str) -> (r: bool)
    ensures
        r == live_key(model::turn_views(turns@), key@),
{
    let ghost views = model::turn_views(turns@);
    let mut i: usize = 0;
    while i < turns.len()
        invariant
            views == model::turn_views(turns@),
            i <= turns@.len(),
            forall|k: int| 0 <= k < i ==> (#[trigger] views[k]).prompt.stable_id != key@,
        decreases turns@.len() - i,
    {
        assert(views[i as int] == turns@[i as int]@);
        if text::same_text(turns[i].prompt.stable_id.as_str(), key) {
            return true;
        }
        i = i + 1;
    }
    false
}

impl HistoryDocument {
    /// Lays out a conversation, taking what was laid out before from the cache.
    pub fn from_app_cached(
        app: &AppState,
        width: u16,
        cache: &mut TurnRenderCache,
        inputs: &Vec<TurnInput>,
    ) -> (r: Self)
        requires
            inputs@.len() == app.turns@.len(),
            old(cache).wf(),
        ensures
            r@ == rebuild(
                old(cache)@,
                model::turn_views(app.turns@),
                document::input_views(inputs@),
                width,
            ).document,
            document::sections_fit(r@),
            final(cache).wf(),
            final(cache)@ == rebuilt(
                old(cache)@,
                model::turn_views(app.turns@),
                document::input_views(inputs@),
                width,
            ),
    {
        let ghost given = cache@;
        let same_width: bool = match cache.width {
            Some(known) => known == width,
            None => false,
        };
        if !same_width {
            cache.entries = Vec::new();
            cache.width = Some(width);
        }
        let cells: usize = if width == 0 {
            1
        } else {
            width as usize
        };
        let ghost start = starting_entries(given, width);
        assert(cache@.entries =~= start);
        let ghost turns = model::turn_views(app.turns@);
        let ghost views = document::input_views(inputs@);
        let mut r: HistoryDocument = HistoryDocument::default();
        let mut i: usize = 0;
        while i < app.turns.len()
            invariant
                inputs@.len() == app.turns@.len(),
                turns == model::turn_views(app.turns@),
                views == document::input_views(inputs@),
                i <= app.turns@.len(),
                cache.wf(),
                cache@.width == Some(width),
                cache@.entries == pass_upto(start, turns, views, cells as nat, i as int).entries,
                cache@.rendered == counted(
                    given.rendered,
                    pass_upto(start, turns, views, cells as nat, i as int).renders,
                ),
                r@ == pass_upto(start, turns, views, cells as nat, i as int).document,
                document::sections_fit(r@),
            decreases app.turns@.len() - i,
        {
            assert(turns[i as int] == app.turns@[i as int]@);
            assert(views[i as int] == inputs@[i as int]@);
            let at: usize = cache.refresh(&app.turns[i], &inputs[i], cells);
            let ghost entry = cache.entries@[at as int]@;
            assert(entry_fits(cache.entries@[at as int]@));
            r.push_block(
                &cache.entries[at].rows,
                cache.entries[at].prompt_rows,
                Ghost(block_of(entry)),
            );
            i = i + 1;
        }
        cache.keep_live(&app.turns);
        r
    }
}

// ---------------------------------------------------------------------------
// What holds of every cache
// ---------------------------------------------------------------------------

/// Whether each entry holds the rows that its turn is laid out to, where
/// `input` gives what drawing a turn takes.
pub open spec fn faithful(
    entries: Map<Seq<char>, EntryView>,
    input: spec_fn(model::TurnView) -> block::InputView,
    width: nat,
) -> bool {
    forall|key: Seq<char>| #[trigger]
        entries.dom().contains(key) ==> {
            &&& key_of(entries[key]) == key
            &&& block_of(entries[key]) == block::block(
                entries[key].turn,
                input(entries[key].turn),
                width,
            )
        }
}

/// Whether the inputs of the turns are those that `input` gives.
pub open spec fn inputs_by(
    turns: Seq<model::TurnView>,
    inputs: Seq<block::InputView>,
    input: spec_fn(model::TurnView) -> block::InputView,
) -> bool {
    &&& inputs.len() == turns.len()
    &&& forall|i: int| 0 <= i < turns.len() ==> #[trigger] inputs[i] == input(signature(turns[i]))
}

proof fn lemma_pass_matches(
    entries: Map<Seq<char>, EntryView>,
    turns: Seq<model::TurnView>,
    inputs: Seq<block::InputView>,
    input: spec_fn(model::TurnView) -> block::InputView,
    width: nat,
    n: int,
)
    requires
        0 <= n <= turns.len(),
        faithful(entries, input, width),
        inputs_by(turns, inputs, input),
    ensures
        pass_upto(entries, turns, inputs, width, n).document == document::document_upto(
            turns,
            inputs,
            width,
            n,
        ),
        faithful(pass_upto(entries, turns, inputs, width, n).entries, input, width),
    decreases n,
{
    if n > 0 {
        lemma_pass_matches(entries, turns, inputs, input, width, n - 1);
        let before = pass_upto(entries, turns, inputs, width, n - 1);
        let turn = turns[n - 1];
        let key = turn.prompt.stable_id;
        assert(inputs[n - 1] == input(signature(turn)));
        lemma_block_of_signature(turn, inputs[n - 1], width);
    }
}

/// A document that is taken from the cache is the document that would be laid
/// out anew, whatever the cache was filled with before.
pub proof fn lemma_cached_document_is_the_document(
    cache: CacheView,
    turns: Seq<model::TurnView>,
    inputs: Seq<block::InputView>,
    input: spec_fn(model::TurnView) -> block::InputView,
    width: u16,
)
    requires
        cache.width == Some(width) ==> faithful(
            cache.entries,
            input,
            wrap::at_least_one(width as nat),
        ),
        inputs_by(turns, inputs, input),
    ensures
        rebuild(cache, turns, inputs, width).document == document::document(turns, inputs, width),
        faithful(
            rebuilt(cache, turns, inputs, width).entries,
            input,
            wrap::at_least_one(width as nat),
        ),
{
    lemma_pass_matches(
        starting_entries(cache, width),
        turns,
        inputs,
        input,
        wrap::at_least_one(width as nat),
        turns.len() as int,
    );
}

proof fn lemma_pass_holds_turns(
    entries: Map<Seq<char>, EntryView>,
    turns: Seq<model::TurnView>,
    inputs: Seq<block::InputView>,
    width: nat,
    n: int,
)
    requires
        0 <= n <= turns.len(),
    ensures
        forall|i: int|
            0 <= i < n ==> pass_upto(entries, turns, inputs, width, n).entries.dom().contains(
                (#[trigger] turns[i]).prompt.stable_id,
            ),
    decreases n,
{
    if n > 0 {
        lemma_pass_holds_turns(entries, turns, inputs, width, n - 1);
    }
}

/// After a rebuild the cache holds the turns of the conversation and no others.
pub proof fn lemma_dropped_turns_are_forgotten(
    cache: CacheView,
    turns: Seq<model::TurnView>,
    inputs: Seq<block::InputView>,
    width: u16,
)
    ensures
        rebuilt(cache, turns, inputs, width).entries.dom() == live_keys(turns),
{
    let pass = rebuild(cache, turns, inputs, width);
    lemma_pass_holds_turns(
        starting_entries(cache, width),
        turns,
        inputs,
        wrap::at_least_one(width as nat),
        turns.len() as int,
    );
    let got = rebuilt(cache, turns, inputs, width).entries.dom();
    assert forall|key: Seq<char>| got.contains(key) == live_keys(turns).contains(key) by {
        if live_keys(turns).contains(key) {
            let i = choose|i: int| 0 <= i < turns.len() && (#[trigger] turns[i]).prompt.stable_id == key;
            assert(pass.entries.dom().contains(turns[i].prompt.stable_id));
        }
    }
    assert(got =~= live_keys(turns));
}

/// Whether no two turns have one id.
pub open spec fn distinct_turns(turns: Seq<model::TurnView>) -> bool {
    forall|i: int, j: int|
        0 <= i < j < turns.len() ==> (#[trigger] turns[i]).prompt.stable_id != (
        #[trigger] turns[j]).prompt.stable_id
}

proof fn lemma_pass_holds_signatures(
    entries: Map<Seq<char>, EntryView>,
    turns: Seq<model::TurnView>,
    inputs: Seq<block::InputView>,
    width: nat,
    n: int,
)
    requires
        0 <= n <= turns.len(),
        distinct_turns(turns),
    ensures
        forall|i: int|
            0 <= i < n ==> reusable(
                pass_upto(entries, turns, inputs, width, n).entries,
                #[trigger] turns[i],
            ),
    decreases n,
{
    if n > 0 {
        lemma_pass_holds_signatures(entries, turns, inputs, width, n - 1);
        let before = pass_upto(entries, turns, inputs, width, n - 1).entries;
        let after = pass_upto(entries, turns, inputs, width, n).entries;
        assert forall|i: int| 0 <= i < n implies reusable(after, #[trigger] turns[i]) by {
            if i < n - 1 {
                assert(reusable(before, turns[i]));
                assert(turns[i].prompt.stable_id != turns[n - 1].prompt.stable_id);
            }
        }
    }
}

proof fn lemma_pass_reuses(
    entries: Map<Seq<char>, EntryView>,
    turns: Seq<model::TurnView>,
    inputs: Seq<block::InputView>,
    width: nat,
    n: int,
    m: int,
)
    requires
        0 <= m <= n <= turns.len(),
        distinct_turns(turns),
        forall|i: int| 0 <= i < m ==> reusable(entries, #[trigger] turns[i]),
    ensures
        pass_upto(entries, turns, inputs, width, m).entries == entries,
        pass_upto(entries, turns, inputs, width, m).renders == 0,
        pass_upto(entries, turns, inputs, width, n).renders <= n - m,
    decreases n,
{
    if n > m {
        lemma_pass_reuses(entries, turns, inputs, width, n - 1, m);
    } else if n > 0 {
        lemma_pass_reuses(entries, turns, inputs, width, n - 1, m - 1);
        assert(reusable(entries, turns[n - 1]));
    }
}

/// A conversation that was laid out and then grew is laid out again only as far
/// as it grew: at most as many turns as were added, and none where none were.
pub proof fn lemma_only_new_turns_are_laid_out(
    cache: CacheView,
    turns: Seq<model::TurnView>,
    inputs: Seq<block::InputView>,
    width: u16,
    added: Seq<model::TurnView>,
    more_inputs: Seq<block::InputView>,
)
    requires
        distinct_turns(turns + added),
    ensures
        rebuild(
            rebuilt(cache, turns, inputs, width),
            turns + added,
            more_inputs,
            width,
        ).renders <= added.len(),
{
    let cells = wrap::at_least_one(width as nat);
    let grown = turns + added;
    assert forall|i: int, j: int| 0 <= i < j < turns.len() implies (
    #[trigger] turns[i]).prompt.stable_id != (#[trigger] turns[j]).prompt.stable_id by {
        assert(grown[i] == turns[i] && grown[j] == turns[j]);
    }
    let start = starting_entries(cache, width);
    let n = turns.len() as int;
    lemma_pass_holds_signatures(start, turns, inputs, cells, n);
    let held = rebuilt(cache, turns, inputs, width).entries;
    let pass = pass_upto(start, turns, inputs, cells, n).entries;
    assert forall|i: int| 0 <= i < n implies reusable(held, #[trigger] grown[i]) by {
        assert(grown[i] == turns[i]);
        assert(reusable(pass, turns[i]));
        assert(live_key(turns, turns[i].prompt.stable_id));
    }
    lemma_pass_reuses(held, grown, more_inputs, cells, grown.len() as int, n);
}

}
