//! The transcript of an agent that writes one record per line.
//!
//! A prompt is taken in as soon as its record is there. An answer is not: text
//! that is followed by a tool call was no answer yet, so the newest text waits
//! until the turn is over.

use crate::agent::json;
use crate::agent::json::{is_text, member_text, read_json, JsonValue, JsonView};
use crate::agent::time;
use crate::agent::time::record_timestamp_ms;
use crate::error;
use crate::error::AppError;
use crate::model;
use crate::model::{Attachment, ConversationEvent, Message};
use crate::style;
use crate::style::MessagePresentation;
use crate::text;
use vstd::prelude::*;

verus! {

// ---------------------------------------------------------------------------
// What a record shows
// ---------------------------------------------------------------------------

/// Whether a flag of a record is set.
pub open spec fn flagged(record: JsonView, key: Seq<char>) -> bool {
    json::member(record, key) == Some(JsonView::Bool(true))
}

fn truthy(record: &JsonValue, key: &str) -> (r: bool)
    ensures
        r == flagged(record@, key@),
{
    match record.get(key) {
        Some(JsonValue::Bool(b)) => *b,
        _ => false,
    }
}

/// Whether a block is of this type.
pub open spec fn of_type(block: JsonView, expected: Seq<char>) -> bool {
    json::text_of(json::member(block, "type"@)) == Some(expected)
}

/// Whether one of the first `n` blocks is of this type.
pub open spec fn any_of_type(blocks: Seq<JsonView>, expected: Seq<char>, n: int) -> bool
    decreases n,
{
    n > 0 && (of_type(blocks[n - 1], expected) || any_of_type(blocks, expected, n - 1))
}

/// Whether some content has a block of this type.
pub open spec fn has_block(content: JsonView, expected: Seq<char>) -> bool {
    match content {
        JsonView::Array(blocks) => any_of_type(blocks, expected, blocks.len() as int),
        _ => false,
    }
}

fn contains_block(content: &JsonValue, expected: &str) -> (r: bool)
    ensures
        r == has_block(content@, expected@),
{
    match content {
        JsonValue::Array(blocks) => {
            let ghost views = json::json_views(blocks@);
            proof {
                json::lemma_json_views(blocks@);
            }
            let mut n: usize = blocks.len();
            while n > 0
                invariant
                    views == json::json_views(blocks@),
                    views.len() == blocks@.len(),
                    forall|k: int|
                        0 <= k < views.len() ==> #[trigger] views[k] == json::json_view(blocks@[k]),
                    n <= blocks@.len(),
                    any_of_type(views, expected@, n as int) == any_of_type(
                        views,
                        expected@,
                        blocks@.len() as int,
                    ),
                    content@ == JsonView::Array(views),
                decreases n,
            {
                assert(views[n - 1] == json::json_view(blocks@[n - 1]));
                if is_text(blocks[n - 1].get("type"), expected) {
                    return true;
                }
                n = n - 1;
            }
            false
        },
        _ => false,
    }
}

/// The text of a block that shows one.
pub open spec fn block_text(block: JsonView) -> Option<Seq<char>> {
    if of_type(block, "text"@) {
        json::text_of(json::member(block, "text"@))
    } else {
        None
    }
}

/// The texts of the first `n` blocks.
pub open spec fn block_texts(blocks: Seq<JsonView>, n: int) -> Seq<Seq<char>>
    decreases n,
{
    if n <= 0 {
        Seq::empty()
    } else {
        match block_text(blocks[n - 1]) {
            Some(s) => block_texts(blocks, n - 1).push(s),
            None => block_texts(blocks, n - 1),
        }
    }
}

/// Texts as one, with a line feed between two of them.
pub open spec fn lines_of(texts: Seq<Seq<char>>) -> Seq<char>
    decreases texts.len(),
{
    if texts.len() == 0 {
        Seq::empty()
    } else if texts.len() == 1 {
        texts[0]
    } else {
        lines_of(texts.drop_last()).push('\n') + texts.last()
    }
}

/// What some content shows.
pub open spec fn shown_text(content: JsonView) -> Seq<char> {
    match content {
        JsonView::Text(s) => s,
        JsonView::Array(blocks) => lines_of(block_texts(blocks, blocks.len() as int)),
        _ => Seq::empty(),
    }
}

fn block_text_of<'a>(block: &'a JsonValue) -> (r: Option<&'a str>)
    ensures
        text::optional_str(r) == block_text(block@),
{
    if is_text(block.get("type"), "text") {
        member_text(block, "text")
    } else {
        None
    }
}

fn visible_text(content: &JsonValue) -> (r: String)
    ensures
        r@ == shown_text(content@),
{
    match content {
        JsonValue::Text(s) => s.clone(),
        JsonValue::Array(blocks) => {
            let ghost views = json::json_views(blocks@);
            proof {
                json::lemma_json_views(blocks@);
            }
            let mut r: String = String::new();
            let mut found: bool = false;
            let mut i: usize = 0;
            assert(r@ =~= lines_of(block_texts(views, 0)));
            while i < blocks.len()
                invariant
                    views == json::json_views(blocks@),
                    views.len() == blocks@.len(),
                    forall|k: int|
                        0 <= k < views.len() ==> #[trigger] views[k] == json::json_view(blocks@[k]),
                    i <= blocks@.len(),
                    r@ == lines_of(block_texts(views, i as int)),
                    found == (block_texts(views, i as int).len() > 0),
                    content@ == JsonView::Array(views),
                decreases blocks@.len() - i,
            {
                let ghost before = block_texts(views, i as int);
                assert(views[i as int] == json::json_view(blocks@[i as int]));
                if let Some(s) = block_text_of(&blocks[i]) {
                    assert(before.push(s@).drop_last() =~= before);
                    let ghost so_far = r@;
                    if found {
                        r.push('\n');
                    }
                    r.append(s);
                    assert(r@ =~= lines_of(before.push(s@))) by {
                        if !found {
                            assert(so_far =~= Seq::<char>::empty());
                        }
                    }
                    found = true;
                }
                i = i + 1;
            }
            r
        },
        _ => String::new(),
    }
}

/// How many of the first `n` blocks are images.
pub open spec fn image_count(blocks: Seq<JsonView>, n: int) -> nat
    decreases n,
{
    if n <= 0 {
        0
    } else {
        image_count(blocks, n - 1) + if of_type(blocks[n - 1], "image"@) {
            1nat
        } else {
            0nat
        }
    }
}

/// The image with this number of the record on this line.
pub open spec fn image_of_line(line_number: u64, number: nat) -> model::AttachmentView {
    model::AttachmentView {
        id: "transcript:"@ + text::decimal_text(line_number as nat) + ":image:"@ + text::decimal_text(
            number,
        ),
        display: "Image #"@ + text::decimal_text(number),
        native_path: None,
    }
}

/// The images of some content, counted from one.
pub open spec fn shown_images(content: JsonView, line_number: u64) -> Seq<model::AttachmentView> {
    match content {
        JsonView::Array(blocks) => Seq::new(
            image_count(blocks, blocks.len() as int),
            |i: int| image_of_line(line_number, (i + 1) as nat),
        ),
        _ => Seq::empty(),
    }
}

fn image_on_line(line_number: u64, number: u64) -> (r: Attachment)
    ensures
        r@ == image_of_line(line_number, number as nat),
{
    let mut id: String = text::numbered_text("transcript:", line_number);
    id.append(":image:");
    let digits: String = text::number_text(number);
    id.append(digits.as_str());
    assert(id@ =~= image_of_line(line_number, number as nat).id);
    Attachment { id, display: text::numbered_text("Image #", number), native_path: None }
}

fn image_attachments(content: &JsonValue, line_number: u64) -> (r: Vec<Attachment>)
    ensures
        model::attachment_views(r@) == shown_images(content@, line_number),
{
    let mut r: Vec<Attachment> = Vec::new();
    match content {
        JsonValue::Array(blocks) => {
            let ghost views = json::json_views(blocks@);
            proof {
                json::lemma_json_views(blocks@);
            }
            let n: usize = blocks.len();
            let mut i: usize = 0;
            while i < n
                invariant
                    views == json::json_views(blocks@),
                    views.len() == blocks@.len(),
                    n == blocks@.len(),
                    forall|k: int|
                        0 <= k < views.len() ==> #[trigger] views[k] == json::json_view(blocks@[k]),
                    i <= n,
                    r@.len() == image_count(views, i as int),
                    r@.len() <= i,
                    forall|k: int|
                        0 <= k < r@.len() ==> (#[trigger] r@[k])@ == image_of_line(
                            line_number,
                            (k + 1) as nat,
                        ),
                decreases n - i,
            {
                assert(views[i as int] == json::json_view(blocks@[i as int]));
                if is_text(blocks[i].get("type"), "image") {
                    let number: u64 = (r.len() + 1) as u64;
                    r.push(image_on_line(line_number, number));
                }
                i = i + 1;
            }
        },
        _ => {},
    }
    assert(model::attachment_views(r@) =~= shown_images(content@, line_number));
    r
}

/// The name of the record on this line.
pub open spec fn record_id(line_number: u64, record: JsonView) -> Seq<char> {
    match json::text_of(json::member(record, "uuid"@)) {
        Some(id) => if id.len() > 0 {
            id
        } else {
            "transcript:"@ + text::decimal_text(line_number as nat)
        },
        None => "transcript:"@ + text::decimal_text(line_number as nat),
    }
}

fn stable_id(line_number: u64, record: &JsonValue) -> (r: String)
    ensures
        r@ == record_id(line_number, record@),
{
    match member_text(record, "uuid") {
        Some(id) => {
            if text::chars_of(id).len() > 0 {
                return id.to_owned();
            }
        },
        None => {},
    }
    text::numbered_text("transcript:", line_number)
}

/// Whether a record was written by the agent itself, and not for it. A message
/// that a coordinator relays is still someone addressing the session.
pub open spec fn system_prompt(record: JsonView) -> bool {
    ||| json::text_of(json::member(record, "promptSource"@)) == Some("system"@)
    ||| json::text_of(json::inner_member(record, "origin"@, "kind"@)) == Some(
        "task-notification"@,
    )
}

fn is_system_prompt(record: &JsonValue) -> (r: bool)
    ensures
        r == system_prompt(record@),
{
    is_text(record.get("promptSource"), "system") || is_text(
        record.get_inner("origin", "kind"),
        "task-notification",
    )
}

/// Whether the agent itself queued what a record attaches. The record may say
/// so, or what it attaches.
pub open spec fn system_queued(record: JsonView) -> bool {
    ||| system_prompt(record)
    ||| match json::member(record, "attachment"@) {
        Some(attachment) => system_prompt(attachment),
        None => false,
    }
}

/// What a person typed while the agent was at work, as far as the attachment of
/// a record holds that.
pub open spec fn queued_prompt(record: JsonView) -> Option<JsonView> {
    match json::member(record, "attachment"@) {
        Some(attachment) => {
            let kind = json::text_of(json::inner_member(attachment, "origin"@, "kind"@));
            if of_type(attachment, "queued_command"@) && json::text_of(
                json::member(attachment, "commandMode"@),
            ) == Some("prompt"@) && (kind is None || kind == Some("human"@)) && !system_queued(
                record,
            ) {
                json::member(attachment, "prompt"@)
            } else {
                None
            }
        },
        None => None,
    }
}

fn find_queued_prompt(record: &JsonValue) -> (r: Option<&JsonValue>)
    ensures
        json::optional_view(r) == queued_prompt(record@),
{
    match record.get("attachment") {
        Some(attachment) => {
            let origin: Option<&JsonValue> = attachment.get_inner("origin", "kind");
            let named: bool = match origin {
                Some(kind) => kind.as_str().is_some(),
                None => false,
            };
            if is_text(attachment.get("type"), "queued_command") && is_text(
                attachment.get("commandMode"),
                "prompt",
            ) && (!named || is_text(origin, "human")) && !is_system_prompt(record)
                && !is_system_prompt(attachment) {
                attachment.get("prompt")
            } else {
                None
            }
        },
        None => None,
    }
}

// ---------------------------------------------------------------------------
// The adapter
// ---------------------------------------------------------------------------

/// Turns the records of a transcript into prompts and answers.
pub struct ClaudeAdapter {
    /// Whether there was a prompt yet.
    pub active_user: bool,
    /// The newest text of the agent, until the turn is over.
    pub pending_final: Option<Message>,
}

pub ghost struct AdapterView {
    pub active_user: bool,
    pub pending_final: Option<model::MessageView>,
}

impl View for ClaudeAdapter {
    type V = AdapterView;

    open spec fn view(&self) -> AdapterView {
        AdapterView {
            active_user: self.active_user,
            pending_final: match self.pending_final {
                Some(message) => Some(message@),
                None => None,
            },
        }
    }
}

pub open spec fn event_views(events: Seq<ConversationEvent>) -> Seq<model::EventView> {
    Seq::new(events.len(), |i: int| events[i]@)
}

/// The prompt that a record holds.
pub open spec fn prompt_of(
    line_number: u64,
    record: JsonView,
    content: JsonView,
) -> model::MessageView {
    model::MessageView {
        stable_id: record_id(line_number, record),
        text: shown_text(content),
        presentation: style::PresentationView::Plain,
        attachments: shown_images(content, line_number),
        timestamp_ms: time::recorded_at(record),
    }
}

/// The answer that a record holds.
pub open spec fn answer_of(
    line_number: u64,
    record: JsonView,
    content: JsonView,
) -> model::MessageView {
    model::MessageView {
        stable_id: record_id(line_number, record),
        text: shown_text(content),
        presentation: style::PresentationView::Plain,
        attachments: Seq::empty(),
        timestamp_ms: time::recorded_at(record),
    }
}

/// The answer that waits, where one does.
pub open spec fn waiting(state: AdapterView) -> Seq<model::EventView> {
    match state.pending_final {
        Some(message) => seq![model::EventView::Final(message)],
        None => Seq::empty(),
    }
}

/// Whether some content shows nothing at all.
pub open spec fn shows_nothing(content: JsonView, line_number: u64) -> bool {
    text::blank(shown_text(content)) && shown_images(content, line_number).len() == 0
}

/// What a prompt does: it ends the turn before it, and starts one.
pub open spec fn after_prompt(
    state: AdapterView,
    line_number: u64,
    record: JsonView,
    content: JsonView,
) -> (AdapterView, Seq<model::EventView>) {
    if shows_nothing(content, line_number) {
        (state, Seq::empty())
    } else {
        (
            AdapterView { active_user: true, pending_final: None },
            waiting(state).push(model::EventView::User(prompt_of(line_number, record, content))),
        )
    }
}

/// What a record of the agent does: its text waits to be the answer. Text next
/// to a tool call does not, and neither does text before the first prompt.
pub open spec fn after_answer(
    state: AdapterView,
    line_number: u64,
    record: JsonView,
) -> AdapterView {
    match json::inner_member(record, "message"@, "content"@) {
        Some(content) => if state.active_user && !has_block(content, "tool_use"@) && !text::blank(
            shown_text(content),
        ) {
            AdapterView {
                pending_final: Some(answer_of(line_number, record, content)),
                ..state
            }
        } else {
            state
        },
        None => state,
    }
}

/// What a record does.
pub open spec fn ingested(state: AdapterView, line_number: u64, record: JsonView) -> (
    AdapterView,
    Seq<model::EventView>,
) {
    if flagged(record, "isSidechain"@) || flagged(record, "isMeta"@) {
        (state, Seq::empty())
    } else if of_type(record, "user"@) {
        match json::inner_member(record, "message"@, "content"@) {
            Some(content) => if has_block(content, "tool_result"@) || system_prompt(record) {
                (state, Seq::empty())
            } else {
                after_prompt(state, line_number, record, content)
            },
            None => (state, Seq::empty()),
        }
    } else if of_type(record, "assistant"@) {
        (after_answer(state, line_number, record), Seq::empty())
    } else if of_type(record, "attachment"@) {
        match queued_prompt(record) {
            Some(prompt) => after_prompt(state, line_number, record, prompt),
            None => (state, Seq::empty()),
        }
    } else {
        (state, Seq::empty())
    }
}

/// What is said of a line that is no JSON.
pub open spec fn invalid_json(line_number: u64, why: Seq<char>) -> error::ErrorView {
    error::ErrorView {
        context: "agent transcript"@,
        message: "invalid JSON on line "@ + text::decimal_text(line_number as nat) + ": "@ + why,
    }
}

fn no_events() -> (r: Vec<ConversationEvent>)
    ensures
        event_views(r@) == Seq::<model::EventView>::empty(),
{
    let r: Vec<ConversationEvent> = Vec::new();
    assert(event_views(r@) =~= Seq::<model::EventView>::empty());
    r
}

impl Default for ClaudeAdapter {
    fn default() -> (r: Self)
        ensures
            r@ == (AdapterView { active_user: false, pending_final: None }),
    {
        ClaudeAdapter { active_user: false, pending_final: None }
    }
}

impl ClaudeAdapter {
    /// Takes in a line of the transcript. A line that is no JSON is an error, and
    /// changes nothing.
    pub fn ingest_line(&mut self, line_number: u64, line: &str) -> (r: Result<
        Vec<ConversationEvent>,
        AppError,
    >)
        ensures
            match json::json_reading(line@) {
                Ok(record) => r is Ok && (final(self)@, event_views(r->Ok_0@)) == ingested(
                    old(self)@,
                    line_number,
                    record,
                ),
                Err(why) => r is Err && r->Err_0@ == invalid_json(line_number, why) && final(self)@
                    == old(self)@,
            },
    {
        match read_json(line) {
            Ok(record) => Ok(self.ingest_value(line_number, &record)),
            Err(why) => Err(unreadable(line_number, why.as_str())),
        }
    }

    /// Takes in a record of the transcript.
    pub fn ingest_value(&mut self, line_number: u64, record: &JsonValue) -> (r: Vec<
        ConversationEvent,
    >)
        ensures
            (final(self)@, event_views(r@)) == ingested(old(self)@, line_number, record@),
    {
        if truthy(record, "isSidechain") || truthy(record, "isMeta") {
            return no_events();
        }
        let kind: Option<&JsonValue> = record.get("type");
        if is_text(kind, "user") {
            self.parse_user(line_number, record)
        } else if is_text(kind, "assistant") {
            self.parse_assistant(line_number, record);
            no_events()
        } else if is_text(kind, "attachment") {
            self.parse_queued_prompt(line_number, record)
        } else {
            no_events()
        }
    }

    /// Hands out the answer that waits. The turn is over.
    pub fn finalize_pending(&mut self) -> (r: Option<ConversationEvent>)
        ensures
            final(self)@ == (AdapterView { pending_final: None, ..old(self)@ }),
            r is Some == old(self)@.pending_final is Some,
            r matches Some(event) ==> event@ == model::EventView::Final(
                old(self)@.pending_final.unwrap(),
            ),
    {
        match self.pending_final.take() {
            Some(message) => Some(ConversationEvent::Final(message)),
            None => None,
        }
    }

    fn parse_user(&mut self, line_number: u64, record: &JsonValue) -> (r: Vec<ConversationEvent>)
        requires
            of_type(record@, "user"@),
            !flagged(record@, "isSidechain"@),
            !flagged(record@, "isMeta"@),
        ensures
            (final(self)@, event_views(r@)) == ingested(old(self)@, line_number, record@),
    {
        match record.get_inner("message", "content") {
            Some(content) => {
                if contains_block(content, "tool_result") || is_system_prompt(record) {
                    no_events()
                } else {
                    self.emit_user(line_number, record, content)
                }
            },
            None => no_events(),
        }
    }

    // A prompt typed while the agent is working is usually stored once, as a
    // `queued_command` attachment holding the same blocks the model was given,
    // rather than as a `user` record. Queued commands that no person typed, such
    // as the notification of a background task, stay hidden.
    fn parse_queued_prompt(&mut self, line_number: u64, record: &JsonValue) -> (r: Vec<
        ConversationEvent,
    >)
        ensures
            (final(self)@, event_views(r@)) == match queued_prompt(record@) {
                Some(prompt) => after_prompt(old(self)@, line_number, record@, prompt),
                None => (old(self)@, Seq::empty()),
            },
    {
        match find_queued_prompt(record) {
            Some(prompt) => self.emit_user(line_number, record, prompt),
            None => no_events(),
        }
    }

    fn emit_user(&mut self, line_number: u64, record: &JsonValue, content: &JsonValue) -> (r: Vec<
        ConversationEvent,
    >)
        ensures
            (final(self)@, event_views(r@)) == after_prompt(
                old(self)@,
                line_number,
                record@,
                content@,
            ),
    {
        let shown: String = visible_text(content);
        let attachments: Vec<Attachment> = image_attachments(content, line_number);
        if text::is_blank(shown.as_str()) && attachments.len() == 0 {
            return no_events();
        }
        let mut events: Vec<ConversationEvent> = Vec::new();
        if let Some(answer) = self.finalize_pending() {
            events.push(answer);
        }
        let ghost before = event_views(events@);
        assert(before =~= waiting(old(self)@));
        self.active_user = true;
        let message = Message {
            stable_id: stable_id(line_number, record),
            text: shown,
            presentation: MessagePresentation::Plain,
            attachments,
            timestamp_ms: record_timestamp_ms(record),
        };
        events.push(ConversationEvent::User(message));
        assert(event_views(events@) =~= before.push(
            model::EventView::User(prompt_of(line_number, record@, content@)),
        ));
        events
    }

    fn parse_assistant(&mut self, line_number: u64, record: &JsonValue)
        ensures
            final(self)@ == after_answer(old(self)@, line_number, record@),
    {
        if !self.active_user {
            return ;
        }
        let content: &JsonValue = match record.get_inner("message", "content") {
            Some(content) => content,
            None => {
                return ;
            },
        };
        if contains_block(content, "tool_use") {
            return ;
        }
        let shown: String = visible_text(content);
        if text::is_blank(shown.as_str()) {
            return ;
        }
        let id: String = stable_id(line_number, record);
        self.pending_final = Some(
            Message::text(id.as_str(), shown.as_str(), record_timestamp_ms(record)),
        );
    }
}

fn unreadable(line_number: u64, why: &str) -> (r: AppError)
    ensures
        r@ == invalid_json(line_number, why@),
{
    let mut message: String = text::numbered_text("invalid JSON on line ", line_number);
    message.append(": ");
    message.append(why);
    assert(message@ =~= invalid_json(line_number, why@).message);
    AppError::new("agent transcript", message)
}

// ---------------------------------------------------------------------------
// What holds of every transcript
// ---------------------------------------------------------------------------

/// The records of a side conversation, those that the agent keeps for itself,
/// and the prompts that it wrote or queued, show nothing and change nothing.
pub proof fn lemma_hidden_records_are_ignored(
    state: AdapterView,
    line_number: u64,
    record: JsonView,
)
    requires
        flagged(record, "isSidechain"@) || flagged(record, "isMeta"@) || (of_type(record, "user"@)
            && system_prompt(record)) || (of_type(record, "attachment"@) && system_queued(record)),
    ensures
        ingested(state, line_number, record) == (state, Seq::<model::EventView>::empty()),
{
    reveal_strlit("user");
    reveal_strlit("assistant");
    reveal_strlit("attachment");
    assert("user"@.len() == 4 && "assistant"@.len() == 9 && "attachment"@.len() == 10);
}

/// A record shows at most one prompt, which comes last; the answer before it is
/// the one that was waiting, and none waits afterwards.
pub proof fn lemma_prompt_ends_the_turn(state: AdapterView, line_number: u64, record: JsonView)
    ensures
        ({
            let (next, events) = ingested(state, line_number, record);
            events.len() > 0 ==> {
                &&& events.drop_last() == waiting(state)
                &&& events.last() is User
                &&& next == AdapterView { active_user: true, pending_final: None }
            }
        }),
{
    let (next, events) = ingested(state, line_number, record);
    if events.len() > 0 {
        assert(events.drop_last() =~= waiting(state));
    }
}

/// Where an adapter stands after the first `n` records, and what it handed out.
pub open spec fn transcript(records: Seq<(u64, JsonView)>, n: int) -> (
    AdapterView,
    Seq<model::EventView>,
)
    decreases n,
{
    if n <= 0 {
        (AdapterView { active_user: false, pending_final: None }, Seq::empty())
    } else {
        let (state, events) = transcript(records, n - 1);
        let (next, more) = ingested(state, records[n - 1].0, records[n - 1].1);
        (next, events + more)
    }
}

/// Prompts and answers take turns: a transcript begins with a prompt, and every
/// answer stands between two prompts. What was said last waits for the end of
/// the turn.
pub open spec fn takes_turns(events: Seq<model::EventView>) -> bool {
    &&& events.len() > 0 ==> events[0] is User && events.last() is User
    &&& forall|i: int|
        0 <= i < events.len() && (#[trigger] events[i]) is Final ==> 0 < i < events.len() - 1
            && events[i - 1] is User && events[i + 1] is User
}

/// Whatever the records are, prompts and answers take turns, and an answer waits
/// only after a prompt.
pub proof fn lemma_prompts_and_answers_take_turns(records: Seq<(u64, JsonView)>, n: int)
    requires
        0 <= n <= records.len(),
    ensures
        takes_turns(transcript(records, n).1),
        transcript(records, n).0.pending_final is Some ==> transcript(records, n).0.active_user,
        transcript(records, n).0.active_user == (transcript(records, n).1.len() > 0),
    decreases n,
{
    if n > 0 {
        lemma_prompts_and_answers_take_turns(records, n - 1);
        let (state, events) = transcript(records, n - 1);
        let (next, more) = ingested(state, records[n - 1].0, records[n - 1].1);
        lemma_prompt_ends_the_turn(state, records[n - 1].0, records[n - 1].1);
        let all = events + more;
        if more.len() > 0 {
            assert(more == waiting(state).push(more.last()));
            assert forall|i: int|
                0 <= i < all.len() && (#[trigger] all[i]) is Final implies 0 < i < all.len() - 1
                && all[i - 1] is User && all[i + 1] is User by {
                if i < events.len() {
                    assert(events[i] is Final);
                    assert(all[i - 1] == events[i - 1]);
                    assert(all[i + 1] == events[i + 1]);
                } else {
                    assert(all[i] == more[i - events.len()]);
                    assert(all[i - 1] == events.last());
                    assert(all[i + 1] == more.last());
                }
            }
        } else {
            assert(all =~= events);
        }
    }
}

// ---------------------------------------------------------------------------
// What a turn says
// ---------------------------------------------------------------------------

/// Whether a record belongs to a side conversation or to the agent itself.
pub open spec fn set_aside(record: JsonView) -> bool {
    json::member(record, "isSidechain"@) == Some(JsonView::Bool(true)) || json::member(
        record,
        "isMeta"@,
    ) == Some(JsonView::Bool(true))
}

/// Whether a value names itself to be of a kind.
pub open spec fn named(value: JsonView, kind: Seq<char>) -> bool {
    json::member(value, "type"@) == Some(JsonView::Text(kind))
}

/// Whether one of the blocks of some content is of a kind.
pub open spec fn holds_block(content: JsonView, kind: Seq<char>) -> bool {
    content matches JsonView::Array(blocks) && exists|i: int|
        0 <= i < blocks.len() && named(#[trigger] blocks[i], kind)
}

/// Whether there is something to be seen in a text.
pub open spec fn visible(s: Seq<char>) -> bool {
    exists|i: int| 0 <= i < s.len() && !text::white_space(#[trigger] s[i])
}

/// Whether nobody typed what a value holds.
pub open spec fn typed_by_nobody(value: JsonView) -> bool {
    json::member(value, "promptSource"@) == Some(JsonView::Text("system"@)) || json::inner_member(
        value,
        "origin"@,
        "kind"@,
    ) == Some(JsonView::Text("task-notification"@))
}

/// Whether a value says that someone else than a person sent it.
pub open spec fn sent_by_another(value: JsonView) -> bool {
    json::inner_member(value, "origin"@, "kind"@) matches Some(JsonView::Text(kind)) && kind
        != "human"@
}

/// Whether a record is a prompt with this content: a message to the agent that
/// brings no result of a tool, or one that was typed while the agent worked.
pub open spec fn asks_with(record: JsonView, content: JsonView) -> bool {
    &&& !set_aside(record)
    &&& !typed_by_nobody(record)
    &&& visible(shown_text(content)) || holds_block(content, "image"@)
    &&& {
        ||| named(record, "user"@) && json::inner_member(record, "message"@, "content"@) == Some(
            content,
        ) && !holds_block(content, "tool_result"@)
        ||| named(record, "attachment"@) && (json::member(record, "attachment"@) matches Some(queued)
            && named(queued, "queued_command"@) && json::member(queued, "commandMode"@) == Some(
            JsonView::Text("prompt"@),
        ) && !typed_by_nobody(queued) && !sent_by_another(queued) && json::member(
            queued,
            "prompt"@,
        ) == Some(content))
    }
}

/// Whether a record is a prompt.
pub open spec fn asks(record: JsonView) -> bool {
    exists|content: JsonView| asks_with(record, content)
}

/// Whether a record is text of the agent that can be an answer: it can be seen,
/// and no tool is called next to it.
pub open spec fn speaks(record: JsonView) -> bool {
    &&& !set_aside(record)
    &&& named(record, "assistant"@)
    &&& json::inner_member(record, "message"@, "content"@) matches Some(content) && !holds_block(
        content,
        "tool_use"@,
    ) && visible(shown_text(content))
}

/// The answer that a record of the agent makes.
pub open spec fn said(line_number: u64, record: JsonView) -> model::MessageView {
    model::MessageView {
        stable_id: record_id(line_number, record),
        text: shown_text(json::inner_member(record, "message"@, "content"@).unwrap()),
        presentation: style::PresentationView::Plain,
        attachments: Seq::empty(),
        timestamp_ms: time::recorded_at(record),
    }
}

proof fn lemma_any_of_type(blocks: Seq<JsonView>, kind: Seq<char>, n: int)
    requires
        0 <= n <= blocks.len(),
    ensures
        any_of_type(blocks, kind, n) <==> exists|i: int|
            0 <= i < n && named(#[trigger] blocks[i], kind),
        image_count(blocks, n) > 0 <==> exists|i: int|
            0 <= i < n && named(#[trigger] blocks[i], "image"@),
    decreases n,
{
    if n > 0 {
        lemma_any_of_type(blocks, kind, n - 1);
        assert(of_type(blocks[n - 1], kind) == named(blocks[n - 1], kind));
        assert(of_type(blocks[n - 1], "image"@) == named(blocks[n - 1], "image"@));
        if any_of_type(blocks, kind, n) {
            if named(blocks[n - 1], kind) {
            } else {
                let i = choose|i: int| 0 <= i < n - 1 && named(#[trigger] blocks[i], kind);
                assert(named(blocks[i], kind));
            }
        }
        if image_count(blocks, n) > 0 {
            if named(blocks[n - 1], "image"@) {
            } else {
                let i = choose|i: int| 0 <= i < n - 1 && named(#[trigger] blocks[i], "image"@);
                assert(named(blocks[i], "image"@));
            }
        }
    }
}

proof fn lemma_blocks_of_content(content: JsonView, line_number: u64)
    ensures
        has_block(content, "tool_use"@) == holds_block(content, "tool_use"@),
        has_block(content, "tool_result"@) == holds_block(content, "tool_result"@),
        (shown_images(content, line_number).len() > 0) == holds_block(content, "image"@),
        text::blank(shown_text(content)) == !visible(shown_text(content)),
{
    if let JsonView::Array(blocks) = content {
        let n = blocks.len() as int;
        lemma_any_of_type(blocks, "tool_use"@, n);
        lemma_any_of_type(blocks, "tool_result"@, n);
        lemma_any_of_type(blocks, "image"@, n);
    }
}

/// What one record does to a turn. A prompt is handed out at once, behind the
/// answer that was waiting; text of the agent that can be an answer takes the
/// place of what was waiting, as long as there was a prompt; every other record
/// changes nothing.
pub proof fn lemma_what_a_record_does(state: AdapterView, line_number: u64, record: JsonView)
    ensures
        forall|content: JsonView| #[trigger]
            asks_with(record, content) ==> ingested(state, line_number, record) == (
                AdapterView { active_user: true, pending_final: None },
                (match state.pending_final {
                    Some(answer) => seq![model::EventView::Final(answer)],
                    None => Seq::empty(),
                }) + seq![
                    model::EventView::User(
                        model::MessageView {
                            stable_id: record_id(line_number, record),
                            text: shown_text(content),
                            presentation: style::PresentationView::Plain,
                            attachments: shown_images(content, line_number),
                            timestamp_ms: time::recorded_at(record),
                        },
                    ),
                ],
            ),
        speaks(record) ==> !asks(record) && ingested(state, line_number, record) == (
            AdapterView {
                active_user: state.active_user,
                pending_final: if state.active_user {
                    Some(said(line_number, record))
                } else {
                    state.pending_final
                },
            },
            Seq::<model::EventView>::empty(),
        ),
        !asks(record) && !speaks(record) ==> ingested(state, line_number, record) == (
            state,
            Seq::<model::EventView>::empty(),
        ),
{
    reveal_strlit("user");
    reveal_strlit("assistant");
    reveal_strlit("attachment");
    assert("user"@.len() == 4 && "assistant"@.len() == 9 && "attachment"@.len() == 10);
    if let Some(content) = json::inner_member(record, "message"@, "content"@) {
        lemma_blocks_of_content(content, line_number);
    }
    if let Some(content) = queued_prompt(record) {
        lemma_blocks_of_content(content, line_number);
    }
    assert forall|content: JsonView| #[trigger] asks_with(record, content) implies ingested(
        state,
        line_number,
        record,
    ) == (
        AdapterView { active_user: true, pending_final: None },
        (match state.pending_final {
            Some(answer) => seq![model::EventView::Final(answer)],
            None => Seq::empty(),
        }) + seq![
            model::EventView::User(
                model::MessageView {
                    stable_id: record_id(line_number, record),
                    text: shown_text(content),
                    presentation: style::PresentationView::Plain,
                    attachments: shown_images(content, line_number),
                    timestamp_ms: time::recorded_at(record),
                },
            ),
        ],
    ) by {
        lemma_blocks_of_content(content, line_number);
        let events = ingested(state, line_number, record).1;
        assert(!shows_nothing(content, line_number));
        assert(events =~= (match state.pending_final {
            Some(answer) => seq![model::EventView::Final(answer)],
            None => Seq::empty(),
        }) + seq![
            model::EventView::User(
                model::MessageView {
                    stable_id: record_id(line_number, record),
                    text: shown_text(content),
                    presentation: style::PresentationView::Plain,
                    attachments: shown_images(content, line_number),
                    timestamp_ms: time::recorded_at(record),
                },
            ),
        ]);
    }
    if !asks(record) && !speaks(record) {
        if named(record, "user"@) {
            if let Some(content) = json::inner_member(record, "message"@, "content"@) {
                assert(!asks_with(record, content));
            }
        }
        if let Some(content) = queued_prompt(record) {
            assert(!asks_with(record, content));
        }
    }
}

/// The answer of a turn is the last text of the agent in it, whatever came
/// before and whatever tools were called: over any records behind a prompt, none
/// of which is a prompt, what waits is the last of them that can be an answer,
/// under its own name and moment, and nothing where none can. The next prompt
/// hands it out.
pub proof fn lemma_answer_is_the_last_text_of_the_turn(
    records: Seq<(u64, JsonView)>,
    prompt: int,
    end: int,
)
    requires
        0 <= prompt < end <= records.len(),
        asks(records[prompt].1),
        forall|k: int| prompt < k < end ==> !asks((#[trigger] records[k]).1),
    ensures
        transcript(records, end).1 == transcript(records, prompt + 1).1,
        transcript(records, end).0.active_user,
        forall|k: int|
            prompt < k < end && speaks((#[trigger] records[k]).1) && (forall|j: int|
                k < j < end ==> !speaks((#[trigger] records[j]).1)) ==> transcript(
                records,
                end,
            ).0.pending_final == Some(said(records[k].0, records[k].1)),
        (forall|k: int| prompt < k < end ==> !speaks((#[trigger] records[k]).1)) ==> transcript(
            records,
            end,
        ).0.pending_final is None,
        end < records.len() && asks(records[end].1) ==> {
            let (_, events) = transcript(records, end + 1);
            let before = transcript(records, end);
            &&& events.take(before.1.len() as int) == before.1
            &&& events.last() is User
            &&& before.0.pending_final matches Some(answer) ==> events.len() == before.1.len() + 2
                && events[before.1.len() as int] == model::EventView::Final(answer)
            &&& before.0.pending_final is None ==> events.len() == before.1.len() + 1
        },
    decreases end,
{
    let (state, events) = transcript(records, end - 1);
    let last = records[end - 1];
    lemma_what_a_record_does(state, last.0, last.1);
    if end - 1 == prompt {
        let content = choose|content: JsonView| asks_with(last.1, content);
        assert(asks_with(last.1, content));
    } else {
        lemma_answer_is_the_last_text_of_the_turn(records, prompt, end - 1);
        assert(!asks(records[end - 1].1));
        assert(transcript(records, end).1 =~= transcript(records, end - 1).1);
        assert forall|k: int|
            prompt < k < end && speaks((#[trigger] records[k]).1) && (forall|j: int|
                k < j < end ==> !speaks((#[trigger] records[j]).1)) implies transcript(
            records,
            end,
        ).0.pending_final == Some(said(records[k].0, records[k].1)) by {
            if k < end - 1 {
                assert(!speaks(records[end - 1].1));
                assert forall|j: int| k < j < end - 1 implies !speaks(
                    (#[trigger] records[j]).1,
                ) by {}
            }
        }
        if forall|k: int| prompt < k < end ==> !speaks((#[trigger] records[k]).1) {
            assert(!speaks(records[end - 1].1));
            assert forall|k: int| prompt < k < end - 1 implies !speaks((#[trigger] records[k]).1) by {}
        }
    }
    if end < records.len() && asks(records[end].1) {
        let before = transcript(records, end);
        lemma_what_a_record_does(before.0, records[end].0, records[end].1);
        let content = choose|content: JsonView| asks_with(records[end].1, content);
        assert(asks_with(records[end].1, content));
        let after = transcript(records, end + 1);
        assert(after.1.take(before.1.len() as int) =~= before.1);
    }
}

/// What content shows is the text of its text blocks in their order, with one line
/// feed between two of them: another text block goes to the end, on a line of
/// its own, and any other block leaves the text as it is. Content that is a text
/// shows itself.
pub proof fn lemma_text_grows_block_by_block(blocks: Seq<JsonView>, block: JsonView, s: Seq<char>)
    ensures
        shown_text(JsonView::Text(s)) == s,
        shown_text(JsonView::Array(Seq::empty())) == Seq::<char>::empty(),
        ({
            let before = shown_text(JsonView::Array(blocks));
            let after = shown_text(JsonView::Array(blocks.push(block)));
            let first = forall|i: int|
                0 <= i < blocks.len() ==> !shows_text(#[trigger] blocks[i]);
            if shows_text(block) {
                json::member(block, "text"@) matches Some(JsonView::Text(added)) && after == if first {
                    added
                } else {
                    before + seq!['\n'] + added
                }
            } else {
                after == before
            }
        }),
{
    let n = blocks.len() as int;
    let all = blocks.push(block);
    lemma_block_texts_of_prefix(all, blocks, n);
    lemma_no_block_texts(blocks, n);
    let before = block_texts(blocks, n);
    assert(all[n] == block);
    assert(block_text(block) is Some == shows_text(block));
    assert(lines_of(block_texts(Seq::<JsonView>::empty(), 0)) =~= Seq::<char>::empty());
    if let Some(added) = block_text(block) {
        assert(before.push(added).drop_last() =~= before);
        assert(lines_of(before).push('\n') + added =~= lines_of(before) + seq!['\n'] + added);
    }
}

/// Whether a block holds text to show.
pub open spec fn shows_text(block: JsonView) -> bool {
    named(block, "text"@) && json::member(block, "text"@) matches Some(JsonView::Text(_))
}

proof fn lemma_block_texts_of_prefix(a: Seq<JsonView>, b: Seq<JsonView>, n: int)
    requires
        0 <= n <= b.len(),
        n <= a.len(),
        forall|i: int| 0 <= i < n ==> #[trigger] a[i] == b[i],
    ensures
        block_texts(a, n) == block_texts(b, n),
        image_count(a, n) == image_count(b, n),
    decreases n,
{
    if n > 0 {
        lemma_block_texts_of_prefix(a, b, n - 1);
        assert(a[n - 1] == b[n - 1]);
    }
}

proof fn lemma_no_block_texts(blocks: Seq<JsonView>, n: int)
    requires
        0 <= n <= blocks.len(),
    ensures
        block_texts(blocks, n).len() == 0 <==> forall|i: int|
            0 <= i < n ==> !shows_text(#[trigger] blocks[i]),
    decreases n,
{
    if n > 0 {
        lemma_no_block_texts(blocks, n - 1);
        assert(block_text(blocks[n - 1]) is Some == shows_text(blocks[n - 1]));
        if block_texts(blocks, n).len() == 0 {
            assert forall|i: int| 0 <= i < n implies !shows_text(#[trigger] blocks[i]) by {
                if i < n - 1 {
                    assert(block_texts(blocks, n - 1).len() == 0);
                }
            }
        } else if block_texts(blocks, n - 1).len() > 0 {
            let i = choose|i: int| 0 <= i < n - 1 && shows_text(#[trigger] blocks[i]);
            assert(shows_text(blocks[i]));
        } else {
            assert(shows_text(blocks[n - 1]));
        }
    }
}

/// The images of some content are numbered from one in the order of their
/// blocks: another image gets the next number, and any other block leaves the
/// images as they are.
pub proof fn lemma_images_grow_block_by_block(
    blocks: Seq<JsonView>,
    block: JsonView,
    line_number: u64,
)
    ensures
        shown_images(JsonView::Array(Seq::empty()), line_number).len() == 0,
        ({
            let before = shown_images(JsonView::Array(blocks), line_number);
            let after = shown_images(JsonView::Array(blocks.push(block)), line_number);
            if named(block, "image"@) {
                &&& after.len() == before.len() + 1
                &&& after.drop_last() == before
                &&& after.last().display == "Image #"@ + text::decimal_text(after.len())
                &&& after.last().native_path is None
            } else {
                after == before
            }
        }),
{
    let n = blocks.len() as int;
    let all = blocks.push(block);
    lemma_block_texts_of_prefix(all, blocks, n);
    assert(all[n] == block);
    let before = shown_images(JsonView::Array(blocks), line_number);
    let after = shown_images(JsonView::Array(all), line_number);
    assert(of_type(block, "image"@) == named(block, "image"@));
    if named(block, "image"@) {
        assert(after.drop_last() =~= before);
    } else {
        assert(after =~= before);
    }
}

proof fn lemma_numbered_names_differ(prefix: Seq<char>, a: nat, b: nat)
    requires
        prefix + text::decimal_text(a) == prefix + text::decimal_text(b),
    ensures
        a == b,
{
    let x = prefix + text::decimal_text(a);
    let y = prefix + text::decimal_text(b);
    assert(x.skip(prefix.len() as int) =~= text::decimal_text(a));
    assert(y.skip(prefix.len() as int) =~= text::decimal_text(b));
    text::lemma_decimal_text_reads_back(a);
    text::lemma_decimal_text_reads_back(b);
}

/// Whether a record bears a name.
pub open spec fn bears(record: JsonView, id: Seq<char>) -> bool {
    id.len() > 0 && json::member(record, "uuid"@) == Some(JsonView::Text(id))
}

/// A record keeps the name it bears. Records without one are named after their
/// lines, so that two of them never share a name, and a line always gives the
/// same one.
pub proof fn lemma_records_are_told_apart(
    a: u64,
    b: u64,
    one: JsonView,
    other: JsonView,
    id: Seq<char>,
)
    ensures
        bears(one, id) ==> record_id(a, one) == id,
        (forall|name: Seq<char>| !bears(one, name)) && (forall|name: Seq<char>|
            !bears(other, name)) ==> (record_id(a, one) == record_id(b, other) <==> a == b),
{
    if (forall|name: Seq<char>| !bears(one, name)) && (forall|name: Seq<char>|
        !bears(other, name)) {
        if let Some(JsonView::Text(name)) = json::member(one, "uuid"@) {
            assert(!bears(one, name));
        }
        if let Some(JsonView::Text(name)) = json::member(other, "uuid"@) {
            assert(!bears(other, name));
        }
        if record_id(a, one) == record_id(b, other) {
            lemma_numbered_names_differ("transcript:"@, a as nat, b as nat);
        }
    }
}

/// A line that is no JSON is named by its number, with what is wrong with it.
pub proof fn lemma_unreadable_line_is_named(line_number: u64, why: Seq<char>)
    ensures
        invalid_json(line_number, why).message == "invalid JSON on line "@ + text::decimal_text(
            line_number as nat,
        ) + ": "@ + why,
{
    assert(invalid_json(line_number, why).message =~= "invalid JSON on line "@
        + text::decimal_text(line_number as nat) + ": "@ + why);
}

}
