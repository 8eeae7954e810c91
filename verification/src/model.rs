//! Turns of a conversation.

use crate::style;
use crate::style::MessagePresentation;
use crate::text;
use vstd::prelude::*;

verus! {

/// An image that goes with a message.
#[derive(Clone, Debug, PartialEq, Eq)]
pub struct Attachment {
    pub id: String,
    pub display: String,
    pub native_path: Option<String>,
}

pub ghost struct AttachmentView {
    pub id: Seq<char>,
    pub display: Seq<char>,
    pub native_path: Option<Seq<char>>,
}

impl View for Attachment {
    type V = AttachmentView;

    open spec fn view(&self) -> AttachmentView {
        AttachmentView {
            id: self.id@,
            display: self.display@,
            native_path: text::optional(self.native_path),
        }
    }
}

impl Attachment {
    pub fn copied(&self) -> (r: Self)
        ensures
            r@ == self@,
    {
        Attachment {
            id: self.id.clone(),
            display: self.display.clone(),
            native_path: text::copy_optional(&self.native_path),
        }
    }
}

/// What a list of attachments says.
pub open spec fn attachment_views(v: Seq<Attachment>) -> Seq<AttachmentView> {
    Seq::new(v.len(), |i: int| v[i]@)
}

pub fn copy_attachments(v: &Vec<Attachment>) -> (r: Vec<Attachment>)
    ensures
        attachment_views(r@) == attachment_views(v@),
{
    let mut r: Vec<Attachment> = Vec::new();
    let mut i: usize = 0;
    while i < v.len()
        invariant
            i <= v@.len(),
            r@.len() == i,
            forall|k: int| 0 <= k < i ==> (#[trigger] r@[k])@ == v@[k]@,
        decreases v@.len() - i,
    {
        r.push(v[i].copied());
        i = i + 1;
    }
    assert(attachment_views(r@) =~= attachment_views(v@));
    r
}

/// A prompt or an answer.
#[derive(Clone, Debug, PartialEq, Eq)]
pub struct Message {
    pub stable_id: String,
    pub text: String,
    pub presentation: MessagePresentation,
    pub attachments: Vec<Attachment>,
    pub timestamp_ms: Option<u64>,
}

pub ghost struct MessageView {
    pub stable_id: Seq<char>,
    pub text: Seq<char>,
    pub presentation: style::PresentationView,
    pub attachments: Seq<AttachmentView>,
    pub timestamp_ms: Option<u64>,
}

impl View for Message {
    type V = MessageView;

    open spec fn view(&self) -> MessageView {
        MessageView {
            stable_id: self.stable_id@,
            text: self.text@,
            presentation: self.presentation@,
            attachments: attachment_views(self.attachments@),
            timestamp_ms: self.timestamp_ms,
        }
    }
}

pub fn copy_presentation(p: &MessagePresentation) -> (r: MessagePresentation)
    ensures
        r@ == p@,
{
    match p {
        MessagePresentation::Plain => MessagePresentation::Plain,
        MessagePresentation::MarkdownFallback => MessagePresentation::MarkdownFallback,
        MessagePresentation::NativeAnsi(styled) => MessagePresentation::NativeAnsi(styled.copied()),
    }
}

impl Message {
    /// A message that is shown as it is written.
    pub fn text(stable_id: &str, text: &str, timestamp_ms: Option<u64>) -> (r: Self)
        ensures
            r@ == (MessageView {
                stable_id: stable_id@,
                text: text@,
                presentation: style::PresentationView::Plain,
                attachments: Seq::empty(),
                timestamp_ms,
            }),
    {
        let attachments: Vec<Attachment> = Vec::new();
        assert(attachment_views(attachments@) =~= Seq::<AttachmentView>::empty());
        Message {
            stable_id: stable_id.to_owned(),
            text: text.to_owned(),
            presentation: MessagePresentation::Plain,
            attachments,
            timestamp_ms,
        }
    }

    /// A final answer, shown as Markdown until its native styles are known.
    pub fn final_text(stable_id: &str, text: &str, timestamp_ms: Option<u64>) -> (r: Self)
        ensures
            r@ == (MessageView {
                stable_id: stable_id@,
                text: text@,
                presentation: style::PresentationView::MarkdownFallback,
                attachments: Seq::empty(),
                timestamp_ms,
            }),
    {
        let attachments: Vec<Attachment> = Vec::new();
        assert(attachment_views(attachments@) =~= Seq::<AttachmentView>::empty());
        Message {
            stable_id: stable_id.to_owned(),
            text: text.to_owned(),
            presentation: MessagePresentation::MarkdownFallback,
            attachments,
            timestamp_ms,
        }
    }

    pub fn copied(&self) -> (r: Self)
        ensures
            r@ == self@,
    {
        Message {
            stable_id: self.stable_id.clone(),
            text: self.text.clone(),
            presentation: copy_presentation(&self.presentation),
            attachments: copy_attachments(&self.attachments),
            timestamp_ms: self.timestamp_ms,
        }
    }
}

/// How far a prompt got.
#[derive(Clone, Debug, PartialEq, Eq)]
pub enum Delivery {
    /// The agent's own transcript holds it.
    Native,
    /// It was sent and has not shown up in the transcript yet.
    Optimistic,
    /// It could not be sent.
    Failed { reason: String },
}

pub ghost enum DeliveryView {
    Native,
    Optimistic,
    Failed { reason: Seq<char> },
}

impl View for Delivery {
    type V = DeliveryView;

    open spec fn view(&self) -> DeliveryView {
        match self {
            Delivery::Native => DeliveryView::Native,
            Delivery::Optimistic => DeliveryView::Optimistic,
            Delivery::Failed { reason } => DeliveryView::Failed { reason: reason@ },
        }
    }
}

impl Delivery {
    pub fn copied(&self) -> (r: Self)
        ensures
            r@ == self@,
    {
        match self {
            Delivery::Native => Delivery::Native,
            Delivery::Optimistic => Delivery::Optimistic,
            Delivery::Failed { reason } => Delivery::Failed { reason: reason.clone() },
        }
    }
}

/// A prompt and the answer to it.
#[derive(Clone, Debug, PartialEq, Eq)]
pub struct Turn {
    pub prompt: Message,
    pub delivery: Delivery,
    pub final_answer: Option<Message>,
}

pub ghost struct TurnView {
    pub prompt: MessageView,
    pub delivery: DeliveryView,
    pub final_answer: Option<MessageView>,
}

/// What an optional message says.
pub open spec fn optional_message(m: Option<Message>) -> Option<MessageView> {
    match m {
        Some(message) => Some(message@),
        None => None,
    }
}

impl View for Turn {
    type V = TurnView;

    open spec fn view(&self) -> TurnView {
        TurnView {
            prompt: self.prompt@,
            delivery: self.delivery@,
            final_answer: optional_message(self.final_answer),
        }
    }
}

impl Turn {
    pub fn copied(&self) -> (r: Self)
        ensures
            r@ == self@,
    {
        Turn {
            prompt: self.prompt.copied(),
            delivery: self.delivery.copied(),
            final_answer: match &self.final_answer {
                Some(answer) => Some(answer.copied()),
                None => None,
            },
        }
    }
}

/// What a list of turns says.
pub open spec fn turn_views(v: Seq<Turn>) -> Seq<TurnView> {
    Seq::new(v.len(), |i: int| v[i]@)
}

/// What a transcript adds to a conversation.
#[derive(Clone, Debug, PartialEq, Eq)]
pub enum ConversationEvent {
    User(Message),
    Final(Message),
}

pub ghost enum EventView {
    User(MessageView),
    Final(MessageView),
}

impl View for ConversationEvent {
    type V = EventView;

    open spec fn view(&self) -> EventView {
        match self {
            ConversationEvent::User(message) => EventView::User(message@),
            ConversationEvent::Final(message) => EventView::Final(message@),
        }
    }
}

}
