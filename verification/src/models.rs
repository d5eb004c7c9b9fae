use vstd::prelude::*;
use crate::text::{duplicate, text_of};

verus! {

/// A stored message as the listing query reads it: every column but the
/// two bodies.
#[derive(Clone, Debug, PartialEq)]
pub struct MessageLite {
    pub id: Option<i32>,
    pub message_id: String,
    pub account: String,
    pub parent_id: Option<String>,
    pub subject: Option<String>,
    pub sent_at: Option<String>,
    pub message_from: Option<String>,
    pub pinned_at: Option<String>,
    pub done_at: Option<String>,
    pub reminder_at: Option<String>,
    pub folders: Option<String>,
    pub content: Option<String>,
    pub message_to: Option<String>,
    pub message_cc: Option<String>,
    pub message_bcc: Option<String>,
    pub parent_thread_key: Option<String>,
    pub sent_date: Option<i64>,
}

/// The normalized, queryable record of one message.
///
/// `parent_id` keeps the raw reply reference of the message, while
/// `parent_thread_key` is the key that groups it with its conversation.
/// `sent_at` is the date header as written and `sent_date` the same instant
/// in seconds since the epoch, where the header could be read.
#[derive(Clone, Debug, PartialEq)]
pub struct Message {
    pub id: Option<i32>,
    pub message_id: String,
    pub account: String,
    pub parent_id: Option<String>,
    pub subject: Option<String>,
    pub sent_at: Option<String>,
    pub message_from: Option<String>,
    pub pinned_at: Option<String>,
    pub done_at: Option<String>,
    pub reminder_at: Option<String>,
    pub folders: Option<String>,
    pub content: Option<String>,
    pub text_format: Option<String>,
    pub html_format: Option<String>,
    pub message_to: Option<String>,
    pub message_cc: Option<String>,
    pub message_bcc: Option<String>,
    pub parent_thread_key: Option<String>,
    pub sent_date: Option<i64>,
}

/// A normalized record that has no row id yet.
#[derive(Clone, Debug, PartialEq)]
pub struct NewMessage {
    pub message_id: String,
    pub account: String,
    pub parent_id: Option<String>,
    pub subject: Option<String>,
    pub sent_at: Option<String>,
    pub message_from: Option<String>,
    pub pinned_at: Option<String>,
    pub done_at: Option<String>,
    pub reminder_at: Option<String>,
    pub folders: Option<String>,
    pub content: Option<String>,
    pub text_format: Option<String>,
    pub html_format: Option<String>,
    pub message_to: Option<String>,
    pub message_cc: Option<String>,
    pub message_bcc: Option<String>,
    pub parent_thread_key: Option<String>,
}

/// The bytes of one message exactly as they came over the wire.
#[derive(Clone, Debug, PartialEq)]
pub struct RawMessage {
    pub id: Option<i32>,
    pub message_id: Option<String>,
    pub message: Option<Vec<u8>>,
}

/// Wire bytes that have no row id yet.
#[derive(Clone, Debug, PartialEq)]
pub struct NewRawMessage {
    pub message_id: String,
    pub message: Vec<u8>,
}

/// The mathematical value of a [`Message`]: the same fields with every
/// string taken as its sequence of characters.
pub struct MessageView {
    pub id: Option<i32>,
    pub message_id: Seq<char>,
    pub account: Seq<char>,
    pub parent_id: Option<Seq<char>>,
    pub subject: Option<Seq<char>>,
    pub sent_at: Option<Seq<char>>,
    pub message_from: Option<Seq<char>>,
    pub pinned_at: Option<Seq<char>>,
    pub done_at: Option<Seq<char>>,
    pub reminder_at: Option<Seq<char>>,
    pub folders: Option<Seq<char>>,
    pub content: Option<Seq<char>>,
    pub text_format: Option<Seq<char>>,
    pub html_format: Option<Seq<char>>,
    pub message_to: Option<Seq<char>>,
    pub message_cc: Option<Seq<char>>,
    pub message_bcc: Option<Seq<char>>,
    pub parent_thread_key: Option<Seq<char>>,
    pub sent_date: Option<i64>,
}

/// The mathematical value of a [`RawMessage`].
pub struct RawMessageView {
    pub id: Option<i32>,
    pub message_id: Option<Seq<char>>,
    pub message: Option<Seq<u8>>,
}

impl View for Message {
    type V = MessageView;

    open spec fn view(&self) -> MessageView {
        MessageView {
            id: self.id,
            message_id: self.message_id@,
            account: self.account@,
            parent_id: text_of(self.parent_id),
            subject: text_of(self.subject),
            sent_at: text_of(self.sent_at),
            message_from: text_of(self.message_from),
            pinned_at: text_of(self.pinned_at),
            done_at: text_of(self.done_at),
            reminder_at: text_of(self.reminder_at),
            folders: text_of(self.folders),
            content: text_of(self.content),
            text_format: text_of(self.text_format),
            html_format: text_of(self.html_format),
            message_to: text_of(self.message_to),
            message_cc: text_of(self.message_cc),
            message_bcc: text_of(self.message_bcc),
            parent_thread_key: text_of(self.parent_thread_key),
            sent_date: self.sent_date,
        }
    }
}

impl DeepView for Message {
    type V = MessageView;

    open spec fn deep_view(&self) -> MessageView {
        self@
    }
}

impl View for RawMessage {
    type V = RawMessageView;

    open spec fn view(&self) -> RawMessageView {
        RawMessageView {
            id: self.id,
            message_id: text_of(self.message_id),
            message: match self.message {
                Some(bytes) => Some(bytes@),
                None => None,
            },
        }
    }
}

impl DeepView for RawMessage {
    type V = RawMessageView;

    open spec fn deep_view(&self) -> RawMessageView {
        self@
    }
}

/// The record in which every optional field is absent and both required
/// strings are empty.
pub open spec fn empty_message() -> MessageView {
    MessageView {
        id: None,
        message_id: Seq::empty(),
        account: Seq::empty(),
        parent_id: None,
        subject: None,
        sent_at: None,
        message_from: None,
        pinned_at: None,
        done_at: None,
        reminder_at: None,
        folders: None,
        content: None,
        text_format: None,
        html_format: None,
        message_to: None,
        message_cc: None,
        message_bcc: None,
        parent_thread_key: None,
        sent_date: None,
    }
}

impl Default for Message {
    fn default() -> (m: Message)
        ensures
            m@ == empty_message(),
    {
        Message {
            id: None,
            message_id: String::new(),
            account: String::new(),
            parent_id: None,
            subject: None,
            sent_at: None,
            message_from: None,
            pinned_at: None,
            done_at: None,
            reminder_at: None,
            folders: None,
            content: None,
            text_format: None,
            html_format: None,
            message_to: None,
            message_cc: None,
            message_bcc: None,
            parent_thread_key: None,
            sent_date: None,
        }
    }
}

impl Default for RawMessage {
    fn default() -> (r: RawMessage)
        ensures
            r@ == (RawMessageView { id: None, message_id: None, message: None }),
    {
        RawMessage { id: None, message_id: None, message: None }
    }
}

impl Message {
    /// A copy of this record, field for field.
    pub fn duplicate(&self) -> (m: Message)
        ensures
            m == *self,
    {
        Message {
            id: self.id,
            message_id: self.message_id.clone(),
            account: self.account.clone(),
            parent_id: duplicate(&self.parent_id),
            subject: duplicate(&self.subject),
            sent_at: duplicate(&self.sent_at),
            message_from: duplicate(&self.message_from),
            pinned_at: duplicate(&self.pinned_at),
            done_at: duplicate(&self.done_at),
            reminder_at: duplicate(&self.reminder_at),
            folders: duplicate(&self.folders),
            content: duplicate(&self.content),
            text_format: duplicate(&self.text_format),
            html_format: duplicate(&self.html_format),
            message_to: duplicate(&self.message_to),
            message_cc: duplicate(&self.message_cc),
            message_bcc: duplicate(&self.message_bcc),
            parent_thread_key: duplicate(&self.parent_thread_key),
            sent_date: self.sent_date,
        }
    }
}

/// What the listing query read of a message, as a full record: the fields
/// that were read are kept and `content` and the two bodies, which the
/// listing does not read, are absent.
pub open spec fn widened(value: MessageLite) -> Message {
    Message {
        id: value.id,
        message_id: value.message_id,
        account: value.account,
        parent_id: value.parent_id,
        subject: value.subject,
        sent_at: value.sent_at,
        message_from: value.message_from,
        pinned_at: value.pinned_at,
        done_at: value.done_at,
        reminder_at: value.reminder_at,
        folders: value.folders,
        content: None,
        text_format: None,
        html_format: None,
        message_to: value.message_to,
        message_cc: value.message_cc,
        message_bcc: value.message_bcc,
        parent_thread_key: value.parent_thread_key,
        sent_date: value.sent_date,
    }
}

impl From<MessageLite> for Message {
    fn from(value: MessageLite) -> (m: Message) {
        Message {
            id: value.id,
            message_id: value.message_id,
            account: value.account,
            parent_id: value.parent_id,
            subject: value.subject,
            sent_at: value.sent_at,
            message_from: value.message_from,
            pinned_at: value.pinned_at,
            done_at: value.done_at,
            reminder_at: value.reminder_at,
            folders: value.folders,
            content: None,
            text_format: None,
            html_format: None,
            message_to: value.message_to,
            message_cc: value.message_cc,
            message_bcc: value.message_bcc,
            parent_thread_key: value.parent_thread_key,
            sent_date: value.sent_date,
        }
    }
}

impl vstd::std_specs::convert::FromSpecImpl<MessageLite> for Message {
    open spec fn obeys_from_spec() -> bool {
        true
    }

    open spec fn from_spec(value: MessageLite) -> Message {
        widened(value)
    }
}

/// What tells the conversation of a record: its thread key or, where it
/// has none, its own identity. A record without a key shares its
/// conversation with no record that has one.
pub open spec fn group_key(m: MessageView) -> (bool, Seq<char>) {
    match m.parent_thread_key {
        Some(key) => (true, key),
        None => (false, m.message_id),
    }
}

/// Whether two records belong to the same conversation.
pub fn same_thread(a: &Message, b: &Message) -> (r: bool)
    ensures
        r == (group_key(a@) == group_key(b@)),
{
    match (&a.parent_thread_key, &b.parent_thread_key) {
        (Some(x), Some(y)) => {
            let same = *x == *y;
            assert(same == (group_key(a@) == group_key(b@))) by {
                assert(group_key(a@).1 == x@ && group_key(b@).1 == y@);
            }
            same
        },
        (None, None) => {
            let same = a.message_id == b.message_id;
            assert(same == (group_key(a@) == group_key(b@))) by {
                assert(group_key(a@).1 == a.message_id@ && group_key(b@).1 == b.message_id@);
            }
            same
        },
        (Some(_), None) => false,
        (None, Some(_)) => false,
    }
}

} // verus!
