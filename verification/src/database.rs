use vstd::prelude::*;
use std::collections::HashSet;
use crate::models::{Message, MessageView, RawMessage, RawMessageView};
use crate::text::duplicate;

verus! {

/// Why the store turned a request down.
#[derive(Clone, Copy, Debug, PartialEq, Eq)]
pub enum StoreError {
    /// A record with the same message identity is already stored.
    Conflict,
    /// The storage behind the store cannot be reached.
    Unavailable,
}

/// What a listing is asked to show.
#[derive(Clone, Debug, PartialEq)]
pub struct MessageFilter {
    pub query: Option<String>,
    pub pinned: bool,
    pub folder: bool,
    pub snoozed: bool,
    pub archived: bool,
}

/// What the reader has asked the listing to show, and what is unfolded
/// in it.
#[derive(Clone, Debug, PartialEq)]
pub struct ViewFilter {
    pub query: Option<String>,
    pub pinned: bool,
    pub expanded_email: Option<HashSet<String>>,
    pub expanded_thread: Option<HashSet<String>>,
    pub folder: Option<String>,
    pub account: Option<String>,
}

/// The filter that asks for what a view searches for, and restricts
/// nothing else.
pub open spec fn filter_of(value: &ViewFilter) -> MessageFilter {
    MessageFilter {
        query: value.query,
        pinned: false,
        folder: false,
        snoozed: false,
        archived: false,
    }
}

impl<'a> From<&'a ViewFilter> for MessageFilter {
    fn from(value: &'a ViewFilter) -> (r: MessageFilter) {
        MessageFilter {
            query: duplicate(&value.query),
            pinned: false,
            folder: false,
            snoozed: false,
            archived: false,
        }
    }
}

impl<'a> vstd::std_specs::convert::FromSpecImpl<&'a ViewFilter> for MessageFilter {
    open spec fn obeys_from_spec() -> bool {
        true
    }

    open spec fn from_spec(value: &'a ViewFilter) -> MessageFilter {
        filter_of(value)
    }
}

/// The query that a search field asks for: its text, and none where the
/// field is empty.
pub fn search_query(text: String) -> (r: Option<String>)
    ensures
        r == if text@.len() > 0 {
            Some(text)
        } else {
            None
        },
{
    if text.as_str().is_empty() {
        None
    } else {
        Some(text)
    }
}

/// The number of conversations that one listing shows at most.
pub const PAGE_SIZE: usize = 100;

/// A message as the store keeps it: the wire bytes beside the record.
struct StoredMessage {
    raw: RawMessage,
    message: Message,
}

/// The messages that were ingested, in the order in which they came.
/// No two of them have the same message identity.
pub struct MessageStore {
    entries: Vec<StoredMessage>,
}

/// Some record in `messages` has the identity `id`.
pub open spec fn holds_identity(messages: Seq<MessageView>, id: Seq<char>) -> bool {
    exists|i: int| 0 <= i < messages.len() && #[trigger] messages[i].message_id == id
}

/// No two records in `messages` have the same identity.
pub open spec fn distinct_identities(messages: Seq<MessageView>) -> bool {
    forall|i: int, j: int|
        0 <= i < j < messages.len() ==> #[trigger] messages[i].message_id
            != #[trigger] messages[j].message_id
}

/// The record with the identity `id` that was stored last.
pub open spec fn latest_with_identity(messages: Seq<MessageView>, id: Seq<char>) -> Option<
    MessageView,
>
    decreases messages.len(),
{
    if messages.len() == 0 {
        None
    } else if messages.last().message_id == id {
        Some(messages.last())
    } else {
        latest_with_identity(messages.drop_last(), id)
    }
}

/// A lookup finds a record exactly where one with that identity is stored.
pub proof fn lemma_latest_iff_held(messages: Seq<MessageView>, id: Seq<char>)
    ensures
        latest_with_identity(messages, id) is Some <==> holds_identity(messages, id),
        latest_with_identity(messages, id) matches Some(m) ==> m.message_id == id
            && messages.contains(m),
    decreases messages.len(),
{
    if messages.len() > 0 {
        let rest = messages.drop_last();
        lemma_latest_iff_held(rest, id);
        if messages.last().message_id == id {
            assert(messages[messages.len() - 1].message_id == id);
        } else {
            if holds_identity(rest, id) {
                let i = choose|i: int| 0 <= i < rest.len() && #[trigger] rest[i].message_id == id;
                assert(messages[i].message_id == id);
                let m = latest_with_identity(rest, id)->0;
                let k = choose|k: int| 0 <= k < rest.len() && rest[k] == m;
                assert(messages[k] == m);
            }
            if holds_identity(messages, id) {
                let i = choose|i: int|
                    0 <= i < messages.len() && #[trigger] messages[i].message_id == id;
                assert(rest[i].message_id == id);
            }
        }
    }
}

impl MessageStore {
    /// The records of the store, in the order in which they were stored.
    pub closed spec fn view(&self) -> Seq<MessageView> {
        Seq::new(self.entries@.len(), |i: int| self.entries@[i].message@)
    }

    /// The wire bytes of the store, each at the place of its record.
    pub closed spec fn raws(&self) -> Seq<RawMessageView> {
        Seq::new(self.entries@.len(), |i: int| self.entries@[i].raw@)
    }

    #[verifier::type_invariant]
    spec fn well_formed(&self) -> bool {
        distinct_identities(self@)
    }

    /// Recalls what holds of every store: the wire bytes stand beside
    /// the records, one for one, and no identity occurs twice.
    pub fn recall_shape(&self)
        ensures
            self.raws().len() == self@.len(),
            distinct_identities(self@),
    {
        proof {
            use_type_invariant(self);
        }
    }

    /// A store that holds nothing.
    pub fn new() -> (store: MessageStore)
        ensures
            store@ == Seq::<MessageView>::empty(),
            store.raws() == Seq::<RawMessageView>::empty(),
    {
        MessageStore { entries: Vec::new() }
    }

    /// The number of records in the store.
    pub fn len(&self) -> (n: usize)
        ensures
            n == self@.len(),
    {
        self.entries.len()
    }

    /// The wire bytes and the record that were stored as number `index`,
    /// counting from zero.
    pub fn get(&self, index: usize) -> (r: Option<(&RawMessage, &Message)>)
        ensures
            match r {
                Some(pair) => index < self@.len() && pair.0@ == self.raws()[index as int]
                    && pair.1@ == self@[index as int],
                None => index >= self@.len(),
            },
    {
        if index < self.entries.len() {
            Some((&self.entries[index].raw, &self.entries[index].message))
        } else {
            None
        }
    }

    /// A copy of every record, in the order in which they were stored.
    pub fn records(&self) -> (r: Vec<Message>)
        ensures
            r.deep_view() == self@,
    {
        let mut out: Vec<Message> = Vec::new();
        let mut i: usize = 0;
        while i < self.entries.len()
            invariant
                i <= self.entries.len(),
                out.deep_view() == self@.take(i as int),
            decreases self.entries.len() - i,
        {
            let ghost before = out.deep_view();
            out.push(self.entries[i].message.duplicate());
            assert(out.deep_view() =~= before.push(self@[i as int]));
            assert(self@.take(i + 1) =~= before.push(self@[i as int]));
            i = i + 1;
        }
        assert(self@.take(i as int) == self@);
        out
    }

    /// The record with the identity `id`, where the store holds one.
    pub fn find_by_identity(&self, id: &str) -> (r: Option<&Message>)
        ensures
            match r {
                Some(m) => latest_with_identity(self@, id@) == Some(m@),
                None => latest_with_identity(self@, id@) is None,
            },
    {
        let wanted = id.to_owned();
        let mut i: usize = self.entries.len();
        assert(self@.take(i as int) == self@);
        while i > 0
            invariant
                i <= self.entries.len(),
                wanted@ == id@,
                latest_with_identity(self@, id@) == latest_with_identity(
                    self@.take(i as int),
                    id@,
                ),
            decreases i,
        {
            assert(self@.take(i as int).drop_last() == self@.take(i - 1));
            if self.entries[i - 1].message.message_id == wanted {
                return Some(&self.entries[i - 1].message);
            }
            i = i - 1;
        }
        None
    }
}

/// Stores the wire bytes and the record of one message together, or
/// neither. A record whose identity the store already holds is turned
/// down as a conflict, and the store stays as it was.
pub fn save_records(store: &mut MessageStore, raw: RawMessage, record: Message) -> (r: Result<
    (),
    StoreError,
>)
    ensures
        match r {
            Ok(()) => {
                &&& !holds_identity(old(store)@, record@.message_id)
                &&& final(store)@ == old(store)@.push(record@)
                &&& final(store).raws() == old(store).raws().push(raw@)
            },
            Err(e) => {
                &&& e == StoreError::Conflict
                &&& holds_identity(old(store)@, record@.message_id)
                &&& final(store)@ == old(store)@
                &&& final(store).raws() == old(store).raws()
            },
        },
{
    let held = store.find_by_identity(record.message_id.as_str()).is_some();
    proof {
        lemma_latest_iff_held(store@, record@.message_id);
        use_type_invariant(&*store);
    }
    if held {
        return Err(StoreError::Conflict);
    }
    let ghost before = store@;
    let ghost raws_before = store.raws();
    let mut taken = MessageStore::new();
    std::mem::swap(store, &mut taken);
    let mut entries = taken.entries;
    entries.push(StoredMessage { raw, message: record });
    let ghost after = Seq::new(entries@.len(), |i: int| entries@[i].message@);
    proof {
        assert(after =~= before.push(record@));
        assert forall|i: int, j: int| 0 <= i < j < after.len() implies #[trigger] after[i].message_id
            != #[trigger] after[j].message_id by {
            if j < before.len() {
                assert(before[i].message_id != before[j].message_id);
            } else {
                assert(before[i].message_id != record@.message_id);
            }
        }
    }
    *store = MessageStore { entries };
    proof {
        assert(store@ =~= before.push(record@));
        assert(store.raws() =~= raws_before.push(raw@));
    }
    Ok(())
}

/// The two bodies that are shown for a message, each empty where the
/// record has none.
pub open spec fn shown_bodies(m: MessageView) -> (Seq<char>, Seq<char>) {
    (
        match m.text_format {
            Some(text) => text,
            None => Seq::empty(),
        },
        match m.html_format {
            Some(html) => html,
            None => Seq::empty(),
        },
    )
}

/// The text body and the html body of the message with the identity
/// `message_id`, or nothing where the store holds no such message.
pub fn get_message_id_content(store: &MessageStore, message_id: &str) -> (r: Option<
    (String, String),
>)
    ensures
        match r {
            Some(bodies) => latest_with_identity(store@, message_id@) matches Some(m) && (
                bodies.0@,
                bodies.1@,
            ) == shown_bodies(m),
            None => latest_with_identity(store@, message_id@) is None,
        },
{
    match store.find_by_identity(message_id) {
        Some(m) => {
            let text = match &m.text_format {
                Some(text) => text.clone(),
                None => String::new(),
            };
            let html = match &m.html_format {
                Some(html) => html.clone(),
                None => String::new(),
            };
            Some((text, html))
        },
        None => None,
    }
}

} // verus!
