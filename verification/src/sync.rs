use vstd::prelude::*;
use crate::config::AccountConfig;
use crate::database::{
    distinct_identities, holds_identity, latest_with_identity, lemma_latest_iff_held, save_records,
    MessageStore, StoreError,
};
use crate::dates::{date_int, rfc2822_timestamp};
use crate::models::{Message, MessageView, RawMessage, RawMessageView};
use crate::parser::{
    extracted, header_value, mail_read, parse, HeaderView, ParseError, ParsedMessage,
    ParsedMessageView,
};
use crate::text::{duplicate, text_of};
use crate::threading::{own_key, parent_of, parent_reference, parent_thread_key, resolved_key};

verus! {

/// The identity of a message: what its `Message-ID` header holds, and a
/// fixed text where it has none.
pub open spec fn identity_of(headers: Seq<HeaderView>) -> Seq<char> {
    match header_value(headers, "Message-ID"@) {
        Some(id) => id,
        None => "no id found"@,
    }
}

/// The record of a parsed message for the account `account`, grouped
/// under `key`. The searchable content is the text body or, where there
/// is none, the html body.
pub open spec fn record_of(
    parsed: ParsedMessageView,
    account: Seq<char>,
    key: Option<Seq<char>>,
) -> MessageView {
    MessageView {
        id: None,
        message_id: identity_of(parsed.headers),
        account: account,
        parent_id: parent_reference(parsed.headers),
        subject: header_value(parsed.headers, "Subject"@),
        sent_at: header_value(parsed.headers, "Date"@),
        message_from: header_value(parsed.headers, "From"@),
        pinned_at: None,
        done_at: None,
        reminder_at: None,
        folders: Some("INBOX"@),
        content: match parsed.text_body {
            Some(text) => Some(text),
            None => parsed.html_body,
        },
        text_format: parsed.text_body,
        html_format: parsed.html_body,
        message_to: header_value(parsed.headers, "To"@),
        message_cc: header_value(parsed.headers, "Cc"@),
        message_bcc: header_value(parsed.headers, "Bcc"@),
        parent_thread_key: key,
        sent_date: match header_value(parsed.headers, "Date"@) {
            Some(date) => rfc2822_timestamp(date),
            None => None,
        },
    }
}

/// The wire bytes of a message under its identity.
pub open spec fn raw_record_of(parsed: ParsedMessageView, raw: Seq<u8>) -> RawMessageView {
    RawMessageView { id: None, message_id: Some(identity_of(parsed.headers)), message: Some(raw) }
}

/// The pair of records with which a message would be stored in a store
/// that holds `stored`, nothing where the message cannot be parsed.
pub open spec fn records_of(raw: Seq<u8>, account: Seq<char>, stored: Seq<MessageView>) -> Option<
    (RawMessageView, MessageView),
> {
    match mail_read(raw) {
        Some(mail) => {
            let parsed = extracted(mail);
            Some(
                (
                    raw_record_of(parsed, raw),
                    record_of(parsed, account, resolved_key(parsed.headers, stored)),
                ),
            )
        },
        None => None,
    }
}

/// Builds the pair of records of a parsed message.
pub fn normalize(parsed: &ParsedMessage, raw: &[u8], account: &str, key: Option<String>) -> (r: (
    RawMessage,
    Message,
))
    ensures
        r.0@ == raw_record_of(parsed@, raw@),
        r.1@ == record_of(parsed@, account@, text_of(key)),
{
    let message_id = match parsed.header("Message-ID") {
        Some(id) => id,
        None => "no id found".to_owned(),
    };
    let sent_at = parsed.header("Date");
    let sent_date = match &sent_at {
        Some(date) => date_int(date.as_str()),
        None => None,
    };
    let content = match &parsed.text_body {
        Some(text) => Some(text.clone()),
        None => duplicate(&parsed.html_body),
    };
    let record = Message {
        id: None,
        message_id: message_id.clone(),
        account: account.to_owned(),
        parent_id: parent_of(&parsed.headers),
        subject: parsed.header("Subject"),
        sent_at,
        message_from: parsed.header("From"),
        pinned_at: None,
        done_at: None,
        reminder_at: None,
        folders: Some("INBOX".to_owned()),
        content,
        text_format: duplicate(&parsed.text_body),
        html_format: duplicate(&parsed.html_body),
        message_to: parsed.header("To"),
        message_cc: parsed.header("Cc"),
        message_bcc: parsed.header("Bcc"),
        parent_thread_key: key,
        sent_date,
    };
    let raw_record = RawMessage {
        id: None,
        message_id: Some(message_id),
        message: Some(vstd::slice::slice_to_vec(raw)),
    };
    (raw_record, record)
}

/// Turns the bytes of one message into the pair of records under which
/// it would be stored: parses them, resolves the thread key against
/// `store`, and fills in the record for `account`. Gives nothing
/// exactly where the bytes cannot be parsed.
pub fn message_to_db(message: &[u8], account: &AccountConfig, store: &MessageStore) -> (r: Option<
    (RawMessage, Message),
>)
    ensures
        match r {
            Some(pair) => records_of(message@, account.name@, store@) == Some((pair.0@, pair.1@)),
            None => records_of(message@, account.name@, store@) is None,
        },
{
    match parse(message) {
        Ok(parsed) => {
            let key = parent_thread_key(&parsed.headers, store);
            Some(normalize(&parsed, message, account.name.as_str(), key))
        },
        Err(_) => None,
    }
}

/// Why a message was not ingested.
#[derive(Clone, Copy, Debug, PartialEq, Eq)]
pub enum IngestError {
    /// The message could not be parsed.
    Parse(ParseError),
    /// The store turned the message down.
    Store(StoreError),
}

impl IngestError {
    /// Whether a run has to stop on this failure. A message that
    /// cannot be parsed and a message that is already stored are skipped
    /// and the run goes on; storage that cannot be reached ends the run.
    pub fn is_fatal(&self) -> (r: bool)
        ensures
            r == (*self == IngestError::Store(StoreError::Unavailable)),
    {
        match self {
            IngestError::Store(StoreError::Unavailable) => true,
            IngestError::Store(StoreError::Conflict) => false,
            IngestError::Parse(_) => false,
        }
    }
}

/// What the store holds after one message went through the pipeline,
/// and how that went: a message that cannot be parsed and a message whose
/// identity is already stored leave the store as it was.
pub open spec fn ingested(stored: Seq<MessageView>, raw: Seq<u8>, account: Seq<char>) -> (
    Seq<MessageView>,
    Result<(), IngestError>,
) {
    match records_of(raw, account, stored) {
        None => (stored, Err(IngestError::Parse(ParseError::Malformed))),
        Some(pair) => if holds_identity(stored, pair.1.message_id) {
            (stored, Err(IngestError::Store(StoreError::Conflict)))
        } else {
            (stored.push(pair.1), Ok(()))
        },
    }
}

/// The wire bytes that the store holds after one message went through
/// the pipeline: where the message is stored, its bytes under its
/// identity come behind those that were held, and where it is not, they
/// stay as they were.
pub open spec fn ingested_raws(
    stored: Seq<MessageView>,
    raws: Seq<RawMessageView>,
    raw: Seq<u8>,
    account: Seq<char>,
) -> Seq<RawMessageView> {
    match records_of(raw, account, stored) {
        None => raws,
        Some(pair) => if holds_identity(stored, pair.1.message_id) {
            raws
        } else {
            raws.push(pair.0)
        },
    }
}

/// What the store holds after a batch of messages went through the
/// pipeline one after the other.
pub open spec fn ingested_all(stored: Seq<MessageView>, batch: Seq<Seq<u8>>, account: Seq<char>) -> Seq<
    MessageView,
>
    decreases batch.len(),
{
    if batch.len() == 0 {
        stored
    } else {
        ingested(ingested_all(stored, batch.drop_last(), account), batch.last(), account).0
    }
}

/// The wire bytes that the store holds after a batch of messages went
/// through the pipeline one after the other.
pub open spec fn ingested_raws_all(
    stored: Seq<MessageView>,
    raws: Seq<RawMessageView>,
    batch: Seq<Seq<u8>>,
    account: Seq<char>,
) -> Seq<RawMessageView>
    decreases batch.len(),
{
    if batch.len() == 0 {
        raws
    } else {
        ingested_raws(
            ingested_all(stored, batch.drop_last(), account),
            ingested_raws_all(stored, raws, batch.drop_last(), account),
            batch.last(),
            account,
        )
    }
}

/// Takes one message through the pipeline: parse, resolve the thread
/// key, store. A message that is stored is stored with its wire bytes.
pub fn ingest(store: &mut MessageStore, raw: &[u8], account: &AccountConfig) -> (r: Result<
    (),
    IngestError,
>)
    ensures
        (final(store)@, r) == ingested(old(store)@, raw@, account.name@),
        final(store).raws() == ingested_raws(
            old(store)@,
            old(store).raws(),
            raw@,
            account.name@,
        ),
        r is Ok ==> final(store).raws() == old(store).raws().push(
            raw_record_of(extracted(mail_read(raw@)->0), raw@),
        ),
        r is Err ==> final(store).raws() == old(store).raws(),
        r != Err::<(), IngestError>(IngestError::Store(StoreError::Unavailable)),
{
    match message_to_db(raw, account, store) {
        Some(pair) => match save_records(store, pair.0, pair.1) {
            Ok(()) => Ok(()),
            Err(e) => Err(IngestError::Store(e)),
        },
        None => Err(IngestError::Parse(ParseError::Malformed)),
    }
}

/// Takes a batch of messages through the pipeline one after the other.
/// A message that fails is skipped and the batch goes on. Returns how
/// many messages were stored.
pub fn ingest_batch(store: &mut MessageStore, batch: &Vec<Vec<u8>>, account: &AccountConfig) -> (count:
    usize)
    ensures
        final(store)@ == ingested_all(old(store)@, batch.deep_view(), account.name@),
        final(store).raws() == ingested_raws_all(
            old(store)@,
            old(store).raws(),
            batch.deep_view(),
            account.name@,
        ),
        final(store)@.len() == old(store)@.len() + count,
{
    let mut count: usize = 0;
    let mut i: usize = 0;
    assert(batch.deep_view().take(0) =~= Seq::<Seq<u8>>::empty());
    while i < batch.len()
        invariant
            i <= batch.len(),
            count <= i,
            store@ == ingested_all(old(store)@, batch.deep_view().take(i as int), account.name@),
            store.raws() == ingested_raws_all(
                old(store)@,
                old(store).raws(),
                batch.deep_view().take(i as int),
                account.name@,
            ),
            store@.len() == old(store)@.len() + count,
        decreases batch.len() - i,
    {
        proof {
            assert(batch.deep_view().take(i + 1).drop_last() == batch.deep_view().take(i as int));
            assert(batch.deep_view().take(i + 1).last() == batch[i as int]@);
        }
        match ingest(store, batch[i].as_slice(), account) {
            Ok(()) => {
                count = count + 1;
            },
            Err(_) => {},
        }
        i = i + 1;
    }
    assert(batch.deep_view().take(i as int) == batch.deep_view());
    count
}

/// Whether `name` is among `names`.
fn is_named(names: &Vec<String>, name: &String) -> (r: bool)
    ensures
        r == names.deep_view().contains(name@),
{
    let mut i: usize = 0;
    while i < names.len()
        invariant
            i <= names.len(),
            forall|k: int| 0 <= k < i ==> names.deep_view()[k] != name@,
        decreases names.len() - i,
    {
        if names[i] == *name {
            assert(names.deep_view()[i as int] == name@);
            return true;
        }
        i = i + 1;
    }
    false
}

/// The accounts that a run works on: all of them where no names are
/// given, else those whose name is among `names`, in their order.
pub open spec fn selected(accounts: Seq<AccountConfig>, names: Option<Seq<Seq<char>>>) -> Seq<
    AccountConfig,
>
    decreases accounts.len(),
{
    match names {
        None => accounts,
        Some(wanted) => if accounts.len() == 0 {
            accounts
        } else if wanted.contains(accounts.last().name@) {
            selected(accounts.drop_last(), names).push(accounts.last())
        } else {
            selected(accounts.drop_last(), names)
        },
    }
}

/// Picks the accounts that a run works on.
pub fn select_accounts(accounts: Vec<AccountConfig>, names: &Option<Vec<String>>) -> (r: Vec<
    AccountConfig,
>)
    ensures
        r@ == selected(
            accounts@,
            match names {
                Some(wanted) => Some(wanted.deep_view()),
                None => None,
            },
        ),
{
    match names {
        None => accounts,
        Some(wanted) => {
            let ghost all = accounts@;
            let ghost asked = Some(wanted.deep_view());
            let mut rest = accounts;
            let mut kept: Vec<AccountConfig> = Vec::new();
            // Accounts are taken from the back and the kept ones turned round at the end.
            while rest.len() > 0
                invariant
                    rest@ == all.take(rest@.len() as int),
                    rest@.len() <= all.len(),
                    selected(all, asked) == selected(rest@, asked) + kept@.reverse(),
                    asked == Some(wanted.deep_view()),
                decreases rest.len(),
            {
                let ghost before = rest@;
                let ghost kept_before = kept@;
                let account = rest.pop().unwrap();
                assert(rest@ == before.drop_last());
                assert(rest@ =~= all.take(rest@.len() as int));
                if is_named(wanted, &account.name) {
                    kept.push(account);
                    assert(kept@.reverse() =~= seq![account] + kept_before.reverse());
                    assert(selected(before, asked) + kept_before.reverse() =~= selected(rest@, asked)
                        + kept@.reverse());
                }
            }
            assert(selected(rest@, asked) =~= Seq::<AccountConfig>::empty());
            let mut out: Vec<AccountConfig> = Vec::new();
            while kept.len() > 0
                invariant
                    out@ + kept@.reverse() == selected(all, asked),
                decreases kept.len(),
            {
                let ghost kept_before = kept@;
                let ghost out_before = out@;
                let account = kept.pop().unwrap();
                out.push(account);
                assert(kept_before.reverse() =~= seq![account] + kept@.reverse());
                assert(out@ + kept@.reverse() =~= out_before + kept_before.reverse());
            }
            assert(kept@.reverse() =~= Seq::<AccountConfig>::empty());
            assert(out@ + Seq::<AccountConfig>::empty() =~= out@);
            out
        },
    }
}

/// The record under which the pipeline would store the bytes `raw` in
/// a store that holds `stored`.
pub open spec fn record_in(raw: Seq<u8>, account: Seq<char>, stored: Seq<MessageView>) -> MessageView {
    let pair = records_of(raw, account, stored)->0;
    pair.1
}

/// The headers of the message that the bytes `raw` hold.
pub open spec fn headers_of(raw: Seq<u8>) -> Seq<HeaderView> {
    extracted(mail_read(raw)->0).headers
}

/// The pipeline only ever adds to the store: what was stored stays,
/// where it was and as it was, and at most one record comes behind it.
/// No identity comes to stand twice.
pub proof fn lemma_ingest_keeps_records(stored: Seq<MessageView>, raw: Seq<u8>, account: Seq<char>)
    requires
        distinct_identities(stored),
    ensures
        stored.is_prefix_of(ingested(stored, raw, account).0),
        ingested(stored, raw, account).0.len() <= stored.len() + 1,
        ingested(stored, raw, account).1 is Ok <==> ingested(stored, raw, account).0.len()
            == stored.len() + 1,
        distinct_identities(ingested(stored, raw, account).0),
{
    let after = ingested(stored, raw, account).0;
    if ingested(stored, raw, account).1 is Ok {
        let record = record_in(raw, account, stored);
        assert(after == stored.push(record));
        assert forall|i: int, j: int| 0 <= i < j < after.len() implies #[trigger] after[i].message_id
            != #[trigger] after[j].message_id by {
            if j < stored.len() {
                assert(stored[i].message_id != stored[j].message_id);
            } else {
                assert(stored[i].message_id != record.message_id);
            }
        }
    }
}

/// Ingesting the same bytes twice stores at most one record. The second
/// attempt leaves the store exactly as the first left it; where the
/// first stored the message, the second reports a conflict, and where the
/// first failed, the second fails in the same way.
pub proof fn lemma_ingest_twice(stored: Seq<MessageView>, raw: Seq<u8>, account: Seq<char>)
    requires
        distinct_identities(stored),
    ensures
        ({
            let first = ingested(stored, raw, account);
            let second = ingested(first.0, raw, account);
            &&& second.0 == first.0
            &&& first.1 is Ok ==> second.1 == Err::<(), IngestError>(
                IngestError::Store(StoreError::Conflict),
            )
            &&& first.1 is Err ==> second.1 == first.1
            &&& distinct_identities(second.0)
        }),
{
    let first = ingested(stored, raw, account);
    lemma_ingest_keeps_records(stored, raw, account);
    if first.1 is Ok {
        let record = record_in(raw, account, stored);
        assert(first.0[stored.len() as int].message_id == record.message_id);
    }
}

/// A chain of replies that is ingested in the order in which it was
/// written ends up under one thread key: where `a` answers no message
/// and has a subject, `b` answers `a`, `c` answers `b`, and all three are
/// stored one after the other, the three records carry the same key.
pub proof fn lemma_reply_chain_shares_key(
    stored: Seq<MessageView>,
    a: Seq<u8>,
    b: Seq<u8>,
    c: Seq<u8>,
    account: Seq<char>,
)
    requires
        distinct_identities(stored),
        parent_reference(headers_of(a)) is None,
        header_value(headers_of(a), "Subject"@) is Some,
        parent_reference(headers_of(b)) == Some(identity_of(headers_of(a))),
        parent_reference(headers_of(c)) == Some(identity_of(headers_of(b))),
        ingested(stored, a, account).1 is Ok,
        ingested(ingested(stored, a, account).0, b, account).1 is Ok,
        ingested(ingested(ingested(stored, a, account).0, b, account).0, c, account).1 is Ok,
    ensures
        ({
            let after = ingested(
                ingested(ingested(stored, a, account).0, b, account).0,
                c,
                account,
            ).0;
            let first = stored.len() as int;
            &&& after.len() == first + 3
            &&& after[first].parent_thread_key is Some
            &&& after[first + 1].parent_thread_key == after[first].parent_thread_key
            &&& after[first + 2].parent_thread_key == after[first].parent_thread_key
        }),
{
    let one = ingested(stored, a, account).0;
    let two = ingested(one, b, account).0;
    let three = ingested(two, c, account).0;
    let record_a = record_in(a, account, stored);
    let record_b = record_in(b, account, one);
    let record_c = record_in(c, account, two);
    assert(one == stored.push(record_a));
    assert(two == one.push(record_b));
    assert(three == two.push(record_c));
    assert(one.drop_last() == stored);
    assert(two.drop_last() == one);
    assert(latest_with_identity(one, identity_of(headers_of(a))) == Some(record_a));
    assert(latest_with_identity(two, identity_of(headers_of(b))) == Some(record_b));
}

/// A reply that is ingested before the message it answers is grouped by
/// its own subject, and stays so: where `b` answers `a`, no message with
/// the identity of `a` is stored yet, and `b` is stored before `a`, the
/// record of `b` carries the key of its own subject, and it is the same
/// record after `a` has been stored behind it.
pub proof fn lemma_early_reply_is_not_merged(
    stored: Seq<MessageView>,
    a: Seq<u8>,
    b: Seq<u8>,
    account: Seq<char>,
)
    requires
        distinct_identities(stored),
        parent_reference(headers_of(b)) == Some(identity_of(headers_of(a))),
        !holds_identity(stored, identity_of(headers_of(a))),
        ingested(stored, b, account).1 is Ok,
        ingested(ingested(stored, b, account).0, a, account).1 is Ok,
    ensures
        ({
            let early = ingested(stored, b, account).0;
            let late = ingested(early, a, account).0;
            let at = stored.len() as int;
            &&& early.len() == at + 1
            &&& late.len() == at + 2
            &&& early[at].parent_thread_key == own_key(headers_of(b))
            &&& late[at] == early[at]
        }),
{
    let early = ingested(stored, b, account).0;
    let record_b = record_in(b, account, stored);
    let record_a = record_in(a, account, early);
    lemma_latest_iff_held(stored, identity_of(headers_of(a)));
    assert(early == stored.push(record_b));
    assert(ingested(early, a, account).0 == early.push(record_a));
}

} // verus!
