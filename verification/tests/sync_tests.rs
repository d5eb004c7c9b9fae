use bes::config::{Account, AccountConfig, Imap};
use bes::database::{MessageFilter, MessageStore, StoreError, PAGE_SIZE};
use bes::listing::list_threads;
use bes::parser::ParseError;
use bes::sync::{ingest, ingest_batch, select_accounts, IngestError};
use bes::threading::subject_thread_key;

fn account(name: &str) -> AccountConfig {
    AccountConfig {
        name: name.to_string(),
        default: false,
        account: Account {
            email: format!("{name}@example.com"),
            display_name: None,
            sender: "None".to_string(),
            name: None,
            signature_delim: None,
            signature: None,
            downloads_dir: None,
            folder_listing_page_size: None,
            folder_aliases: None,
            email_listing_page_size: None,
            email_reading_headers: None,
            email_reading_format: None,
            email_reading_verify_cmd: None,
            email_reading_decrypt_cmd: None,
            email_writing_sign_cmd: None,
            email_writing_encrypt_cmd: None,
            email_writing_headers: None,
            email_hooks: None,
            sync: None,
            sync_dir: None,
        },
        imap: Imap {
            port: 993,
            host: "imap.example.com".to_string(),
            starttls: None,
            login: name.to_string(),
            passwd_cmd: None,
            passwd: None,
            ssl: None,
        },
    }
}

fn mail(id: &str, subject: Option<&str>, reply_to: Option<&str>, date: &str) -> Vec<u8> {
    let mut text = format!("Message-ID: {id}\r\nDate: {date}\r\n");
    if let Some(subject) = subject {
        text.push_str(&format!("Subject: {subject}\r\n"));
    }
    if let Some(parent) = reply_to {
        text.push_str(&format!("In-Reply-To: {parent}\r\n"));
    }
    text.push_str("Content-Type: text/plain\r\n\r\nbody");
    text.into_bytes()
}

fn key_of(store: &MessageStore, id: &str) -> Option<String> {
    store.find_by_identity(id).unwrap().parent_thread_key.clone()
}

#[test]
fn ingesting_the_same_bytes_twice_stores_one_record() {
    let mut store = MessageStore::new();
    let me = account("me");
    let bytes = mail("<a@x>", Some("Hello"), None, "Mon, 06 Mar 2023 10:21:03 -0800");
    assert_eq!(ingest(&mut store, &bytes, &me), Ok(()));
    assert_eq!(store.len(), 1);
    assert_eq!(
        ingest(&mut store, &bytes, &me),
        Err(IngestError::Store(StoreError::Conflict))
    );
    assert_eq!(store.len(), 1);
}

#[test]
fn ingesting_broken_bytes_leaves_the_store_alone() {
    let mut store = MessageStore::new();
    assert_eq!(
        ingest(&mut store, b" broken\r\n\r\n", &account("me")),
        Err(IngestError::Parse(ParseError::Malformed))
    );
    assert_eq!(store.len(), 0);
}

#[test]
fn a_reply_chain_in_arrival_order_shares_one_key() {
    let mut store = MessageStore::new();
    let me = account("me");
    let a = mail("<a@x>", Some("Budget"), None, "Mon, 06 Mar 2023 10:00:00 +0000");
    let b = mail("<b@x>", Some("Thoughts on numbers"), Some("<a@x>"), "Mon, 06 Mar 2023 11:00:00 +0000");
    let c = mail("<c@x>", Some("A new subject"), Some("<b@x>"), "Mon, 06 Mar 2023 12:00:00 +0000");
    assert_eq!(ingest_batch(&mut store, &vec![a, b, c], &me), 3);
    let key = key_of(&store, "<a@x>");
    assert_eq!(key, Some(subject_thread_key("Budget")));
    assert_eq!(key_of(&store, "<b@x>"), key);
    assert_eq!(key_of(&store, "<c@x>"), key);
    let filter =
        MessageFilter { query: None, pinned: false, folder: false, snoozed: false, archived: false };
    let groups = list_threads(&store, filter, PAGE_SIZE).unwrap();
    assert_eq!(groups.len(), 1);
    assert_eq!(
        groups[0].iter().map(|m| m.message_id.as_str()).collect::<Vec<_>>(),
        vec!["<c@x>", "<b@x>", "<a@x>"]
    );
}

#[test]
fn a_reply_that_arrives_before_its_parent_is_not_merged_later() {
    let mut store = MessageStore::new();
    let me = account("me");
    let a = mail("<a@x>", Some("Budget"), None, "Mon, 06 Mar 2023 10:00:00 +0000");
    let b = mail("<b@x>", Some("Numbers"), Some("<a@x>"), "Mon, 06 Mar 2023 11:00:00 +0000");
    assert_eq!(ingest(&mut store, &b, &me), Ok(()));
    assert_eq!(key_of(&store, "<b@x>"), Some(subject_thread_key("Numbers")));
    assert_eq!(ingest(&mut store, &a, &me), Ok(()));
    assert_eq!(key_of(&store, "<a@x>"), Some(subject_thread_key("Budget")));
    assert_eq!(key_of(&store, "<b@x>"), Some(subject_thread_key("Numbers")));
    assert_ne!(key_of(&store, "<a@x>"), key_of(&store, "<b@x>"));
}

#[test]
fn a_reply_to_a_message_without_a_subject_does_not_share_its_key() {
    let mut store = MessageStore::new();
    let me = account("me");
    let a = mail("<a@x>", None, None, "Mon, 06 Mar 2023 10:00:00 +0000");
    let b = mail("<b@x>", Some("Numbers"), Some("<a@x>"), "Mon, 06 Mar 2023 11:00:00 +0000");
    assert_eq!(ingest_batch(&mut store, &vec![a, b], &me), 2);
    assert_eq!(key_of(&store, "<a@x>"), None);
    assert_eq!(key_of(&store, "<b@x>"), Some(subject_thread_key("Numbers")));
}

#[test]
fn messages_that_only_share_a_subject_share_a_key() {
    let mut store = MessageStore::new();
    let me = account("me");
    let first = mail("<1@x>", Some("Launch plan"), None, "Mon, 06 Mar 2023 10:00:00 +0000");
    let second = mail("<2@x>", Some("Re: Launch plan"), None, "Mon, 06 Mar 2023 11:00:00 +0000");
    assert_eq!(ingest_batch(&mut store, &vec![first, second], &me), 2);
    assert_eq!(key_of(&store, "<1@x>"), key_of(&store, "<2@x>"));
    assert_eq!(
        key_of(&store, "<1@x>"),
        Some("07A0A66A605A83ED0F174A7F7D3B4AF687664B733EEDE8AB5F4CA7E2BFFFB030".to_string())
    );
}

#[test]
fn a_batch_skips_what_fails_and_goes_on() {
    let mut store = MessageStore::new();
    let me = account("me");
    let good = mail("<a@x>", Some("One"), None, "Mon, 06 Mar 2023 10:00:00 +0000");
    let again = good.clone();
    let broken = b" broken\r\n\r\n".to_vec();
    let last = mail("<z@x>", Some("Two"), None, "Mon, 06 Mar 2023 10:00:00 +0000");
    assert_eq!(ingest_batch(&mut store, &vec![good, broken, again, last], &me), 2);
    assert_eq!(store.len(), 2);
    assert!(store.find_by_identity("<z@x>").is_some());
    assert_eq!(ingest_batch(&mut store, &vec![], &me), 0);
}

#[test]
fn two_messages_without_an_id_collide() {
    let mut store = MessageStore::new();
    let me = account("me");
    assert_eq!(ingest(&mut store, b"Subject: a\r\n\r\n", &me), Ok(()));
    assert_eq!(
        ingest(&mut store, b"Subject: b\r\n\r\n", &me),
        Err(IngestError::Store(StoreError::Conflict))
    );
}

#[test]
fn select_accounts_keeps_the_named_accounts_in_order() {
    let all = vec![account("a"), account("b"), account("c"), account("d")];
    let names = Some(vec!["d".to_string(), "b".to_string(), "zz".to_string()]);
    let picked = select_accounts(all.clone(), &names);
    assert_eq!(picked.iter().map(|a| a.name.as_str()).collect::<Vec<_>>(), vec!["b", "d"]);
    assert_eq!(select_accounts(all.clone(), &None), all);
    assert_eq!(select_accounts(all, &Some(vec![])), vec![]);
    assert_eq!(select_accounts(vec![], &Some(vec!["a".to_string()])), vec![]);
}

#[test]
fn only_unreachable_storage_ends_a_run() {
    assert!(IngestError::Store(StoreError::Unavailable).is_fatal());
    assert!(!IngestError::Store(StoreError::Conflict).is_fatal());
    assert!(!IngestError::Parse(ParseError::Malformed).is_fatal());
}

#[test]
fn a_stored_message_is_stored_with_its_wire_bytes() {
    let mut store = MessageStore::new();
    let me = account("me");
    let first = mail("<a@x>", Some("One"), None, "Mon, 06 Mar 2023 10:00:00 +0000");
    let broken = b" broken\r\n\r\n".to_vec();
    let second = b"Subject: no id\r\n\r\n".to_vec();
    let batch = vec![first.clone(), broken, first.clone(), second.clone()];
    assert_eq!(ingest_batch(&mut store, &batch, &me), 2);
    let (raw, record) = store.get(0).unwrap();
    assert_eq!(record.message_id, "<a@x>");
    assert_eq!(raw.id, None);
    assert_eq!(raw.message_id, Some("<a@x>".to_string()));
    assert_eq!(raw.message, Some(first));
    let (raw, record) = store.get(1).unwrap();
    assert_eq!(record.message_id, "no id found");
    assert_eq!(raw.message_id, Some("no id found".to_string()));
    assert_eq!(raw.message, Some(second));
    assert!(store.get(2).is_none());
}
