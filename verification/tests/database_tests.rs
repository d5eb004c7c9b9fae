use bes::config::{Account, AccountConfig, Imap};
use bes::database::{
    get_message_id_content, save_records, search_query, MessageFilter, MessageStore, StoreError,
    ViewFilter, PAGE_SIZE,
};
use bes::listing::{list_threads, message_answers, rank_newest_first};
use bes::models::{Message, RawMessage};
use bes::parser::Header;
use bes::sync::{message_to_db, normalize};
use bes::threading::{parent_of, parent_thread_key, subject_thread_key};

fn record(id: &str, key: Option<&str>, sent_date: Option<i64>) -> Message {
    let mut m = Message::default();
    m.message_id = id.to_string();
    m.account = "me".to_string();
    m.parent_thread_key = key.map(|k| k.to_string());
    m.sent_date = sent_date;
    m
}

fn raw(id: &str) -> RawMessage {
    RawMessage { id: None, message_id: Some(id.to_string()), message: Some(id.as_bytes().to_vec()) }
}

fn store_of(records: Vec<Message>) -> MessageStore {
    let mut store = MessageStore::new();
    for m in records {
        let r = raw(&m.message_id);
        save_records(&mut store, r, m).unwrap();
    }
    store
}

fn no_filter() -> MessageFilter {
    MessageFilter { query: None, pinned: false, folder: false, snoozed: false, archived: false }
}

fn query(q: &str) -> MessageFilter {
    MessageFilter {
        query: Some(q.to_string()),
        pinned: false,
        folder: false,
        snoozed: false,
        archived: false,
    }
}

fn ids(groups: &Vec<Vec<Message>>) -> Vec<Vec<String>> {
    groups.iter().map(|g| g.iter().map(|m| m.message_id.clone()).collect()).collect()
}

fn account(name: &str) -> AccountConfig {
    AccountConfig {
        name: name.to_string(),
        default: true,
        account: Account {
            email: "me@example.com".to_string(),
            display_name: None,
            sender: "None".to_string(),
            name: None,
            signature_delim: None,
            signature: None,
            downloads_dir: None,
            folder_listing_page_size: None,
            folder_aliases: None,
            email_listing_page_size: None,
            email_reading_headers: None,
            email_reading_format: None,
            email_reading_verify_cmd: None,
            email_reading_decrypt_cmd: None,
            email_writing_sign_cmd: None,
            email_writing_encrypt_cmd: None,
            email_writing_headers: None,
            email_hooks: None,
            sync: None,
            sync_dir: None,
        },
        imap: Imap {
            port: 993,
            host: "imap.example.com".to_string(),
            starttls: None,
            login: "me".to_string(),
            passwd_cmd: None,
            passwd: None,
            ssl: None,
        },
    }
}

#[test]
fn a_new_store_is_empty() {
    let store = MessageStore::new();
    assert_eq!(store.len(), 0);
    assert!(store.find_by_identity("a").is_none());
    assert_eq!(list_threads(&store, no_filter(), PAGE_SIZE), Ok(vec![]));
}

#[test]
fn save_records_turns_a_second_record_of_an_identity_down() {
    let mut store = MessageStore::new();
    assert_eq!(save_records(&mut store, raw("a"), record("a", Some("k"), Some(1))), Ok(()));
    assert_eq!(store.len(), 1);
    assert_eq!(
        save_records(&mut store, raw("a"), record("a", Some("other"), Some(2))),
        Err(StoreError::Conflict)
    );
    assert_eq!(store.len(), 1);
    assert_eq!(store.find_by_identity("a").unwrap().parent_thread_key, Some("k".to_string()));
    assert_eq!(save_records(&mut store, raw("b"), record("b", None, None)), Ok(()));
    assert_eq!(store.len(), 2);
}

#[test]
fn find_by_identity_finds_the_record_with_that_identity() {
    let store = store_of(vec![record("a", None, Some(1)), record("b", Some("k"), Some(2))]);
    assert_eq!(store.find_by_identity("b"), Some(&record("b", Some("k"), Some(2))));
    assert_eq!(store.find_by_identity("a"), Some(&record("a", None, Some(1))));
    assert_eq!(store.find_by_identity("c"), None);
    assert_eq!(store.find_by_identity("A"), None);
}

#[test]
fn get_message_id_content_gives_both_bodies_or_empty_strings() {
    let mut with_bodies = record("a", None, None);
    with_bodies.text_format = Some("text".to_string());
    with_bodies.html_format = Some("<p>html</p>".to_string());
    let mut text_only = record("b", None, None);
    text_only.text_format = Some("only".to_string());
    let store = store_of(vec![with_bodies, text_only, record("c", None, None)]);
    assert_eq!(
        get_message_id_content(&store, "a"),
        Some(("text".to_string(), "<p>html</p>".to_string()))
    );
    assert_eq!(get_message_id_content(&store, "b"), Some(("only".to_string(), String::new())));
    assert_eq!(get_message_id_content(&store, "c"), Some((String::new(), String::new())));
    assert_eq!(get_message_id_content(&store, "d"), None);
}

#[test]
fn list_threads_ranks_conversations_by_their_newest_record() {
    let store = store_of(vec![
        record("a1", Some("A"), Some(10)),
        record("b1", Some("B"), Some(20)),
        record("a2", Some("A"), Some(30)),
        record("c1", Some("C"), Some(5)),
        record("b2", Some("B"), Some(1)),
    ]);
    let groups = list_threads(&store, no_filter(), PAGE_SIZE).unwrap();
    assert_eq!(ids(&groups), vec![vec!["a2", "a1"], vec!["b1", "b2"], vec!["c1"]]);
}

#[test]
fn list_threads_puts_records_without_a_date_last() {
    let store = store_of(vec![
        record("n1", Some("N"), None),
        record("a1", Some("A"), Some(-5)),
        record("a2", Some("A"), None),
        record("n2", Some("N"), None),
        record("m", Some("M"), Some(i64::MIN)),
    ]);
    let groups = list_threads(&store, no_filter(), PAGE_SIZE).unwrap();
    assert_eq!(ids(&groups), vec![vec!["a1", "a2"], vec!["m"], vec!["n1", "n2"]]);
}

#[test]
fn list_threads_keeps_the_stored_order_of_records_of_one_date() {
    let store = store_of(vec![
        record("x", Some("X"), Some(7)),
        record("y", Some("Y"), Some(7)),
        record("x2", Some("X"), Some(7)),
    ]);
    let groups = list_threads(&store, no_filter(), PAGE_SIZE).unwrap();
    assert_eq!(ids(&groups), vec![vec!["x", "x2"], vec!["y"]]);
}

#[test]
fn list_threads_without_a_query_leaves_out_records_without_a_thread_key() {
    let mut lone = record("lone", None, Some(100));
    lone.subject = Some("findme".to_string());
    let store = store_of(vec![lone, record("a", Some("A"), Some(1))]);
    let groups = list_threads(&store, no_filter(), PAGE_SIZE).unwrap();
    assert_eq!(ids(&groups), vec![vec!["a"]]);
}

#[test]
fn list_threads_with_a_query_shows_a_keyless_record_as_a_conversation_of_its_own() {
    let mut lone = record("lone", None, Some(100));
    lone.subject = Some("findme".to_string());
    let store = store_of(vec![lone.clone(), record("a", Some("A"), Some(1))]);
    let groups = list_threads(&store, query("findme"), PAGE_SIZE).unwrap();
    assert_eq!(groups, vec![vec![lone]]);
    let groups = list_threads(&store, query("other"), PAGE_SIZE).unwrap();
    assert_eq!(ids(&groups), Vec::<Vec<String>>::new());
}

#[test]
fn keyless_records_are_not_merged_and_rank_by_their_own_date() {
    let mut old = record("old", None, Some(1));
    old.content = Some("invoice attached".to_string());
    let mut new = record("new", None, Some(50));
    new.message_from = Some("invoices@example.com".to_string());
    let mut undated = record("undated", None, None);
    undated.message_to = Some("invoice-desk@example.com".to_string());
    let mut keyed = record("k1", Some("lone"), Some(20));
    keyed.subject = Some("Your invoice".to_string());
    let mut silent = record("silent", None, Some(99));
    silent.text_format = Some("invoice in a field that is not searched".to_string());
    let store = store_of(vec![old, keyed, record("k2", Some("lone"), Some(10)), undated, new, silent]);
    let groups = list_threads(&store, query("invoice"), PAGE_SIZE).unwrap();
    assert_eq!(
        ids(&groups),
        vec![vec!["new"], vec!["k1", "k2"], vec!["old"], vec!["undated"]]
    );
}

#[test]
fn a_keyless_record_and_a_key_that_reads_like_its_identity_stay_apart() {
    let mut lone = record("same", None, Some(5));
    lone.subject = Some("x".to_string());
    let mut keyed = record("other", Some("same"), Some(3));
    keyed.subject = Some("x".to_string());
    let store = store_of(vec![lone, keyed]);
    let groups = list_threads(&store, query("x"), PAGE_SIZE).unwrap();
    assert_eq!(ids(&groups), vec![vec!["same"], vec!["other"]]);
}

#[test]
fn keyless_conversations_count_against_the_limit() {
    let mut records = Vec::new();
    for n in 0..5i64 {
        let mut lone = record(&format!("lone-{n}"), None, Some(100 + n));
        lone.subject = Some("report".to_string());
        records.push(lone);
    }
    let mut keyed = record("keyed", Some("K"), Some(1000));
    keyed.subject = Some("report".to_string());
    records.push(keyed);
    let store = store_of(records);
    let groups = list_threads(&store, query("report"), 3).unwrap();
    assert_eq!(ids(&groups), vec![vec!["keyed"], vec!["lone-4"], vec!["lone-3"]]);
    let groups = list_threads(&store, query("report"), PAGE_SIZE).unwrap();
    assert_eq!(groups.len(), 6);
    assert!(groups.iter().all(|g| g.len() == 1));
}

#[test]
fn list_threads_with_a_query_shows_whole_conversations_that_answer_it() {
    let mut hit = record("a1", Some("A"), Some(1));
    hit.subject = Some("Quarterly report".to_string());
    let mut other = record("b1", Some("B"), Some(3));
    other.content = Some("nothing here".to_string());
    let store = store_of(vec![hit, record("a2", Some("A"), Some(2)), other]);
    let groups = list_threads(&store, query("report"), PAGE_SIZE).unwrap();
    assert_eq!(ids(&groups), vec![vec!["a2", "a1"]]);
    let groups = list_threads(&store, query("Report"), PAGE_SIZE).unwrap();
    assert_eq!(ids(&groups), Vec::<Vec<String>>::new());
    let groups = list_threads(&store, query("no"), PAGE_SIZE).unwrap();
    assert_eq!(ids(&groups), vec![vec!["b1"]]);
}

#[test]
fn message_answers_looks_at_five_fields() {
    let mut m = record("a", None, None);
    assert!(message_answers(&m, &None));
    assert!(!message_answers(&m, &Some("x".to_string())));
    assert!(!message_answers(&m, &Some(String::new())));
    m.message_cc = Some("carol@example.com".to_string());
    assert!(message_answers(&m, &Some("carol".to_string())));
    assert!(message_answers(&m, &Some(String::new())));
    m.message_cc = None;
    m.message_to = Some("tom@example.com".to_string());
    assert!(message_answers(&m, &Some("tom@".to_string())));
    m.message_to = None;
    m.message_from = Some("fay@example.com".to_string());
    assert!(message_answers(&m, &Some("fay".to_string())));
    m.message_from = None;
    m.content = Some("body words".to_string());
    assert!(message_answers(&m, &Some("y w".to_string())));
    m.content = None;
    m.message_bcc = Some("hidden@example.com".to_string());
    m.text_format = Some("hidden".to_string());
    m.message_id = "hidden".to_string();
    assert!(!message_answers(&m, &Some("hidden".to_string())));
}

#[test]
fn list_threads_pages_conversations_not_messages() {
    let mut records = Vec::new();
    for t in 0..150i64 {
        for n in 0..3i64 {
            records.push(record(
                &format!("m-{t}-{n}"),
                Some(&format!("thread-{t}")),
                Some(t * 10 + n),
            ));
        }
    }
    let store = store_of(records);
    assert_eq!(store.len(), 450);
    let groups = list_threads(&store, no_filter(), 100).unwrap();
    assert_eq!(groups.len(), 100);
    assert_eq!(groups.iter().map(|g| g.len()).sum::<usize>(), 300);
    for (rank, group) in groups.iter().enumerate() {
        let t = 149 - rank as i64;
        assert_eq!(
            group.iter().map(|m| m.message_id.clone()).collect::<Vec<_>>(),
            vec![format!("m-{t}-2"), format!("m-{t}-1"), format!("m-{t}-0")]
        );
        for m in group {
            assert_eq!(m.parent_thread_key, Some(format!("thread-{t}")));
        }
    }
}

#[test]
fn list_threads_with_a_limit_of_zero_shows_nothing() {
    let store = store_of(vec![record("a", Some("A"), Some(1))]);
    assert_eq!(list_threads(&store, no_filter(), 0), Ok(vec![]));
    assert_eq!(ids(&list_threads(&store, no_filter(), 1).unwrap()), vec![vec!["a"]]);
}

#[test]
fn a_popular_conversation_does_not_crowd_out_others() {
    let mut records = Vec::new();
    for n in 0..50i64 {
        records.push(record(&format!("busy-{n}"), Some("busy"), Some(1000 + n)));
    }
    records.push(record("quiet", Some("quiet"), Some(1)));
    let store = store_of(records);
    let groups = list_threads(&store, no_filter(), 2).unwrap();
    assert_eq!(groups.len(), 2);
    assert_eq!(groups[0].len(), 50);
    assert_eq!(ids(&groups)[1], vec!["quiet"]);
}

#[test]
fn parent_thread_key_takes_the_key_of_a_stored_parent() {
    let store = store_of(vec![record("<a@x>", Some("KEY-A"), Some(1)), record("<n@x>", None, None)]);
    let reply = vec![
        Header { name: "In-Reply-To".to_string(), value: "<a@x>".to_string() },
        Header { name: "Subject".to_string(), value: "anything".to_string() },
    ];
    assert_eq!(parent_thread_key(&reply, &store), Some("KEY-A".to_string()));
    let by_references = vec![
        Header { name: "References".to_string(), value: "<a@x>".to_string() },
        Header { name: "Subject".to_string(), value: "anything".to_string() },
    ];
    assert_eq!(parent_thread_key(&by_references, &store), Some("KEY-A".to_string()));
    let both = vec![
        Header { name: "References".to_string(), value: "<a@x>".to_string() },
        Header { name: "In-Reply-To".to_string(), value: "<gone@x>".to_string() },
        Header { name: "Subject".to_string(), value: "Hello".to_string() },
    ];
    assert_eq!(parent_thread_key(&both, &store), Some(subject_thread_key("Hello")));
}

#[test]
fn parent_thread_key_falls_back_to_the_subject() {
    let store = store_of(vec![record("<n@x>", None, None)]);
    let unknown_parent = vec![
        Header { name: "In-Reply-To".to_string(), value: "<gone@x>".to_string() },
        Header { name: "Subject".to_string(), value: "Re: Hello".to_string() },
    ];
    assert_eq!(parent_thread_key(&unknown_parent, &store), Some(subject_thread_key("hello")));
    let keyless_parent = vec![
        Header { name: "In-Reply-To".to_string(), value: "<n@x>".to_string() },
        Header { name: "Subject".to_string(), value: "Hello".to_string() },
    ];
    assert_eq!(parent_thread_key(&keyless_parent, &store), Some(subject_thread_key("hello")));
    let no_subject =
        vec![Header { name: "In-Reply-To".to_string(), value: "<gone@x>".to_string() }];
    assert_eq!(parent_thread_key(&no_subject, &store), None);
    assert_eq!(parent_thread_key(&vec![], &store), None);
}

#[test]
fn message_to_db_fills_in_the_record() {
    let text = [
        "Message-ID: <one@example.com>\r\n",
        "Subject: Launch plan\r\n",
        "Date: Mon, 06 Mar 2023 10:21:03 -0800\r\n",
        "From: Ann <ann@example.com>\r\n",
        "To: bob@example.com\r\n",
        "Cc: carol@example.com\r\n",
        "Bcc: dan@example.com\r\n",
        "Content-Type: text/plain\r\n",
        "\r\n",
        "See attached.",
    ]
    .concat();
    let bytes = text.as_bytes();
    let store = MessageStore::new();
    let (raw, record) = message_to_db(bytes, &account("work"), &store).unwrap();
    assert_eq!(
        raw,
        RawMessage {
            id: None,
            message_id: Some("<one@example.com>".to_string()),
            message: Some(bytes.to_vec()),
        }
    );
    assert_eq!(
        record,
        Message {
            id: None,
            message_id: "<one@example.com>".to_string(),
            account: "work".to_string(),
            parent_id: None,
            subject: Some("Launch plan".to_string()),
            sent_at: Some("Mon, 06 Mar 2023 10:21:03 -0800".to_string()),
            message_from: Some("Ann <ann@example.com>".to_string()),
            pinned_at: None,
            done_at: None,
            reminder_at: None,
            folders: Some("INBOX".to_string()),
            content: Some("See attached.".to_string()),
            text_format: Some("See attached.".to_string()),
            html_format: None,
            message_to: Some("bob@example.com".to_string()),
            message_cc: Some("carol@example.com".to_string()),
            message_bcc: Some("dan@example.com".to_string()),
            parent_thread_key: Some(
                "07A0A66A605A83ED0F174A7F7D3B4AF687664B733EEDE8AB5F4CA7E2BFFFB030".to_string()
            ),
            sent_date: Some(1678126863),
        }
    );
}

#[test]
fn message_to_db_names_a_message_without_an_id_by_the_fixed_text() {
    let store = MessageStore::new();
    let (raw, record) =
        message_to_db(b"Content-Type: text/html\r\n\r\n<p>x</p>", &account("a"), &store).unwrap();
    assert_eq!(record.message_id, "no id found");
    assert_eq!(raw.message_id, Some("no id found".to_string()));
    assert_eq!(record.content, Some("<p>x</p>".to_string()));
    assert_eq!(record.html_format, Some("<p>x</p>".to_string()));
    assert_eq!(record.text_format, None);
    assert_eq!(record.parent_thread_key, None);
    assert_eq!(record.sent_at, None);
    assert_eq!(record.sent_date, None);
}

#[test]
fn message_to_db_keeps_a_date_it_cannot_read_as_text_only() {
    let store = MessageStore::new();
    let (_, record) =
        message_to_db(b"Date: some day last week\r\n\r\n", &account("a"), &store).unwrap();
    assert_eq!(record.sent_at, Some("some day last week".to_string()));
    assert_eq!(record.sent_date, None);
}

#[test]
fn message_to_db_gives_nothing_for_bytes_that_cannot_be_parsed() {
    let store = MessageStore::new();
    assert_eq!(message_to_db(b" broken: header\r\n\r\n", &account("a"), &store), None);
}

#[test]
fn normalize_prefers_the_text_body_as_content() {
    let parsed = bes::parser::ParsedMessage {
        headers: vec![
            Header { name: "Message-ID".to_string(), value: "<n@x>".to_string() },
            Header { name: "References".to_string(), value: "<r@x>".to_string() },
        ],
        text_body: Some("text".to_string()),
        html_body: Some("<p>html</p>".to_string()),
    };
    let (raw, record) = normalize(&parsed, b"bytes", "acc", Some("KEY".to_string()));
    assert_eq!(record.content, Some("text".to_string()));
    assert_eq!(record.text_format, Some("text".to_string()));
    assert_eq!(record.html_format, Some("<p>html</p>".to_string()));
    assert_eq!(record.parent_id, Some("<r@x>".to_string()));
    assert_eq!(record.parent_thread_key, Some("KEY".to_string()));
    assert_eq!(record.account, "acc");
    assert_eq!(record.folders, Some("INBOX".to_string()));
    assert_eq!(raw.message, Some(b"bytes".to_vec()));
    assert_eq!(raw.message_id, Some("<n@x>".to_string()));
}

#[test]
fn parent_of_prefers_in_reply_to() {
    let headers = vec![
        Header { name: "References".to_string(), value: "<r@x>".to_string() },
        Header { name: "In-Reply-To".to_string(), value: "<i@x>".to_string() },
    ];
    assert_eq!(parent_of(&headers), Some("<i@x>".to_string()));
    assert_eq!(parent_of(&headers[..1].to_vec()), Some("<r@x>".to_string()));
    assert_eq!(parent_of(&vec![]), None);
}

#[test]
fn rank_newest_first_sorts_by_date_and_keeps_ties_in_order() {
    let records = vec![
        record("none-1", None, None),
        record("five", None, Some(5)),
        record("nine-1", None, Some(9)),
        record("none-2", None, None),
        record("nine-2", None, Some(9)),
        record("minus", None, Some(-1)),
    ];
    let ranked = rank_newest_first(&records);
    assert_eq!(
        ranked.iter().map(|m| m.message_id.as_str()).collect::<Vec<_>>(),
        vec!["nine-1", "nine-2", "five", "minus", "none-1", "none-2"]
    );
}

#[test]
fn store_hands_out_its_records_in_stored_order() {
    let store = store_of(vec![record("a", None, Some(1)), record("b", Some("k"), None)]);
    assert_eq!(store.records(), vec![record("a", None, Some(1)), record("b", Some("k"), None)]);
    let (raw_a, a) = store.get(0).unwrap();
    assert_eq!(a, &record("a", None, Some(1)));
    assert_eq!(raw_a, &raw("a"));
    assert_eq!(store.get(1).unwrap().1.message_id, "b");
    assert!(store.get(2).is_none());
    store.recall_shape();
}

#[test]
fn a_view_asks_for_its_query_only() {
    let view = ViewFilter {
        query: search_query("report".to_string()),
        pinned: true,
        expanded_email: None,
        expanded_thread: None,
        folder: Some("INBOX".to_string()),
        account: Some("work".to_string()),
    };
    assert_eq!(MessageFilter::from(&view), query("report"));
    assert_eq!(search_query(String::new()), None);
    assert_eq!(search_query(" ".to_string()), Some(" ".to_string()));
}
