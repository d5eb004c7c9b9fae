use bes::assembler::{
    arrange, assemble, date_threads, group_by_thread, show, DatedThread, Email, EmailThread,
};
use bes::dates::CalendarDay;
use bes::models::Message;

fn record(id: &str, key: Option<&str>, subject: &str, sent_at: Option<&str>) -> Message {
    let mut m = Message::default();
    m.message_id = id.to_string();
    m.parent_thread_key = key.map(|k| k.to_string());
    m.subject = Some(subject.to_string());
    m.sent_at = sent_at.map(|d| d.to_string());
    m
}

fn day(year: i32, month: u32, day: u32, week_year: i32, week: u32) -> CalendarDay {
    CalendarDay { year, month, day, week_year, week }
}

fn thread(subject: &str) -> EmailThread {
    EmailThread { subject: subject.to_string(), children: vec![show(&record(subject, None, subject, None))] }
}

fn dated(subject: &str, on: Option<CalendarDay>) -> DatedThread {
    DatedThread { thread: thread(subject), day: on }
}

fn shape(groups: &Vec<bes::assembler::EmailGroup>) -> Vec<(String, Vec<String>)> {
    groups
        .iter()
        .map(|g| (g.name.clone(), g.children.iter().map(|t| t.subject.clone()).collect()))
        .collect()
}

#[test]
fn show_fills_absent_fields_with_empty_strings() {
    let mut m = Message::default();
    m.message_id = "id".to_string();
    m.message_from = Some("ann@example.com".to_string());
    m.done_at = Some("2024-01-01".to_string());
    assert_eq!(
        show(&m),
        Email {
            message_id: "id".to_string(),
            subject: String::new(),
            from: "ann@example.com".to_string(),
            to: String::new(),
            cc: String::new(),
            bcc: String::new(),
            html_format: String::new(),
            text_format: String::new(),
            date_sent: String::new(),
            done: true,
            pinned: false,
            reminder_at: String::new(),
        }
    );
    m.done_at = None;
    m.pinned_at = Some(String::new());
    m.subject = Some("s".to_string());
    m.sent_at = Some("d".to_string());
    m.reminder_at = Some("r".to_string());
    m.message_to = Some("t".to_string());
    m.message_cc = Some("c".to_string());
    m.message_bcc = Some("b".to_string());
    m.html_format = Some("h".to_string());
    m.text_format = Some("x".to_string());
    let shown = show(&m);
    assert!(shown.pinned && !shown.done);
    assert_eq!(
        (shown.subject, shown.date_sent, shown.reminder_at, shown.to, shown.cc, shown.bcc),
        ("s".into(), "d".into(), "r".into(), "t".into(), "c".into(), "b".into())
    );
    assert_eq!((shown.html_format, shown.text_format), ("h".to_string(), "x".to_string()));
}

#[test]
fn group_by_thread_groups_in_order_of_first_occurrence_oldest_first_inside() {
    let messages = vec![
        record("a3", Some("A"), "a newest", None),
        record("b2", Some("B"), "b newest", None),
        record("a2", Some("A"), "a middle", None),
        record("lone", None, "alone", None),
        record("b1", Some("B"), "b oldest", None),
        record("a1", Some("A"), "a oldest", None),
    ];
    let threads = group_by_thread(&messages);
    let got: Vec<(String, Vec<String>)> = threads
        .iter()
        .map(|t| (t.subject.clone(), t.children.iter().map(|c| c.message_id.clone()).collect()))
        .collect();
    assert_eq!(
        got,
        vec![
            ("a newest".to_string(), vec!["a1".to_string(), "a2".to_string(), "a3".to_string()]),
            ("b newest".to_string(), vec!["b1".to_string(), "b2".to_string()]),
            ("alone".to_string(), vec!["lone".to_string()]),
        ]
    );
    assert_eq!(group_by_thread(&vec![]), vec![]);
}

#[test]
fn records_without_a_key_are_conversations_of_their_own() {
    let messages = vec![
        record("x", None, "first", None),
        record("y", None, "second", None),
        record("k", Some("x"), "keyed like an identity", None),
    ];
    let threads = group_by_thread(&messages);
    assert_eq!(threads.len(), 3);
    assert_eq!(threads[0].children.len(), 1);
    assert_eq!(threads[2].children[0].message_id, "k");
}

#[test]
fn arrange_shows_buckets_in_their_fixed_order() {
    let now = day(2024, 6, 15, 2024, 24);
    let threads = vec![
        dated("later this month", Some(day(2024, 6, 30, 2024, 26))),
        dated("unreadable", None),
        dated("today one", Some(day(2024, 6, 15, 2024, 24))),
        dated("may", Some(day(2024, 5, 2, 2024, 18))),
        dated("monday", Some(day(2024, 6, 10, 2024, 24))),
        dated("today two", Some(day(2024, 6, 15, 2024, 24))),
        dated("april", Some(day(2024, 4, 1, 2024, 14))),
        dated("may again", Some(day(2024, 5, 30, 2024, 22))),
        dated("early june", Some(day(2024, 6, 1, 2024, 22))),
    ];
    let groups = arrange(&threads, now);
    assert_eq!(
        shape(&groups),
        vec![
            ("Today".to_string(), vec!["today one".to_string(), "today two".to_string()]),
            ("This week".to_string(), vec!["monday".to_string()]),
            (
                "This month".to_string(),
                vec!["later this month".to_string(), "early june".to_string()]
            ),
            ("05-2024".to_string(), vec!["may".to_string(), "may again".to_string()]),
            ("04-2024".to_string(), vec!["april".to_string()]),
            ("Date Error".to_string(), vec!["unreadable".to_string()]),
        ]
    );
}

#[test]
fn arrange_shows_only_buckets_that_hold_something() {
    let now = day(2024, 6, 15, 2024, 24);
    assert_eq!(arrange(&vec![], now), vec![]);
    let groups = arrange(&vec![dated("old", Some(day(2020, 1, 1, 2020, 1)))], now);
    assert_eq!(shape(&groups), vec![("01-2020".to_string(), vec!["old".to_string()])]);
}

#[test]
fn date_threads_reads_the_date_of_the_newest_message() {
    let oldest = show(&record("1", Some("k"), "s", Some("Mon, 06 Mar 2023 10:21:03 -0800")));
    let newest = show(&record("2", Some("k"), "s", Some("Wed, 15 Nov 2023 12:00:00 +0000")));
    let readable = EmailThread { subject: "s".to_string(), children: vec![oldest.clone(), newest] };
    let unreadable = EmailThread {
        subject: "u".to_string(),
        children: vec![oldest, show(&record("3", Some("u"), "u", Some("yesterday")))],
    };
    let no_date =
        EmailThread { subject: "n".to_string(), children: vec![show(&record("4", None, "n", None))] };
    let empty = EmailThread { subject: "e".to_string(), children: vec![] };
    let threads = vec![readable.clone(), unreadable.clone(), no_date.clone(), empty.clone()];
    let dated = date_threads(threads);
    assert_eq!(dated.len(), 4);
    assert_eq!(dated[0].thread, readable);
    assert_eq!(dated[1].thread, unreadable);
    assert_eq!(dated[2].thread, no_date);
    assert_eq!(dated[3].thread, empty);
    let on = dated[0].day.unwrap();
    assert_eq!((on.year, on.month), (2023, 11));
    assert!(on.day == 15 || on.day == 14 || on.day == 16);
    assert_eq!(dated[1].day, None);
    assert_eq!(dated[2].day, None);
    assert_eq!(dated[3].day, None);
}

#[test]
fn assemble_groups_and_buckets_a_flat_list() {
    let now = day(2024, 6, 15, 2024, 24);
    let messages = vec![
        record("n2", Some("N"), "november", Some("Wed, 15 Nov 2023 12:00:00 +0000")),
        record("x", None, "no date", None),
        record("n1", Some("N"), "november first", Some("Fri, 10 Nov 2023 12:00:00 +0000")),
        record("m", Some("M"), "march", Some("Mon, 06 Mar 2023 10:21:03 -0800")),
        record("y", Some("Y"), "bad date", Some("soon")),
    ];
    let groups = assemble(&messages, now);
    assert_eq!(
        shape(&groups),
        vec![
            ("11-2023".to_string(), vec!["november".to_string()]),
            ("03-2023".to_string(), vec!["march".to_string()]),
            ("Date Error".to_string(), vec!["no date".to_string(), "bad date".to_string()]),
        ]
    );
    assert_eq!(
        groups[0].children[0].children.iter().map(|c| c.message_id.as_str()).collect::<Vec<_>>(),
        vec!["n1", "n2"]
    );
}
