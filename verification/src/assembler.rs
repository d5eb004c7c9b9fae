use vstd::prelude::*;
use crate::dates::{
    bucket_label, date_group_on, lemma_fixed_names_differ, local_day, rfc2822_timestamp, CalendarDay,
};
use crate::models::{group_key, same_thread, Message, MessageView};
use crate::text::text_of;

verus! {

/// One message as a listing shows it.
#[derive(Clone, Debug, PartialEq)]
pub struct Email {
    pub message_id: String,
    pub subject: String,
    pub from: String,
    pub to: String,
    pub cc: String,
    pub bcc: String,
    pub html_format: String,
    pub text_format: String,
    pub date_sent: String,
    pub done: bool,
    pub pinned: bool,
    pub reminder_at: String,
}

/// One conversation as a listing shows it: its messages from the oldest
/// to the newest, under the subject of the newest.
#[derive(Clone, Debug, PartialEq)]
pub struct EmailThread {
    pub subject: String,
    pub children: Vec<Email>,
}

/// The conversations that fall into one date bucket.
#[derive(Clone, Debug, PartialEq)]
pub struct EmailGroup {
    pub name: String,
    pub children: Vec<EmailThread>,
}

/// A conversation with the local day of its newest message, where the
/// date of that message could be read.
#[derive(Clone, Debug, PartialEq)]
pub struct DatedThread {
    pub thread: EmailThread,
    pub day: Option<CalendarDay>,
}

pub struct EmailView {
    pub message_id: Seq<char>,
    pub subject: Seq<char>,
    pub from: Seq<char>,
    pub to: Seq<char>,
    pub cc: Seq<char>,
    pub bcc: Seq<char>,
    pub html_format: Seq<char>,
    pub text_format: Seq<char>,
    pub date_sent: Seq<char>,
    pub done: bool,
    pub pinned: bool,
    pub reminder_at: Seq<char>,
}

pub struct EmailThreadView {
    pub subject: Seq<char>,
    pub children: Seq<EmailView>,
}

pub struct EmailGroupView {
    pub name: Seq<char>,
    pub children: Seq<EmailThreadView>,
}

pub struct DatedThreadView {
    pub thread: EmailThreadView,
    pub day: Option<CalendarDay>,
}

impl View for Email {
    type V = EmailView;

    open spec fn view(&self) -> EmailView {
        EmailView {
            message_id: self.message_id@,
            subject: self.subject@,
            from: self.from@,
            to: self.to@,
            cc: self.cc@,
            bcc: self.bcc@,
            html_format: self.html_format@,
            text_format: self.text_format@,
            date_sent: self.date_sent@,
            done: self.done,
            pinned: self.pinned,
            reminder_at: self.reminder_at@,
        }
    }
}

impl DeepView for Email {
    type V = EmailView;

    open spec fn deep_view(&self) -> EmailView {
        self@
    }
}

impl View for EmailThread {
    type V = EmailThreadView;

    open spec fn view(&self) -> EmailThreadView {
        EmailThreadView { subject: self.subject@, children: self.children.deep_view() }
    }
}

impl DeepView for EmailThread {
    type V = EmailThreadView;

    open spec fn deep_view(&self) -> EmailThreadView {
        self@
    }
}

impl View for EmailGroup {
    type V = EmailGroupView;

    open spec fn view(&self) -> EmailGroupView {
        EmailGroupView { name: self.name@, children: self.children.deep_view() }
    }
}

impl DeepView for EmailGroup {
    type V = EmailGroupView;

    open spec fn deep_view(&self) -> EmailGroupView {
        self@
    }
}

impl View for DatedThread {
    type V = DatedThreadView;

    open spec fn view(&self) -> DatedThreadView {
        DatedThreadView { thread: self.thread@, day: self.day }
    }
}

impl DeepView for DatedThread {
    type V = DatedThreadView;

    open spec fn deep_view(&self) -> DatedThreadView {
        self@
    }
}

/// The text of a field, empty where the field is absent.
pub open spec fn or_empty(field: Option<Seq<char>>) -> Seq<char> {
    match field {
        Some(text) => text,
        None => Seq::empty(),
    }
}

/// A record as a listing shows it. Absent fields are shown empty; a
/// message counts as done, or as pinned, where the record holds a time
/// for it.
pub open spec fn shown(m: MessageView) -> EmailView {
    EmailView {
        message_id: m.message_id,
        subject: or_empty(m.subject),
        from: or_empty(m.message_from),
        to: or_empty(m.message_to),
        cc: or_empty(m.message_cc),
        bcc: or_empty(m.message_bcc),
        html_format: or_empty(m.html_format),
        text_format: or_empty(m.text_format),
        date_sent: or_empty(m.sent_at),
        done: m.done_at is Some,
        pinned: m.pinned_at is Some,
        reminder_at: or_empty(m.reminder_at),
    }
}

/// The conversations of `messages`, each once, in the order in which
/// they first occur.
pub open spec fn thread_keys(messages: Seq<MessageView>) -> Seq<(bool, Seq<char>)>
    decreases messages.len(),
{
    if messages.len() == 0 {
        Seq::empty()
    } else {
        let before = thread_keys(messages.drop_last());
        if before.contains(group_key(messages.last())) {
            before
        } else {
            before.push(group_key(messages.last()))
        }
    }
}

/// The records of one conversation, in the reverse of the order in
/// which `messages` has them: where `messages` runs from the newest to the
/// oldest, from the oldest to the newest.
pub open spec fn members(messages: Seq<MessageView>, key: (bool, Seq<char>)) -> Seq<EmailView>
    decreases messages.len(),
{
    if messages.len() == 0 {
        Seq::empty()
    } else if group_key(messages.last()) == key {
        seq![shown(messages.last())] + members(messages.drop_last(), key)
    } else {
        members(messages.drop_last(), key)
    }
}

/// The conversation of `key` as a listing shows it, under the subject of
/// the record that `messages` has first.
pub open spec fn thread_shown(messages: Seq<MessageView>, key: (bool, Seq<char>)) -> EmailThreadView {
    let children = members(messages, key);
    EmailThreadView { subject: children.last().subject, children: children }
}

/// The conversations of `messages` in the order in which they first
/// occur.
pub open spec fn grouped(messages: Seq<MessageView>) -> Seq<EmailThreadView> {
    Seq::new(
        thread_keys(messages).len(),
        |t: int| thread_shown(messages, thread_keys(messages)[t]),
    )
}

/// Shows one record.
pub fn show(m: &Message) -> (r: Email)
    ensures
        r@ == shown(m@),
{
    Email {
        message_id: m.message_id.clone(),
        subject: text_or_empty(&m.subject),
        from: text_or_empty(&m.message_from),
        to: text_or_empty(&m.message_to),
        cc: text_or_empty(&m.message_cc),
        bcc: text_or_empty(&m.message_bcc),
        html_format: text_or_empty(&m.html_format),
        text_format: text_or_empty(&m.text_format),
        date_sent: text_or_empty(&m.sent_at),
        done: m.done_at.is_some(),
        pinned: m.pinned_at.is_some(),
        reminder_at: text_or_empty(&m.reminder_at),
    }
}

/// The text of a field, empty where the field is absent.
fn text_or_empty(field: &Option<String>) -> (r: String)
    ensures
        r@ == or_empty(text_of(*field)),
{
    match field {
        Some(text) => text.clone(),
        None => String::new(),
    }
}

/// A conversation is among the conversations of `messages` exactly where
/// one of the records belongs to it.
proof fn lemma_thread_keys_hold(messages: Seq<MessageView>, key: (bool, Seq<char>))
    ensures
        thread_keys(messages).contains(key) <==> exists|i: int|
            0 <= i < messages.len() && group_key(#[trigger] messages[i]) == key,
    decreases messages.len(),
{
    if messages.len() > 0 {
        let rest = messages.drop_last();
        let before = thread_keys(rest);
        let out = thread_keys(messages);
        lemma_thread_keys_hold(rest, key);
        if out.contains(key) {
            let t = choose|t: int| 0 <= t < out.len() && out[t] == key;
            if t < before.len() {
                assert(before[t] == key);
                assert(before.contains(key));
                let i = choose|i: int| 0 <= i < rest.len() && group_key(#[trigger] rest[i]) == key;
                assert(group_key(messages[i]) == key);
            } else {
                assert(group_key(messages[messages.len() - 1]) == key);
            }
        }
        if exists|i: int| 0 <= i < messages.len() && group_key(#[trigger] messages[i]) == key {
            let i = choose|i: int| 0 <= i < messages.len() && group_key(#[trigger] messages[i]) == key;
            if i < rest.len() {
                assert(group_key(rest[i]) == key);
                assert(before.contains(key));
                let t = choose|t: int| 0 <= t < before.len() && before[t] == key;
                assert(out[t] == key);
            } else if before.contains(key) {
                let t = choose|t: int| 0 <= t < before.len() && before[t] == key;
                assert(out[t] == key);
            } else {
                assert(out[before.len() as int] == key);
            }
        }
    }
}

/// The conversation of a record holds at least that record.
proof fn lemma_members_hold(messages: Seq<MessageView>, at: int)
    requires
        0 <= at < messages.len(),
    ensures
        members(messages, group_key(messages[at])).len() > 0,
    decreases messages.len(),
{
    if at < messages.len() - 1 {
        lemma_members_hold(messages.drop_last(), at);
    }
}

/// The records of the conversation of `messages[at]`, from the last of
/// `messages` to the first.
fn members_of(messages: &Vec<Message>, at: usize) -> (r: Vec<Email>)
    requires
        at < messages.len(),
    ensures
        r.deep_view() == members(messages.deep_view(), group_key(messages[at as int]@)),
        r.len() > 0,
{
    let ghost all = messages.deep_view();
    let ghost key = group_key(messages[at as int]@);
    let mut out: Vec<Email> = Vec::new();
    let mut j: usize = messages.len();
    assert(all.take(j as int) == all);
    assert(out.deep_view() + members(all, key) =~= members(all, key));
    while j > 0
        invariant
            j <= messages.len(),
            at < messages.len(),
            all == messages.deep_view(),
            key == group_key(messages[at as int]@),
            members(all, key) == out.deep_view() + members(all.take(j as int), key),
        decreases j,
    {
        proof {
            assert(all.take(j as int).drop_last() == all.take(j - 1));
            assert(all.take(j as int).last() == messages[j - 1]@);
        }
        if same_thread(&messages[j - 1], &messages[at]) {
            let ghost before = out.deep_view();
            out.push(show(&messages[j - 1]));
            assert(out.deep_view() =~= before.push(shown(messages[j - 1]@)));
            assert(before + (seq![shown(messages[j - 1]@)] + members(all.take(j - 1), key))
                =~= out.deep_view() + members(all.take(j - 1), key));
        }
        j = j - 1;
    }
    proof {
        assert(out.deep_view() + Seq::<EmailView>::empty() =~= out.deep_view());
        lemma_members_hold(all, at as int);
    }
    out
}

/// Groups a flat list of records into conversations, in the order in
/// which the conversations first occur in the list. A record without a
/// thread key is a conversation of its own. Given the records from the
/// newest to the oldest, every conversation comes out from its oldest
/// record to its newest, and the conversation with the newest record
/// comes first.
pub fn group_by_thread(messages: &Vec<Message>) -> (r: Vec<EmailThread>)
    ensures
        r.deep_view() == grouped(messages.deep_view()),
{
    let ghost all = messages.deep_view();
    let mut threads: Vec<EmailThread> = Vec::new();
    let mut i: usize = 0;
    assert(all.take(0) =~= Seq::<MessageView>::empty());
    while i < messages.len()
        invariant
            i <= messages.len(),
            all == messages.deep_view(),
            threads.len() == thread_keys(all.take(i as int)).len(),
            forall|t: int|
                0 <= t < threads.len() ==> (#[trigger] threads.deep_view()[t]) == thread_shown(
                    all,
                    thread_keys(all.take(i as int))[t],
                ),
        decreases messages.len() - i,
    {
        let ghost key = group_key(messages[i as int]@);
        let ghost before = thread_keys(all.take(i as int));
        proof {
            assert(all.take(i + 1).drop_last() == all.take(i as int));
            assert(all.take(i + 1).last() == messages[i as int]@);
            lemma_thread_keys_hold(all.take(i as int), key);
        }
        let mut seen = false;
        let mut j: usize = 0;
        while j < i
            invariant
                j <= i < messages.len(),
                all == messages.deep_view(),
                key == group_key(messages[i as int]@),
                seen <==> exists|k: int| 0 <= k < j && group_key(#[trigger] all[k]) == key,
            decreases i - j,
        {
            if same_thread(&messages[j], &messages[i]) {
                assert(group_key(all[j as int]) == key);
                seen = true;
            }
            j = j + 1;
        }
        proof {
            if seen {
                let k = choose|k: int| 0 <= k < i && group_key(#[trigger] all[k]) == key;
                assert(group_key(all.take(i as int)[k]) == key);
            }
            if before.contains(key) {
                let k = choose|k: int|
                    0 <= k < all.take(i as int).len() && group_key(
                        #[trigger] all.take(i as int)[k],
                    ) == key;
                assert(group_key(all[k]) == key);
            }
            assert(seen == before.contains(key));
        }
        if !seen {
            let children = members_of(messages, i);
            let subject = children[children.len() - 1].subject.clone();
            let ghost shown_before = threads.deep_view();
            threads.push(EmailThread { subject, children });
            assert(threads.deep_view() =~= shown_before.push(thread_shown(all, key)));
        }
        i = i + 1;
    }
    assert(all.take(i as int) == all);
    assert(threads.deep_view() =~= grouped(all));
    threads
}

/// The name of a bucket that has a fixed place among the buckets.
pub open spec fn is_fixed_name(name: Seq<char>) -> bool {
    name == "Today"@ || name == "This week"@ || name == "This month"@ || name == "Date Error"@
}

/// The labels without a fixed place, which are those of months, each
/// once, in the order in which they first occur.
pub open spec fn month_names(labels: Seq<Seq<char>>) -> Seq<Seq<char>>
    decreases labels.len(),
{
    if labels.len() == 0 {
        Seq::empty()
    } else {
        let before = month_names(labels.drop_last());
        if is_fixed_name(labels.last()) || before.contains(labels.last()) {
            before
        } else {
            before.push(labels.last())
        }
    }
}

/// `name` alone where it is among the labels, and nothing where it is
/// not.
pub open spec fn present(labels: Seq<Seq<char>>, name: Seq<char>) -> Seq<Seq<char>> {
    if labels.contains(name) {
        seq![name]
    } else {
        Seq::empty()
    }
}

/// The buckets that the labels call for, in the order in which they are
/// shown: `Today`, `This week`, `This month`, then the months in the order
/// in which they first occur, and `Date Error` last.
pub open spec fn bucket_names(labels: Seq<Seq<char>>) -> Seq<Seq<char>> {
    present(labels, "Today"@) + present(labels, "This week"@) + present(labels, "This month"@)
        + month_names(labels) + present(labels, "Date Error"@)
}

/// The labels of dated conversations on the day `now`, one for one.
pub open spec fn labels_on(dated: Seq<DatedThreadView>, now: CalendarDay) -> Seq<Seq<char>> {
    Seq::new(dated.len(), |i: int| bucket_label(dated[i].day, now))
}

/// The conversations that fall into the bucket `name` on the day `now`,
/// in the order in which `dated` has them.
pub open spec fn bucket_members(dated: Seq<DatedThreadView>, now: CalendarDay, name: Seq<char>) -> Seq<
    EmailThreadView,
>
    decreases dated.len(),
{
    if dated.len() == 0 {
        Seq::empty()
    } else {
        let before = bucket_members(dated.drop_last(), now, name);
        if bucket_label(dated.last().day, now) == name {
            before.push(dated.last().thread)
        } else {
            before
        }
    }
}

/// Dated conversations as date buckets on the day `now`. Only buckets
/// into which a conversation falls are shown.
pub open spec fn arranged(dated: Seq<DatedThreadView>, now: CalendarDay) -> Seq<EmailGroupView> {
    let names = bucket_names(labels_on(dated, now));
    Seq::new(
        names.len(),
        |b: int| EmailGroupView { name: names[b], children: bucket_members(dated, now, names[b]) },
    )
}

impl Email {
    /// A copy of this message.
    pub fn duplicate(&self) -> (r: Email)
        ensures
            r@ == self@,
    {
        Email {
            message_id: self.message_id.clone(),
            subject: self.subject.clone(),
            from: self.from.clone(),
            to: self.to.clone(),
            cc: self.cc.clone(),
            bcc: self.bcc.clone(),
            html_format: self.html_format.clone(),
            text_format: self.text_format.clone(),
            date_sent: self.date_sent.clone(),
            done: self.done,
            pinned: self.pinned,
            reminder_at: self.reminder_at.clone(),
        }
    }
}

impl EmailThread {
    /// A copy of this conversation.
    pub fn duplicate(&self) -> (r: EmailThread)
        ensures
            r@ == self@,
    {
        let mut children: Vec<Email> = Vec::new();
        let mut i: usize = 0;
        while i < self.children.len()
            invariant
                i <= self.children.len(),
                children.deep_view() == self.children.deep_view().take(i as int),
            decreases self.children.len() - i,
        {
            let ghost before = children.deep_view();
            children.push(self.children[i].duplicate());
            assert(children.deep_view() =~= before.push(self.children[i as int]@));
            assert(self.children.deep_view().take(i + 1) =~= before.push(self.children[i as int]@));
            i = i + 1;
        }
        assert(self.children.deep_view().take(i as int) == self.children.deep_view());
        EmailThread { subject: self.subject.clone(), children }
    }
}

/// The labels of dated conversations on the day `now`.
fn label_all(dated: &Vec<DatedThread>, now: CalendarDay) -> (r: Vec<String>)
    ensures
        r.deep_view() == labels_on(dated.deep_view(), now),
{
    let mut labels: Vec<String> = Vec::new();
    let mut i: usize = 0;
    while i < dated.len()
        invariant
            i <= dated.len(),
            labels.len() == i,
            forall|k: int|
                0 <= k < i ==> (#[trigger] labels.deep_view()[k]) == bucket_label(
                    dated.deep_view()[k].day,
                    now,
                ),
        decreases dated.len() - i,
    {
        let ghost before = labels.deep_view();
        let label = date_group_on(dated[i].day, now);
        labels.push(label);
        assert(labels.deep_view() =~= before.push(bucket_label(dated[i as int]@.day, now)));
        i = i + 1;
    }
    assert(labels.deep_view() =~= labels_on(dated.deep_view(), now));
    labels
}

/// Whether `name` is among `labels`.
fn holds_label(labels: &Vec<String>, name: &String) -> (r: bool)
    ensures
        r == labels.deep_view().contains(name@),
{
    let mut i: usize = 0;
    while i < labels.len()
        invariant
            i <= labels.len(),
            forall|k: int| 0 <= k < i ==> labels.deep_view()[k] != name@,
        decreases labels.len() - i,
    {
        if labels[i] == *name {
            assert(labels.deep_view()[i as int] == name@);
            return true;
        }
        i = i + 1;
    }
    false
}

/// Appends `name` to `names` where it is among `labels`.
fn push_present(names: &mut Vec<String>, labels: &Vec<String>, name: &str)
    ensures
        final(names).deep_view() == old(names).deep_view() + present(labels.deep_view(), name@),
{
    let owned = name.to_owned();
    let ghost before = names.deep_view();
    if holds_label(labels, &owned) {
        names.push(owned);
        assert(names.deep_view() =~= before + seq![name@]);
    } else {
        assert(names.deep_view() =~= before + Seq::<Seq<char>>::empty());
    }
}

/// Whether `name` is the name of a bucket with a fixed place.
fn has_fixed_place(name: &String) -> (r: bool)
    ensures
        r == is_fixed_name(name@),
{
    *name == "Today".to_owned() || *name == "This week".to_owned() || *name
        == "This month".to_owned() || *name == "Date Error".to_owned()
}

/// Appends to `names` the months among `labels`.
fn push_months(names: &mut Vec<String>, labels: &Vec<String>)
    ensures
        final(names).deep_view() == old(names).deep_view() + month_names(labels.deep_view()),
{
    let ghost start = names.deep_view();
    let mut months: Vec<String> = Vec::new();
    let mut i: usize = 0;
    assert(labels.deep_view().take(0) =~= Seq::<Seq<char>>::empty());
    assert(months.deep_view() =~= Seq::<Seq<char>>::empty());
    while i < labels.len()
        invariant
            i <= labels.len(),
            months.deep_view() == month_names(labels.deep_view().take(i as int)),
        decreases labels.len() - i,
    {
        proof {
            assert(labels.deep_view().take(i + 1).drop_last() == labels.deep_view().take(i as int));
            assert(labels.deep_view().take(i + 1).last() == labels[i as int]@);
        }
        if !has_fixed_place(&labels[i]) && !holds_label(&months, &labels[i]) {
            let ghost before = months.deep_view();
            months.push(labels[i].clone());
            assert(months.deep_view() =~= before.push(labels[i as int]@));
        }
        i = i + 1;
    }
    assert(labels.deep_view().take(i as int) == labels.deep_view());
    let ghost found = months.deep_view();
    names.append(&mut months);
    assert(names.deep_view() =~= start + found);
}

/// The conversations among `dated` whose label is `name`.
fn members_named(dated: &Vec<DatedThread>, labels: &Vec<String>, now: CalendarDay, name: &String) -> (r:
    Vec<EmailThread>)
    requires
        labels.deep_view() == labels_on(dated.deep_view(), now),
    ensures
        r.deep_view() == bucket_members(dated.deep_view(), now, name@),
{
    let mut out: Vec<EmailThread> = Vec::new();
    let mut i: usize = 0;
    assert(dated.deep_view().take(0) =~= Seq::<DatedThreadView>::empty());
    assert(out.deep_view() =~= Seq::<EmailThreadView>::empty());
    assert(labels.deep_view().len() == dated.deep_view().len());
    while i < dated.len()
        invariant
            i <= dated.len(),
            labels.len() == dated.len(),
            labels.deep_view() == labels_on(dated.deep_view(), now),
            out.deep_view() == bucket_members(dated.deep_view().take(i as int), now, name@),
        decreases dated.len() - i,
    {
        proof {
            assert(dated.deep_view().take(i + 1).drop_last() == dated.deep_view().take(i as int));
            assert(dated.deep_view().take(i + 1).last() == dated[i as int]@);
            assert(labels.deep_view()[i as int] == bucket_label(dated[i as int]@.day, now));
        }
        if labels[i] == *name {
            let ghost before = out.deep_view();
            out.push(dated[i].thread.duplicate());
            assert(out.deep_view() =~= before.push(dated[i as int]@.thread));
        }
        i = i + 1;
    }
    assert(dated.deep_view().take(i as int) == dated.deep_view());
    out
}

/// Sorts dated conversations into date buckets as they are seen on the
/// day `now`. The buckets come in their fixed order, and within each the
/// conversations keep the order in which they were given.
pub fn arrange(dated: &Vec<DatedThread>, now: CalendarDay) -> (r: Vec<EmailGroup>)
    ensures
        r.deep_view() == arranged(dated.deep_view(), now),
{
    let labels = label_all(dated, now);
    let mut names: Vec<String> = Vec::new();
    assert(names.deep_view() =~= Seq::<Seq<char>>::empty());
    push_present(&mut names, &labels, "Today");
    push_present(&mut names, &labels, "This week");
    push_present(&mut names, &labels, "This month");
    push_months(&mut names, &labels);
    push_present(&mut names, &labels, "Date Error");
    assert(names.deep_view() =~= bucket_names(labels.deep_view()));
    let mut groups: Vec<EmailGroup> = Vec::new();
    let mut b: usize = 0;
    while b < names.len()
        invariant
            b <= names.len(),
            groups.len() == b,
            labels.deep_view() == labels_on(dated.deep_view(), now),
            forall|k: int|
                0 <= k < b ==> (#[trigger] groups.deep_view()[k]) == (EmailGroupView {
                    name: names.deep_view()[k],
                    children: bucket_members(dated.deep_view(), now, names.deep_view()[k]),
                }),
        decreases names.len() - b,
    {
        let ghost before = groups.deep_view();
        let children = members_named(dated, &labels, now, &names[b]);
        groups.push(EmailGroup { name: names[b].clone(), children });
        assert(groups.deep_view() =~= before.push(
            EmailGroupView {
                name: names[b as int]@,
                children: bucket_members(dated.deep_view(), now, names[b as int]@),
            },
        ));
        b = b + 1;
    }
    assert(groups.deep_view() =~= arranged(dated.deep_view(), now));
    groups
}

/// The date under which a conversation is ranked: that of its newest
/// message, which is the last one shown.
pub open spec fn representative_date(thread: EmailThreadView) -> Seq<char> {
    thread.children.last().date_sent
}

/// `dated` holds the conversations `threads`, one for one, each with a
/// day exactly where its representative date can be read.
pub open spec fn dates_threads(dated: Seq<DatedThreadView>, threads: Seq<EmailThreadView>) -> bool {
    &&& dated.len() == threads.len()
    &&& forall|i: int|
        0 <= i < dated.len() ==> {
            &&& (#[trigger] dated[i]).thread == threads[i]
            &&& dated[i].day is Some <==> threads[i].children.len() > 0 && rfc2822_timestamp(
                representative_date(threads[i]),
            ) is Some
            &&& dated[i].day matches Some(day) ==> day.valid()
        }
}

/// Finds for each conversation the local day of its newest message, in
/// the time zone of this machine. A conversation whose newest message
/// has no date that can be read gets no day.
pub fn date_threads(threads: Vec<EmailThread>) -> (r: Vec<DatedThread>)
    ensures
        dates_threads(r.deep_view(), threads.deep_view()),
{
    let ghost all = threads.deep_view();
    let mut rest = threads;
    let mut turned: Vec<DatedThread> = Vec::new();
    // Conversations are taken from the back and turned round at the end.
    while rest.len() > 0
        invariant
            rest.deep_view() == all.take(rest.len() as int),
            rest.len() <= all.len(),
            turned.len() == all.len() - rest.len(),
            forall|k: int|
                0 <= k < turned.len() ==> {
                    let thread = all[all.len() - 1 - k];
                    &&& (#[trigger] turned.deep_view()[k]).thread == thread
                    &&& turned.deep_view()[k].day is Some <==> thread.children.len() > 0
                        && rfc2822_timestamp(representative_date(thread)) is Some
                    &&& turned.deep_view()[k].day matches Some(day) ==> day.valid()
                },
        decreases rest.len(),
    {
        let ghost before = rest.deep_view();
        let ghost turned_before = turned.deep_view();
        let thread = rest.pop().unwrap();
        assert(thread@ == before[before.len() - 1]);
        assert(rest.deep_view() =~= all.take(rest.len() as int));
        assert(thread@ == all[rest.len() as int]);
        let day = if thread.children.len() > 0 {
            local_day(thread.children[thread.children.len() - 1].date_sent.as_str())
        } else {
            None
        };
        turned.push(DatedThread { thread, day });
        assert forall|k: int| 0 <= k < turned.len() implies {
            let thread = all[all.len() - 1 - k];
            &&& (#[trigger] turned.deep_view()[k]).thread == thread
            &&& turned.deep_view()[k].day is Some <==> thread.children.len() > 0
                && rfc2822_timestamp(representative_date(thread)) is Some
            &&& turned.deep_view()[k].day matches Some(day) ==> day.valid()
        } by {
            if k < turned_before.len() {
                assert(turned.deep_view()[k] == turned_before[k]);
            }
        }
    }
    let mut out: Vec<DatedThread> = Vec::new();
    let ghost total = turned.len();
    while turned.len() > 0
        invariant
            total == all.len(),
            out.len() + turned.len() == total,
            forall|k: int|
                0 <= k < turned.len() ==> {
                    let thread = all[all.len() - 1 - k];
                    &&& (#[trigger] turned.deep_view()[k]).thread == thread
                    &&& turned.deep_view()[k].day is Some <==> thread.children.len() > 0
                        && rfc2822_timestamp(representative_date(thread)) is Some
                    &&& turned.deep_view()[k].day matches Some(day) ==> day.valid()
                },
            forall|i: int|
                0 <= i < out.len() ==> {
                    &&& (#[trigger] out.deep_view()[i]).thread == all[i]
                    &&& out.deep_view()[i].day is Some <==> all[i].children.len() > 0
                        && rfc2822_timestamp(representative_date(all[i])) is Some
                    &&& out.deep_view()[i].day matches Some(day) ==> day.valid()
                },
        decreases turned.len(),
    {
        let ghost turned_before = turned.deep_view();
        let ghost out_before = out.deep_view();
        let dated = turned.pop().unwrap();
        assert(dated@ == turned_before[turned_before.len() - 1]);
        out.push(dated);
        assert forall|k: int| 0 <= k < turned.len() implies {
            let thread = all[all.len() - 1 - k];
            &&& (#[trigger] turned.deep_view()[k]).thread == thread
            &&& turned.deep_view()[k].day is Some <==> thread.children.len() > 0
                && rfc2822_timestamp(representative_date(thread)) is Some
            &&& turned.deep_view()[k].day matches Some(day) ==> day.valid()
        } by {
            assert(turned.deep_view()[k] == turned_before[k]);
        }
        assert forall|i: int| 0 <= i < out.len() implies {
            &&& (#[trigger] out.deep_view()[i]).thread == all[i]
            &&& out.deep_view()[i].day is Some <==> all[i].children.len() > 0 && rfc2822_timestamp(
                representative_date(all[i]),
            ) is Some
            &&& out.deep_view()[i].day matches Some(day) ==> day.valid()
        } by {
            if i < out_before.len() {
                assert(out.deep_view()[i] == out_before[i]);
            }
        }
    }
    out
}

/// Assembles a flat list of records into date buckets of conversations,
/// as they are seen on the day `now`. A conversation is ranked and
/// dated by its newest message; its bucket is read off the local day of
/// that message in the time zone of this machine.
pub fn assemble(messages: &Vec<Message>, now: CalendarDay) -> (r: Vec<EmailGroup>)
    ensures
        exists|dated: Seq<DatedThreadView>| #[trigger]
            dates_threads(dated, grouped(messages.deep_view())) && r.deep_view() == arranged(
                dated,
                now,
            ),
{
    let dated = date_threads(group_by_thread(messages));
    arrange(&dated, now)
}

/// Where a bucket stands among the buckets: `Today` before `This week`
/// before `This month` before the months before `Date Error`.
pub open spec fn bucket_rank(name: Seq<char>) -> int {
    if name == "Today"@ {
        0
    } else if name == "This week"@ {
        1
    } else if name == "This month"@ {
        2
    } else if name == "Date Error"@ {
        4
    } else {
        3
    }
}

/// `threads` holds every record of `messages` in the conversation of
/// its key: one conversation to the key, none empty.
pub open spec fn is_grouping_of(threads: Seq<EmailThreadView>, messages: Seq<MessageView>) -> bool {
    &&& threads.len() == thread_keys(messages).len()
    &&& thread_keys(messages).no_duplicates()
    &&& forall|t: int| 0 <= t < threads.len() ==> (#[trigger] threads[t]).children.len() > 0
    &&& forall|i: int|
        0 <= i < messages.len() ==> exists|t: int|
            0 <= t < threads.len() && thread_keys(messages)[t] == group_key(#[trigger] messages[i])
                && (#[trigger] threads[t]).children.contains(shown(messages[i]))
    &&& forall|t: int, c: int|
        0 <= t < threads.len() && 0 <= c < threads[t].children.len() ==> exists|i: int|
            0 <= i < messages.len() && group_key(#[trigger] messages[i]) == thread_keys(messages)[t]
                && shown(messages[i]) == (#[trigger] threads[t].children[c])
}

/// The conversation of a key holds the records with that key and no
/// other.
proof fn lemma_members_shape(messages: Seq<MessageView>, key: (bool, Seq<char>))
    ensures
        forall|i: int|
            0 <= i < messages.len() && group_key(#[trigger] messages[i]) == key ==> members(
                messages,
                key,
            ).contains(shown(messages[i])),
        forall|c: int|
            0 <= c < members(messages, key).len() ==> exists|i: int|
                0 <= i < messages.len() && group_key(#[trigger] messages[i]) == key && shown(
                    messages[i],
                ) == #[trigger] members(messages, key)[c],
    decreases messages.len(),
{
    if messages.len() > 0 {
        let rest = messages.drop_last();
        let inner = members(rest, key);
        let out = members(messages, key);
        lemma_members_shape(rest, key);
        let shift: int = if group_key(messages.last()) == key {
            1
        } else {
            0
        };
        assert(forall|c: int| 0 <= c < inner.len() ==> out[c + shift] == inner[c]);
        assert forall|i: int|
            0 <= i < messages.len() && group_key(#[trigger] messages[i]) == key implies out.contains(
            shown(messages[i]),
        ) by {
            if i < rest.len() {
                assert(rest[i] == messages[i]);
                assert(inner.contains(shown(rest[i])));
                let c = choose|c: int| 0 <= c < inner.len() && inner[c] == shown(rest[i]);
                assert(out[c + shift] == shown(messages[i]));
            } else {
                assert(out[0] == shown(messages[i]));
            }
        }
        assert forall|c: int| 0 <= c < out.len() implies exists|i: int|
            0 <= i < messages.len() && group_key(#[trigger] messages[i]) == key && shown(
                messages[i],
            ) == #[trigger] out[c] by {
            if c < shift {
                assert(group_key(messages[messages.len() - 1]) == key);
            } else {
                assert(out[c] == inner[c - shift]);
                let i = choose|i: int|
                    0 <= i < rest.len() && group_key(#[trigger] rest[i]) == key && shown(rest[i])
                        == inner[c - shift];
                assert(messages[i] == rest[i]);
            }
        }
    } else {
        assert(members(messages, key).len() == 0);
    }
}

/// The conversations of a list are listed once each.
proof fn lemma_thread_keys_distinct(messages: Seq<MessageView>)
    ensures
        thread_keys(messages).no_duplicates(),
    decreases messages.len(),
{
    if messages.len() > 0 {
        lemma_thread_keys_distinct(messages.drop_last());
    }
}

/// Grouping puts every record in the conversation of its key, and
/// makes one conversation to the key.
pub proof fn lemma_grouped_shape(messages: Seq<MessageView>)
    ensures
        is_grouping_of(grouped(messages), messages),
{
    let threads = grouped(messages);
    let keys = thread_keys(messages);
    lemma_thread_keys_distinct(messages);
    assert forall|t: int| 0 <= t < threads.len() implies (#[trigger] threads[t]).children.len()
        > 0 by {
        lemma_thread_keys_hold(messages, keys[t]);
        assert(keys.contains(keys[t]));
        let i = choose|i: int| 0 <= i < messages.len() && group_key(#[trigger] messages[i]) == keys[t];
        lemma_members_hold(messages, i);
    }
    assert forall|i: int| 0 <= i < messages.len() implies exists|t: int|
        0 <= t < threads.len() && keys[t] == group_key(#[trigger] messages[i]) && (
        #[trigger] threads[t]).children.contains(shown(messages[i])) by {
        let key = group_key(messages[i]);
        lemma_thread_keys_hold(messages, key);
        assert(keys.contains(key));
        let t = choose|t: int| 0 <= t < keys.len() && keys[t] == key;
        lemma_members_shape(messages, key);
        assert(threads[t].children.contains(shown(messages[i])));
    }
    assert forall|t: int, c: int|
        0 <= t < threads.len() && 0 <= c < threads[t].children.len() implies exists|i: int|
        0 <= i < messages.len() && group_key(#[trigger] messages[i]) == keys[t] && shown(messages[i])
            == (#[trigger] threads[t].children[c]) by {
        lemma_members_shape(messages, keys[t]);
        assert(threads[t].children[c] == members(messages, keys[t])[c]);
    }
}

/// A bucket holds every conversation with its label.
proof fn lemma_bucket_members_hold(dated: Seq<DatedThreadView>, now: CalendarDay, name: Seq<char>)
    ensures
        forall|i: int|
            0 <= i < dated.len() && bucket_label((#[trigger] dated[i]).day, now) == name
                ==> bucket_members(dated, now, name).contains(dated[i].thread),
    decreases dated.len(),
{
    if dated.len() > 0 {
        let rest = dated.drop_last();
        let inner = bucket_members(rest, now, name);
        let out = bucket_members(dated, now, name);
        lemma_bucket_members_hold(rest, now, name);
        assert forall|i: int|
            0 <= i < dated.len() && bucket_label((#[trigger] dated[i]).day, now)
                == name implies out.contains(dated[i].thread) by {
            if i < rest.len() {
                assert(rest[i] == dated[i]);
                assert(inner.contains(rest[i].thread));
                let c = choose|c: int| 0 <= c < inner.len() && inner[c] == rest[i].thread;
                assert(out[c] == dated[i].thread);
            } else {
                assert(out[inner.len() as int] == dated[i].thread);
            }
        }
    }
}

/// The conversation at one place of a bucket has the label of the
/// bucket.
proof fn lemma_bucket_member_labelled(
    dated: Seq<DatedThreadView>,
    now: CalendarDay,
    name: Seq<char>,
    c: int,
) -> (i: int)
    requires
        0 <= c < bucket_members(dated, now, name).len(),
    ensures
        0 <= i < dated.len(),
        bucket_label(dated[i].day, now) == name,
        dated[i].thread == bucket_members(dated, now, name)[c],
    decreases dated.len(),
{
    let rest = dated.drop_last();
    let inner = bucket_members(rest, now, name);
    if c < inner.len() {
        let i = lemma_bucket_member_labelled(rest, now, name, c);
        assert(dated[i] == rest[i]);
        i
    } else {
        dated.len() - 1
    }
}

/// The months among labels are the labels without a fixed place, once
/// each.
proof fn lemma_month_names_shape(labels: Seq<Seq<char>>)
    ensures
        month_names(labels).no_duplicates(),
        forall|m: int|
            0 <= m < month_names(labels).len() ==> !is_fixed_name(#[trigger] month_names(labels)[m])
                && labels.contains(month_names(labels)[m]),
        forall|i: int|
            0 <= i < labels.len() && !is_fixed_name(#[trigger] labels[i]) ==> month_names(
                labels,
            ).contains(labels[i]),
    decreases labels.len(),
{
    if labels.len() > 0 {
        let rest = labels.drop_last();
        let inner = month_names(rest);
        let out = month_names(labels);
        lemma_month_names_shape(rest);
        assert forall|m: int| 0 <= m < out.len() implies !is_fixed_name(#[trigger] out[m])
            && labels.contains(out[m]) by {
            if m < inner.len() {
                assert(out[m] == inner[m]);
                let i = choose|i: int| 0 <= i < rest.len() && rest[i] == inner[m];
                assert(labels[i] == out[m]);
            } else {
                assert(labels[labels.len() - 1] == out[m]);
            }
        }
        assert forall|i: int|
            0 <= i < labels.len() && !is_fixed_name(#[trigger] labels[i]) implies out.contains(
            labels[i],
        ) by {
            if i < rest.len() {
                assert(rest[i] == labels[i]);
                assert(inner.contains(rest[i]));
                let m = choose|m: int| 0 <= m < inner.len() && inner[m] == rest[i];
                assert(out[m] == labels[i]);
            } else if inner.contains(labels[i]) {
                let m = choose|m: int| 0 <= m < inner.len() && inner[m] == labels[i];
                assert(out[m] == labels[i]);
            } else {
                assert(out[inner.len() as int] == labels[i]);
            }
        }
    }
}

/// The buckets that labels call for are the labels, once each, in the
/// fixed order of the buckets.
proof fn lemma_bucket_names_shape(labels: Seq<Seq<char>>)
    ensures
        forall|b: int|
            0 <= b < bucket_names(labels).len() ==> labels.contains(#[trigger] bucket_names(labels)[b]),
        forall|i: int|
            0 <= i < labels.len() ==> bucket_names(labels).contains(#[trigger] labels[i]),
        forall|b: int, c: int|
            0 <= b < c < bucket_names(labels).len() ==> (#[trigger] bucket_names(labels)[b]) != (
            #[trigger] bucket_names(labels)[c]) && bucket_rank(bucket_names(labels)[b])
                <= bucket_rank(bucket_names(labels)[c]),
{
    let names = bucket_names(labels);
    let today = present(labels, "Today"@);
    let week = present(labels, "This week"@);
    let month = present(labels, "This month"@);
    let months = month_names(labels);
    let error = present(labels, "Date Error"@);
    let base = today.len() + week.len() + month.len();
    lemma_fixed_names_differ();
    lemma_month_names_shape(labels);
    assert(names == today + week + month + months + error);
    assert(names.len() == base + months.len() + error.len());
    assert forall|b: int| 0 <= b < names.len() implies labels.contains(#[trigger] names[b])
        && bucket_rank(names[b]) == (if b < today.len() {
        0int
    } else if b < today.len() + week.len() {
        1int
    } else if b < base {
        2int
    } else if b < base + months.len() {
        3int
    } else {
        4int
    }) && (base <= b < base + months.len() ==> names[b] == months[b - base]) by {
        if b < today.len() {
            assert(names[b] == "Today"@);
        } else if b < today.len() + week.len() {
            assert(names[b] == "This week"@);
        } else if b < base {
            assert(names[b] == "This month"@);
        } else if b < base + months.len() {
            assert(names[b] == months[b - base]);
            assert(!is_fixed_name(months[b - base]));
        } else {
            assert(names[b] == "Date Error"@);
        }
    }
    assert forall|b: int, c: int| 0 <= b < c < names.len() implies (#[trigger] names[b]) != (
    #[trigger] names[c]) && bucket_rank(names[b]) <= bucket_rank(names[c]) by {
        if base <= b && c < base + months.len() {
            assert(months[b - base] != months[c - base]);
        }
    }
    assert forall|i: int| 0 <= i < labels.len() implies names.contains(#[trigger] labels[i]) by {
        let label = labels[i];
        assert(labels.contains(label));
        let b: int = if label == "Today"@ {
            0
        } else if label == "This week"@ {
            today.len() as int
        } else if label == "This month"@ {
            (today.len() + week.len()) as int
        } else if label == "Date Error"@ {
            (base + months.len()) as int
        } else {
            assert(months.contains(label));
            base + choose|m: int| 0 <= m < months.len() && months[m] == label
        };
        assert(names[b] == label);
    }
}

/// The buckets of an arrangement stand in their fixed order, each
/// under a name of its own, `Date Error` last of all. Every bucket holds
/// a conversation, and only conversations with its label.
pub proof fn lemma_arranged_buckets(dated: Seq<DatedThreadView>, now: CalendarDay)
    ensures
        forall|b: int|
            0 <= b < arranged(dated, now).len() && (#[trigger] arranged(dated, now)[b]).name
                == "Date Error"@ ==> b == arranged(dated, now).len() - 1,
        forall|b: int, c: int|
            0 <= b < c < arranged(dated, now).len() ==> (#[trigger] arranged(dated, now)[b]).name != (
            #[trigger] arranged(dated, now)[c]).name && bucket_rank(arranged(dated, now)[b].name)
                <= bucket_rank(arranged(dated, now)[c].name),
        forall|b: int|
            0 <= b < arranged(dated, now).len() ==> (#[trigger] arranged(dated, now)[b]).children.len()
                > 0,
        forall|b: int, c: int|
            0 <= b < arranged(dated, now).len() && 0 <= c < arranged(dated, now)[b].children.len()
                ==> exists|i: int|
                0 <= i < dated.len() && bucket_label((#[trigger] dated[i]).day, now) == arranged(
                    dated,
                    now,
                )[b].name && dated[i].thread == (#[trigger] arranged(dated, now)[b].children[c]),
{
    let labels = labels_on(dated, now);
    let names = bucket_names(labels);
    let groups = arranged(dated, now);
    lemma_bucket_names_shape(labels);
    assert forall|b: int, c: int| 0 <= b < c < groups.len() implies (#[trigger] groups[b]).name != (
    #[trigger] groups[c]).name && bucket_rank(groups[b].name) <= bucket_rank(groups[c].name) by {
        assert(groups[b].name == names[b] && groups[c].name == names[c]);
    }
    assert forall|b: int|
        0 <= b < groups.len() && (#[trigger] groups[b]).name == "Date Error"@ implies b
        == groups.len() - 1 by {
        lemma_fixed_names_differ();
        if b < groups.len() - 1 {
            let last = groups.len() - 1;
            assert(groups[b].name != groups[last].name && bucket_rank(groups[b].name) <= bucket_rank(
                groups[last].name,
            ));
        }
    }
    assert forall|b: int| 0 <= b < groups.len() implies (#[trigger] groups[b]).children.len()
        > 0 by {
        lemma_bucket_members_hold(dated, now, names[b]);
        assert(labels.contains(names[b]));
        let i = choose|i: int| 0 <= i < labels.len() && labels[i] == names[b];
        assert(bucket_label(dated[i].day, now) == names[b]);
        assert(bucket_members(dated, now, names[b]).contains(dated[i].thread));
    }
    assert forall|b: int, c: int|
        0 <= b < groups.len() && 0 <= c < groups[b].children.len() implies exists|i: int|
        0 <= i < dated.len() && bucket_label((#[trigger] dated[i]).day, now) == groups[b].name
            && dated[i].thread == (#[trigger] groups[b].children[c]) by {
        assert(groups[b].children == bucket_members(dated, now, names[b]));
        let i = lemma_bucket_member_labelled(dated, now, names[b], c);
        assert(bucket_label(dated[i].day, now) == groups[b].name);
    }
}

/// Every conversation stands in the bucket named by its label.
pub proof fn lemma_arranged_holds_all(dated: Seq<DatedThreadView>, now: CalendarDay)
    ensures
        forall|i: int|
            0 <= i < dated.len() ==> exists|b: int|
                0 <= b < arranged(dated, now).len() && (#[trigger] arranged(dated, now)[b]).name
                    == bucket_label((#[trigger] dated[i]).day, now) && arranged(
                    dated,
                    now,
                )[b].children.contains(dated[i].thread),
{
    let labels = labels_on(dated, now);
    let names = bucket_names(labels);
    let groups = arranged(dated, now);
    lemma_bucket_names_shape(labels);
    assert forall|i: int| 0 <= i < dated.len() implies exists|b: int|
        0 <= b < groups.len() && (#[trigger] groups[b]).name == bucket_label(
            (#[trigger] dated[i]).day,
            now,
        ) && groups[b].children.contains(dated[i].thread) by {
        let label = bucket_label(dated[i].day, now);
        assert(labels[i] == label);
        assert(names.contains(label));
        let b = choose|b: int| 0 <= b < names.len() && names[b] == label;
        lemma_bucket_members_hold(dated, now, label);
        assert(groups[b].name == label);
        assert(bucket_members(dated, now, label).contains(dated[i].thread));
    }
}

} // verus!
