use vstd::prelude::*;
use crate::database::{MessageFilter, MessageStore};
use crate::database::distinct_identities;
use crate::models::{group_key, same_thread, Message, MessageView};
use crate::text::{contains, has_substring, text_of};

verus! {

/// Where a date stands among dates: a later instant stands higher, and
/// a date that could not be read stands below every date that could.
pub open spec fn date_rank(sent_date: Option<i64>) -> int {
    match sent_date {
        Some(seconds) => seconds as int,
        None => i64::MIN - 1,
    }
}

/// `sorted` with `m` put behind the last record that is not older than it.
pub open spec fn placed(sorted: Seq<MessageView>, m: MessageView) -> Seq<MessageView>
    decreases sorted.len(),
{
    if sorted.len() == 0 || date_rank(sorted.last().sent_date) >= date_rank(m.sent_date) {
        sorted.push(m)
    } else {
        placed(sorted.drop_last(), m).push(sorted.last())
    }
}

/// The records from the newest to the oldest. Records of the same date,
/// and those without a date, keep the order in which they were stored.
pub open spec fn newest_first(messages: Seq<MessageView>) -> Seq<MessageView>
    decreases messages.len(),
{
    if messages.len() == 0 {
        Seq::empty()
    } else {
        placed(newest_first(messages.drop_last()), messages.last())
    }
}

/// `query` stands somewhere in a field that is present.
pub open spec fn field_has(field: Option<Seq<char>>, query: Seq<char>) -> bool {
    field matches Some(text) && has_substring(text, query)
}

/// Whether a record answers a query: without a query every record does;
/// with one, the query stands in the content, the subject or one of the
/// address fields to, cc and from. Upper and lower case differ.
pub open spec fn answers(m: MessageView, query: Option<Seq<char>>) -> bool {
    match query {
        None => true,
        Some(q) => field_has(m.content, q) || field_has(m.subject, q) || field_has(
            m.message_to,
            q,
        ) || field_has(m.message_cc, q) || field_has(m.message_from, q),
    }
}

/// Whether the conversation `key` answers the query: some record of it
/// answers. A record without a thread key is a conversation of its own,
/// and is asked only where there is a query: without one, only
/// conversations with a thread key answer.
pub open spec fn thread_answers(
    messages: Seq<MessageView>,
    key: (bool, Seq<char>),
    query: Option<Seq<char>>,
) -> bool {
    (key.0 || query is Some) && exists|i: int|
        0 <= i < messages.len() && group_key(#[trigger] messages[i]) == key && answers(
            messages[i],
            query,
        )
}

/// The conversations that a listing shows, read off records that are
/// ranked from the newest to the oldest: each conversation once, at the
/// place of its newest record, as long as it answers the query and fewer
/// than `limit` were taken.
pub open spec fn page(
    ranked: Seq<MessageView>,
    all: Seq<MessageView>,
    query: Option<Seq<char>>,
    limit: nat,
) -> Seq<(bool, Seq<char>)>
    decreases ranked.len(),
{
    if ranked.len() == 0 {
        Seq::empty()
    } else {
        let before = page(ranked.drop_last(), all, query, limit);
        let key = group_key(ranked.last());
        if before.len() < limit && !before.contains(key) && thread_answers(all, key, query) {
            before.push(key)
        } else {
            before
        }
    }
}

/// The records of the conversation `key`, in the order of `ranked`.
pub open spec fn thread_of(ranked: Seq<MessageView>, key: (bool, Seq<char>)) -> Seq<MessageView>
    decreases ranked.len(),
{
    if ranked.len() == 0 {
        Seq::empty()
    } else {
        let before = thread_of(ranked.drop_last(), key);
        if group_key(ranked.last()) == key {
            before.push(ranked.last())
        } else {
            before
        }
    }
}

/// What a listing shows: the conversations of the page, each with all
/// its records from the newest to the oldest, the conversation with the
/// newest record first. With a query, a record without a thread key that
/// answers it is shown as a conversation of its own.
pub open spec fn listing(messages: Seq<MessageView>, query: Option<Seq<char>>, limit: nat) -> Seq<
    Seq<MessageView>,
> {
    let ranked = newest_first(messages);
    let keys = page(ranked, ranked, query, limit);
    Seq::new(keys.len(), |i: int| thread_of(ranked, keys[i]))
}

/// Putting a record in its place is putting it at the index behind
/// which every record is older and before which the nearest is not.
proof fn lemma_placed_at(sorted: Seq<MessageView>, m: MessageView, at: int)
    requires
        0 <= at <= sorted.len(),
        forall|j: int| at <= j < sorted.len() ==> date_rank(sorted[j].sent_date) < date_rank(m.sent_date),
        at > 0 ==> date_rank(sorted[at - 1].sent_date) >= date_rank(m.sent_date),
    ensures
        placed(sorted, m) == sorted.insert(at, m),
    decreases sorted.len(),
{
    if at == sorted.len() {
        assert(sorted.insert(at, m) =~= sorted.push(m));
    } else {
        lemma_placed_at(sorted.drop_last(), m, at);
        assert(sorted.insert(at, m) =~= sorted.drop_last().insert(at, m).push(sorted.last()));
    }
}

/// Whether the date `a` stands above the date `b`.
fn is_newer(a: Option<i64>, b: Option<i64>) -> (r: bool)
    ensures
        r == (date_rank(a) > date_rank(b)),
{
    match (a, b) {
        (Some(x), Some(y)) => x > y,
        (Some(_), None) => true,
        (None, _) => false,
    }
}

/// Whether `query` stands in `field`.
fn field_contains(field: &Option<String>, query: &str) -> (r: bool)
    ensures
        r == field_has(text_of(*field), query@),
{
    match field {
        Some(text) => contains(text.as_str(), query),
        None => false,
    }
}

/// Whether the record `m` answers `query`.
pub fn message_answers(m: &Message, query: &Option<String>) -> (r: bool)
    ensures
        r == answers(m@, text_of(*query)),
{
    match query {
        None => true,
        Some(q) => field_contains(&m.content, q.as_str()) || field_contains(
            &m.subject,
            q.as_str(),
        ) || field_contains(&m.message_to, q.as_str()) || field_contains(
            &m.message_cc,
            q.as_str(),
        ) || field_contains(&m.message_from, q.as_str()),
    }
}

/// Whether the conversation of `messages[at]` answers `query`.
fn conversation_answers(messages: &Vec<Message>, at: usize, query: &Option<String>) -> (r: bool)
    requires
        at < messages.len(),
    ensures
        r == thread_answers(messages.deep_view(), group_key(messages[at as int]@), text_of(*query)),
{
    if messages[at].parent_thread_key.is_none() && query.is_none() {
        return false;
    }
    let ghost key = group_key(messages[at as int]@);
    let mut i: usize = 0;
    while i < messages.len()
        invariant
            i <= messages.len(),
            at < messages.len(),
            key == group_key(messages[at as int]@),
            key.0 || text_of(*query) is Some,
            forall|k: int|
                0 <= k < i ==> !(group_key(#[trigger] messages.deep_view()[k]) == key && answers(
                    messages.deep_view()[k],
                    text_of(*query),
                )),
        decreases messages.len() - i,
    {
        if same_thread(&messages[i], &messages[at]) && message_answers(&messages[i], query) {
            assert(messages.deep_view()[i as int] == messages[i as int]@);
            return true;
        }
        i = i + 1;
    }
    false
}

/// Whether the conversation of `ranked[at]` is among those that open at
/// the places `heads`.
fn holds_thread(ranked: &Vec<Message>, heads: &Vec<usize>, at: usize) -> (r: bool)
    requires
        at < ranked.len(),
        forall|t: int| 0 <= t < heads.len() ==> heads[t] < ranked.len(),
    ensures
        r == exists|t: int|
            0 <= t < heads.len() && group_key(ranked[#[trigger] heads[t] as int]@) == group_key(
                ranked[at as int]@,
            ),
{
    let mut t: usize = 0;
    while t < heads.len()
        invariant
            t <= heads.len(),
            at < ranked.len(),
            forall|u: int| 0 <= u < heads.len() ==> heads[u] < ranked.len(),
            forall|u: int|
                0 <= u < t ==> group_key(ranked[#[trigger] heads[u] as int]@) != group_key(
                    ranked[at as int]@,
                ),
        decreases heads.len() - t,
    {
        if same_thread(&ranked[heads[t]], &ranked[at]) {
            return true;
        }
        t = t + 1;
    }
    false
}

/// A copy of the records from the newest to the oldest.
pub fn rank_newest_first(records: &Vec<Message>) -> (r: Vec<Message>)
    ensures
        r.deep_view() == newest_first(records.deep_view()),
{
    let ghost all = records.deep_view();
    let mut out: Vec<Message> = Vec::new();
    let mut i: usize = 0;
    assert(all.take(0) =~= Seq::<MessageView>::empty());
    while i < records.len()
        invariant
            i <= records.len(),
            all == records.deep_view(),
            out.deep_view() == newest_first(all.take(i as int)),
        decreases records.len() - i,
    {
        let m = &records[i];
        let mut at: usize = out.len();
        while at > 0 && is_newer(m.sent_date, out[at - 1].sent_date)
            invariant
                at <= out.len(),
                forall|j: int|
                    at <= j < out.len() ==> date_rank(out.deep_view()[j].sent_date) < date_rank(
                        m@.sent_date,
                    ),
            decreases at,
        {
            at = at - 1;
        }
        let ghost before = out.deep_view();
        proof {
            lemma_placed_at(before, m@, at as int);
            assert(all.take(i + 1).drop_last() == all.take(i as int));
            assert(all.take(i + 1).last() == m@);
        }
        out.insert(at, m.duplicate());
        assert(out.deep_view() =~= before.insert(at as int, m@));
        i = i + 1;
    }
    assert(all.take(i as int) == all);
    out
}

/// The places in `ranked` at which the conversations of the page open,
/// in the order of the page.
fn page_heads(ranked: &Vec<Message>, query: &Option<String>, limit: usize) -> (r: Vec<usize>)
    ensures
        r.len() == page(ranked.deep_view(), ranked.deep_view(), text_of(*query), limit as nat).len(),
        forall|t: int|
            0 <= t < r.len() ==> r[t] < ranked.len() && group_key(ranked[#[trigger] r[t] as int]@)
                == page(ranked.deep_view(), ranked.deep_view(), text_of(*query), limit as nat)[t],
{
    let ghost all = ranked.deep_view();
    let ghost asked = text_of(*query);
    let mut heads: Vec<usize> = Vec::new();
    let mut i: usize = 0;
    assert(all.take(0) =~= Seq::<MessageView>::empty());
    while i < ranked.len()
        invariant
            i <= ranked.len(),
            all == ranked.deep_view(),
            asked == text_of(*query),
            heads.len() == page(all.take(i as int), all, asked, limit as nat).len(),
            forall|t: int|
                0 <= t < heads.len() ==> heads[t] < ranked.len() && group_key(
                    ranked[#[trigger] heads[t] as int]@,
                ) == page(all.take(i as int), all, asked, limit as nat)[t],
        decreases ranked.len() - i,
    {
        let ghost before = page(all.take(i as int), all, asked, limit as nat);
        let ghost key = group_key(ranked[i as int]@);
        proof {
            assert(all.take(i + 1).drop_last() == all.take(i as int));
            assert(all.take(i + 1).last() == ranked[i as int]@);
        }
        let held = holds_thread(ranked, &heads, i);
        proof {
            if held {
                let t = choose|t: int|
                    0 <= t < heads.len() && group_key(ranked[#[trigger] heads[t] as int]@) == key;
                assert(before[t] == key);
            }
            if before.contains(key) {
                let t = choose|t: int| 0 <= t < before.len() && before[t] == key;
                assert(group_key(ranked[heads[t] as int]@) == key);
            }
            assert(held == before.contains(key));
        }
        if heads.len() < limit && !held && conversation_answers(ranked, i, query) {
            heads.push(i);
        }
        i = i + 1;
    }
    assert(all.take(i as int) == all);
    heads
}

/// A copy of the records of the conversation of `ranked[at]`, in the
/// order of `ranked`.
fn thread_copy(ranked: &Vec<Message>, at: usize) -> (r: Vec<Message>)
    requires
        at < ranked.len(),
    ensures
        r.deep_view() == thread_of(ranked.deep_view(), group_key(ranked[at as int]@)),
{
    let ghost key = group_key(ranked[at as int]@);
    let mut out: Vec<Message> = Vec::new();
    let mut i: usize = 0;
    assert(ranked.deep_view().take(0) =~= Seq::<MessageView>::empty());
    assert(out.deep_view() =~= Seq::<MessageView>::empty());
    while i < ranked.len()
        invariant
            i <= ranked.len(),
            at < ranked.len(),
            key == group_key(ranked[at as int]@),
            out.deep_view() == thread_of(ranked.deep_view().take(i as int), key),
        decreases ranked.len() - i,
    {
        proof {
            assert(ranked.deep_view().take(i + 1).drop_last() == ranked.deep_view().take(i as int));
            assert(ranked.deep_view().take(i + 1).last() == ranked[i as int]@);
        }
        if same_thread(&ranked[i], &ranked[at]) {
            let ghost before = out.deep_view();
            out.push(ranked[i].duplicate());
            assert(out.deep_view() =~= before.push(ranked[i as int]@));
        }
        i = i + 1;
    }
    assert(ranked.deep_view().take(i as int) == ranked.deep_view());
    out
}

/// Lists the conversations that answer `filter`, at most `limit` of
/// them: the conversation with the newest record first, and within each
/// its records from the newest to the oldest. Without a query every
/// conversation with a thread key answers, and records without one are
/// not listed. With a query, a record without a thread key that answers
/// it is listed as a conversation of its own.
pub fn list_threads(store: &MessageStore, filter: MessageFilter, limit: usize) -> (r: Result<
    Vec<Vec<Message>>,
    String,
>)
    ensures
        r matches Ok(groups) && groups.deep_view() == listing(
            store@,
            text_of(filter.query),
            limit as nat,
        ),
        r matches Ok(groups) ==> forall|g: int|
            0 <= g < groups.len() && (#[trigger] groups.deep_view()[g])[0].parent_thread_key
                is None ==> groups.deep_view()[g].len() == 1,
{
    store.recall_shape();
    proof {
        lemma_listing_of_keyless(store@, text_of(filter.query), limit as nat);
    }
    let ranked = rank_newest_first(&store.records());
    let heads = page_heads(&ranked, &filter.query, limit);
    let ghost keys = page(
        ranked.deep_view(),
        ranked.deep_view(),
        text_of(filter.query),
        limit as nat,
    );
    let mut groups: Vec<Vec<Message>> = Vec::new();
    let mut i: usize = 0;
    while i < heads.len()
        invariant
            i <= heads.len(),
            groups.len() == i,
            heads.len() == keys.len(),
            forall|t: int|
                0 <= t < heads.len() ==> heads[t] < ranked.len() && group_key(
                    ranked[#[trigger] heads[t] as int]@,
                ) == keys[t],
            forall|k: int|
                0 <= k < i ==> (#[trigger] groups.deep_view()[k]) == thread_of(
                    ranked.deep_view(),
                    keys[k],
                ),
        decreases heads.len() - i,
    {
        let ghost before = groups.deep_view();
        let group = thread_copy(&ranked, heads[i]);
        groups.push(group);
        assert(groups.deep_view() =~= before.push(thread_of(ranked.deep_view(), keys[i as int])));
        i = i + 1;
    }
    assert(groups.deep_view() =~= listing(store@, text_of(filter.query), limit as nat));
    Ok(groups)
}

/// From the first to the last, no record is newer than one before it.
pub open spec fn newest_to_oldest(messages: Seq<MessageView>) -> bool {
    forall|i: int, j: int|
        0 <= i < j < messages.len() ==> date_rank((#[trigger] messages[i]).sent_date) >= date_rank(
            (#[trigger] messages[j]).sent_date,
        )
}

/// Putting a record in its place adds that record and nothing else, and
/// keeps a ranking ranked.
pub proof fn lemma_placed_shape(sorted: Seq<MessageView>, m: MessageView)
    ensures
        placed(sorted, m).len() == sorted.len() + 1,
        placed(sorted, m).to_multiset() == sorted.to_multiset().insert(m),
        forall|x: MessageView| #[trigger] placed(sorted, m).contains(x) ==> sorted.contains(x) || x == m,
        forall|x: MessageView| #[trigger] sorted.contains(x) ==> placed(sorted, m).contains(x),
        placed(sorted, m).contains(m),
        newest_to_oldest(sorted) ==> newest_to_oldest(placed(sorted, m)),
    decreases sorted.len(),
{
    broadcast use vstd::seq_lib::group_to_multiset_ensures;

    let out = placed(sorted, m);
    if sorted.len() == 0 || date_rank(sorted.last().sent_date) >= date_rank(m.sent_date) {
        assert(out[sorted.len() as int] == m);
        assert forall|x: MessageView| #[trigger] out.contains(x) implies sorted.contains(x) || x
            == m by {
            let i = choose|i: int| 0 <= i < out.len() && out[i] == x;
            if i < sorted.len() {
                assert(sorted[i] == x);
            }
        }
        assert forall|x: MessageView| #[trigger] sorted.contains(x) implies out.contains(x) by {
            let i = choose|i: int| 0 <= i < sorted.len() && sorted[i] == x;
            assert(out[i] == x);
        }
    } else {
        let rest = sorted.drop_last();
        let inner = placed(rest, m);
        lemma_placed_shape(rest, m);
        assert(sorted == rest.push(sorted.last()));
        assert(out.to_multiset() =~= sorted.to_multiset().insert(m));
        assert(inner.contains(m));
        assert(out.contains(m)) by {
            let k = choose|k: int| 0 <= k < inner.len() && inner[k] == m;
            assert(out[k] == m);
        }
        assert forall|x: MessageView| #[trigger] out.contains(x) implies sorted.contains(x) || x
            == m by {
            let i = choose|i: int| 0 <= i < out.len() && out[i] == x;
            if i < inner.len() {
                assert(inner[i] == x);
                assert(inner.contains(x));
                if rest.contains(x) {
                    let k = choose|k: int| 0 <= k < rest.len() && rest[k] == x;
                    assert(sorted[k] == x);
                }
            } else {
                assert(sorted[sorted.len() - 1] == x);
            }
        }
        assert forall|x: MessageView| #[trigger] sorted.contains(x) implies out.contains(x) by {
            let i = choose|i: int| 0 <= i < sorted.len() && sorted[i] == x;
            if i < rest.len() {
                assert(rest[i] == x);
                assert(rest.contains(x));
                assert(inner.contains(x));
                let k = choose|k: int| 0 <= k < inner.len() && inner[k] == x;
                assert(out[k] == x);
            } else {
                assert(out[inner.len() as int] == x);
            }
        }
        if newest_to_oldest(sorted) {
            assert(newest_to_oldest(rest)) by {
                assert forall|i: int, j: int| 0 <= i < j < rest.len() implies date_rank(
                    (#[trigger] rest[i]).sent_date,
                ) >= date_rank((#[trigger] rest[j]).sent_date) by {
                    assert(rest[i] == sorted[i] && rest[j] == sorted[j]);
                }
            }
            assert forall|i: int, j: int| 0 <= i < j < out.len() implies date_rank(
                (#[trigger] out[i]).sent_date,
            ) >= date_rank((#[trigger] out[j]).sent_date) by {
                if j < inner.len() {
                    assert(out[i] == inner[i] && out[j] == inner[j]);
                } else {
                    assert(out[i] == inner[i]);
                    assert(inner.contains(inner[i]));
                    if rest.contains(inner[i]) {
                        let k = choose|k: int| 0 <= k < rest.len() && rest[k] == inner[i];
                        assert(sorted[k] == inner[i]);
                        assert(date_rank(sorted[k].sent_date) >= date_rank(
                            sorted[sorted.len() - 1].sent_date,
                        ));
                    }
                }
            }
        }
    }
}

/// Ranking the records keeps every record, as often as it was stored,
/// and puts no record before one that is newer.
pub proof fn lemma_newest_first_shape(messages: Seq<MessageView>)
    ensures
        newest_first(messages).len() == messages.len(),
        newest_first(messages).to_multiset() == messages.to_multiset(),
        forall|x: MessageView| #[trigger] newest_first(messages).contains(x) ==> messages.contains(x),
        forall|x: MessageView| #[trigger] messages.contains(x) ==> newest_first(messages).contains(x),
        newest_to_oldest(newest_first(messages)),
    decreases messages.len(),
{
    broadcast use vstd::seq_lib::group_to_multiset_ensures;

    if messages.len() > 0 {
        let rest = messages.drop_last();
        lemma_newest_first_shape(rest);
        lemma_placed_shape(newest_first(rest), messages.last());
        assert(messages == rest.push(messages.last()));
        let ranked_rest = newest_first(rest);
        let out = newest_first(messages);
        assert forall|x: MessageView| #[trigger] out.contains(x) implies messages.contains(x) by {
            if x == messages.last() {
                assert(messages[messages.len() - 1] == x);
            } else {
                assert(ranked_rest.contains(x));
                assert(rest.contains(x));
                let i = choose|i: int| 0 <= i < rest.len() && rest[i] == x;
                assert(messages[i] == x);
            }
        }
        assert forall|x: MessageView| #[trigger] messages.contains(x) implies out.contains(x) by {
            let i = choose|i: int| 0 <= i < messages.len() && messages[i] == x;
            if i < rest.len() {
                assert(rest[i] == x);
                assert(rest.contains(x));
                assert(ranked_rest.contains(x));
            }
        }
    } else {
        assert(newest_first(messages).to_multiset() =~= messages.to_multiset());
    }
}

/// A conversation that is read off a ranking holds the records of the
/// ranking that carry its key, all of them and no other, in the order of
/// the ranking.
pub proof fn lemma_thread_of_shape(ranked: Seq<MessageView>, key: (bool, Seq<char>))
    ensures
        thread_of(ranked, key).len() <= ranked.len(),
        forall|x: MessageView| #[trigger]
            thread_of(ranked, key).contains(x) ==> ranked.contains(x) && group_key(x) == key,
        forall|x: MessageView| #[trigger]
            ranked.contains(x) && group_key(x) == key ==> thread_of(
                ranked,
                key,
            ).contains(x),
        newest_to_oldest(ranked) ==> newest_to_oldest(thread_of(ranked, key)),
    decreases ranked.len(),
{
    let out = thread_of(ranked, key);
    if ranked.len() > 0 {
        let rest = ranked.drop_last();
        let inner = thread_of(rest, key);
        lemma_thread_of_shape(rest, key);
        assert forall|x: MessageView| #[trigger] out.contains(x) implies ranked.contains(x)
            && group_key(x) == key by {
            let i = choose|i: int| 0 <= i < out.len() && out[i] == x;
            if i < inner.len() {
                assert(inner[i] == x);
                assert(inner.contains(x));
                let k = choose|k: int| 0 <= k < rest.len() && rest[k] == x;
                assert(ranked[k] == x);
            } else {
                assert(ranked[ranked.len() - 1] == x);
            }
        }
        assert forall|x: MessageView| #[trigger]
            ranked.contains(x) && group_key(x) == key implies out.contains(x) by {
            let i = choose|i: int| 0 <= i < ranked.len() && ranked[i] == x;
            if i < rest.len() {
                assert(rest[i] == x);
                assert(rest.contains(x));
                assert(inner.contains(x));
                let k = choose|k: int| 0 <= k < inner.len() && inner[k] == x;
                assert(out[k] == x);
            } else {
                assert(out[inner.len() as int] == x);
            }
        }
        if newest_to_oldest(ranked) {
            assert(newest_to_oldest(rest)) by {
                assert forall|i: int, j: int| 0 <= i < j < rest.len() implies date_rank(
                    (#[trigger] rest[i]).sent_date,
                ) >= date_rank((#[trigger] rest[j]).sent_date) by {
                    assert(rest[i] == ranked[i] && rest[j] == ranked[j]);
                }
            }
            assert forall|i: int, j: int| 0 <= i < j < out.len() implies date_rank(
                (#[trigger] out[i]).sent_date,
            ) >= date_rank((#[trigger] out[j]).sent_date) by {
                if j < inner.len() {
                    assert(out[i] == inner[i] && out[j] == inner[j]);
                } else {
                    assert(out[i] == inner[i]);
                    assert(inner.contains(inner[i]));
                    let k = choose|k: int| 0 <= k < rest.len() && rest[k] == inner[i];
                    assert(ranked[k] == inner[i]);
                    assert(date_rank(ranked[k].sent_date) >= date_rank(
                        ranked[ranked.len() - 1].sent_date,
                    ));
                }
            }
        }
    }
}

/// Some record in `messages` belongs to the conversation `key`.
pub open spec fn has_thread(messages: Seq<MessageView>, key: (bool, Seq<char>)) -> bool {
    exists|i: int| 0 <= i < messages.len() && group_key(#[trigger] messages[i]) == key
}

/// A page holds at most `limit` keys and none twice. Each of its keys is
/// that of a conversation in the ranking that answers the query. A
/// conversation in the ranking that answers the query is left out only
/// where the page is full.
pub proof fn lemma_page_shape(
    ranked: Seq<MessageView>,
    all: Seq<MessageView>,
    query: Option<Seq<char>>,
    limit: nat,
)
    ensures
        page(ranked, all, query, limit).len() <= limit,
        page(ranked, all, query, limit).no_duplicates(),
        forall|key: (bool, Seq<char>)| #[trigger]
            page(ranked, all, query, limit).contains(key) ==> has_thread(ranked, key)
                && thread_answers(all, key, query),
        forall|key: (bool, Seq<char>)|
            has_thread(ranked, key) && thread_answers(all, key, query) ==> #[trigger] page(
                ranked,
                all,
                query,
                limit,
            ).contains(key) || page(ranked, all, query, limit).len() == limit,
    decreases ranked.len(),
{
    let out = page(ranked, all, query, limit);
    if ranked.len() > 0 {
        let rest = ranked.drop_last();
        let before = page(rest, all, query, limit);
        lemma_page_shape(rest, all, query, limit);
        assert forall|key: (bool, Seq<char>)| #[trigger] out.contains(key) implies has_thread(ranked, key)
            && thread_answers(all, key, query) by {
            let i = choose|i: int| 0 <= i < out.len() && out[i] == key;
            if i < before.len() {
                assert(before[i] == key);
                assert(before.contains(key));
                let k = choose|k: int|
                    0 <= k < rest.len() && group_key(#[trigger] rest[k]) == key;
                assert(group_key(ranked[k]) == key);
            } else {
                assert(group_key(ranked[ranked.len() - 1]) == key);
            }
        }
        assert forall|key: (bool, Seq<char>)|
            has_thread(ranked, key) && thread_answers(all, key, query) implies #[trigger] out.contains(
            key,
        ) || out.len() == limit by {
            let k = choose|k: int|
                0 <= k < ranked.len() && group_key(#[trigger] ranked[k]) == key;
            if k < rest.len() {
                assert(group_key(rest[k]) == key);
                assert(has_thread(rest, key));
                if before.contains(key) {
                    let i = choose|i: int| 0 <= i < before.len() && before[i] == key;
                    assert(out[i] == key);
                }
            } else {
                if before.contains(key) {
                    let i = choose|i: int| 0 <= i < before.len() && before[i] == key;
                    assert(out[i] == key);
                } else if before.len() < limit {
                    assert(out == before.push(key));
                    assert(out[before.len() as int] == key);
                }
            }
        }
    }
}

/// Ranking changes neither which conversations there are nor which of
/// them answer a query.
proof fn lemma_ranking_keeps_threads(
    messages: Seq<MessageView>,
    key: (bool, Seq<char>),
    query: Option<Seq<char>>,
)
    ensures
        has_thread(newest_first(messages), key) <==> has_thread(messages, key),
        thread_answers(newest_first(messages), key, query) <==> thread_answers(messages, key, query),
{
    let ranked = newest_first(messages);
    lemma_newest_first_shape(messages);
    if has_thread(ranked, key) {
        let i = choose|i: int|
            0 <= i < ranked.len() && group_key(#[trigger] ranked[i]) == key;
        assert(ranked.contains(ranked[i]));
        let k = choose|k: int| 0 <= k < messages.len() && messages[k] == ranked[i];
        assert(group_key(messages[k]) == key);
    }
    if has_thread(messages, key) {
        let i = choose|i: int|
            0 <= i < messages.len() && group_key(#[trigger] messages[i]) == key;
        assert(messages.contains(messages[i]));
        let k = choose|k: int| 0 <= k < ranked.len() && ranked[k] == messages[i];
        assert(group_key(ranked[k]) == key);
    }
    if thread_answers(ranked, key, query) {
        let i = choose|i: int|
            0 <= i < ranked.len() && group_key(#[trigger] ranked[i]) == key
                && answers(ranked[i], query);
        assert(ranked.contains(ranked[i]));
        let k = choose|k: int| 0 <= k < messages.len() && messages[k] == ranked[i];
        assert(group_key(messages[k]) == key && answers(messages[k], query));
    }
    if thread_answers(messages, key, query) {
        let i = choose|i: int|
            0 <= i < messages.len() && group_key(#[trigger] messages[i]) == key
                && answers(messages[i], query);
        assert(messages.contains(messages[i]));
        let k = choose|k: int| 0 <= k < ranked.len() && ranked[k] == messages[i];
        assert(group_key(ranked[k]) == key && answers(ranked[k], query));
    }
}

/// Where the conversation `key` first occurs in `ranked`, and the
/// length of `ranked` where it does not occur.
pub open spec fn first_place(ranked: Seq<MessageView>, key: (bool, Seq<char>)) -> int
    decreases ranked.len(),
{
    if ranked.len() == 0 {
        0
    } else {
        let before = first_place(ranked.drop_last(), key);
        if before < ranked.len() - 1 {
            before
        } else if group_key(ranked.last()) == key {
            ranked.len() - 1
        } else {
            ranked.len() as int
        }
    }
}

/// The first place of a conversation is the place of its first record.
proof fn lemma_first_place(ranked: Seq<MessageView>, key: (bool, Seq<char>))
    ensures
        0 <= first_place(ranked, key) <= ranked.len(),
        forall|j: int|
            0 <= j < first_place(ranked, key) ==> group_key(#[trigger] ranked[j]) != key,
        first_place(ranked, key) < ranked.len() ==> group_key(ranked[first_place(
            ranked,
            key,
        )]) == key,
    decreases ranked.len(),
{
    if ranked.len() > 0 {
        let rest = ranked.drop_last();
        lemma_first_place(rest, key);
        assert forall|j: int| 0 <= j < first_place(ranked, key) implies group_key(#[trigger] ranked[j]) != key by {
            if j < rest.len() {
                assert(rest[j] == ranked[j]);
            }
        }
        if first_place(rest, key) < rest.len() {
            assert(rest[first_place(rest, key)] == ranked[first_place(rest, key)]);
        }
    }
}

/// A conversation opens with its first record in the ranking.
proof fn lemma_thread_head(ranked: Seq<MessageView>, key: (bool, Seq<char>))
    requires
        first_place(ranked, key) < ranked.len(),
    ensures
        thread_of(ranked, key).len() > 0,
        thread_of(ranked, key)[0] == ranked[first_place(ranked, key)],
    decreases ranked.len(),
{
    let rest = ranked.drop_last();
    lemma_first_place(ranked, key);
    lemma_first_place(rest, key);
    if first_place(rest, key) < rest.len() {
        lemma_thread_head(rest, key);
        assert(rest[first_place(rest, key)] == ranked[first_place(rest, key)]);
    } else {
        lemma_thread_of_shape(rest, key);
        let inner = thread_of(rest, key);
        if inner.len() > 0 {
            assert(inner.contains(inner[0]));
            let k = choose|k: int| 0 <= k < rest.len() && rest[k] == inner[0];
            assert(group_key(rest[k]) == key);
        }
    }
}

/// The keys of a page stand in the order in which their conversations
/// first occur in the ranking.
proof fn lemma_page_order(
    ranked: Seq<MessageView>,
    all: Seq<MessageView>,
    query: Option<Seq<char>>,
    limit: nat,
)
    ensures
        forall|t: int|
            0 <= t < page(ranked, all, query, limit).len() ==> first_place(
                ranked,
                #[trigger] page(ranked, all, query, limit)[t],
            ) < ranked.len(),
        forall|t: int, u: int|
            0 <= t < u < page(ranked, all, query, limit).len() ==> first_place(
                ranked,
                #[trigger] page(ranked, all, query, limit)[t],
            ) < first_place(ranked, #[trigger] page(ranked, all, query, limit)[u]),
    decreases ranked.len(),
{
    let out = page(ranked, all, query, limit);
    if ranked.len() > 0 {
        let rest = ranked.drop_last();
        let before = page(rest, all, query, limit);
        lemma_page_order(rest, all, query, limit);
        lemma_page_shape(rest, all, query, limit);
        assert forall|t: int| 0 <= t < before.len() implies first_place(ranked, #[trigger] before[t])
            == first_place(rest, before[t]) by {}
        if out.len() > before.len() {
            let key = group_key(ranked.last());
            assert(out == before.push(key));
            lemma_first_place(rest, key);
            if first_place(rest, key) < rest.len() {
                assert(has_thread(rest, key));
                assert(before.contains(key) || before.len() == limit);
            }
            assert(first_place(ranked, key) == ranked.len() - 1);
            assert forall|t: int| 0 <= t < out.len() implies first_place(ranked, #[trigger] out[t])
                < ranked.len() by {
                if t < before.len() {
                    assert(out[t] == before[t]);
                }
            }
            assert forall|t: int, u: int| 0 <= t < u < out.len() implies first_place(
                ranked,
                #[trigger] out[t],
            ) < first_place(ranked, #[trigger] out[u]) by {
                assert(out[t] == before[t]);
                if u < before.len() {
                    assert(out[u] == before[u]);
                }
            }
        } else {
            assert(out == before);
        }
    }
}

/// `shown` is a page of whole conversations out of `messages`: at most
/// `limit` of them, each under a key of its own, none empty. A record
/// without a thread key is a conversation under its own identity. Every
/// record shown is a stored record of a conversation that answers the
/// query, and a conversation that is shown is shown with every stored
/// record that carries its key. Within a conversation no record stands
/// before one that is newer, and no conversation stands before one whose
/// newest record is newer. A conversation that answers the query is left
/// out only where the page is full.
pub open spec fn is_page_of(
    shown: Seq<Seq<MessageView>>,
    messages: Seq<MessageView>,
    query: Option<Seq<char>>,
    limit: nat,
) -> bool {
    &&& shown.len() <= limit
    &&& forall|g: int| 0 <= g < shown.len() ==> (#[trigger] shown[g]).len() > 0
    &&& forall|g: int| 0 <= g < shown.len() ==> newest_to_oldest(#[trigger] shown[g])
    &&& forall|g: int, i: int|
        0 <= g < shown.len() && 0 <= i < shown[g].len() ==> {
            let record = #[trigger] shown[g][i];
            &&& messages.contains(record)
            &&& group_key(record) == group_key(shown[g][0])
            &&& thread_answers(messages, group_key(record), query)
        }
    &&& forall|g: int, h: int|
        0 <= g < h < shown.len() ==> group_key((#[trigger] shown[g])[0]) != group_key(
            (#[trigger] shown[h])[0],
        )
    &&& forall|g: int, h: int|
        0 <= g < h < shown.len() ==> date_rank((#[trigger] shown[g])[0].sent_date) >= date_rank(
            (#[trigger] shown[h])[0].sent_date,
        )
    &&& forall|g: int, m: MessageView|
        0 <= g < shown.len() && #[trigger] messages.contains(m) && group_key(m) == group_key(
            shown[g][0],
        ) ==> (#[trigger] shown[g]).contains(m)
    &&& forall|key: (bool, Seq<char>)|
        has_thread(messages, key) && #[trigger] thread_answers(messages, key, query) ==> shown.len()
            == limit || exists|g: int|
            0 <= g < shown.len() && group_key((#[trigger] shown[g])[0]) == key
}

/// What a listing shows is a page of whole conversations.
pub proof fn lemma_listing_shape(messages: Seq<MessageView>, query: Option<Seq<char>>, limit: nat)
    ensures
        is_page_of(listing(messages, query, limit), messages, query, limit),
{
    let ranked = newest_first(messages);
    let keys = page(ranked, ranked, query, limit);
    let shown = listing(messages, query, limit);
    lemma_newest_first_shape(messages);
    lemma_page_shape(ranked, ranked, query, limit);
    lemma_page_order(ranked, ranked, query, limit);
    assert forall|g: int, h: int| 0 <= g < h < shown.len() implies date_rank(
        (#[trigger] shown[g])[0].sent_date,
    ) >= date_rank((#[trigger] shown[h])[0].sent_date) by {
        assert(first_place(ranked, keys[g]) < first_place(ranked, keys[h]));
        assert(first_place(ranked, keys[h]) < ranked.len());
        lemma_first_place(ranked, keys[g]);
        lemma_thread_head(ranked, keys[g]);
        lemma_thread_head(ranked, keys[h]);
    }
    assert forall|key: (bool, Seq<char>)| thread_answers(ranked, key, query) <==> thread_answers(
        messages,
        key,
        query,
    ) by {
        lemma_ranking_keeps_threads(messages, key, query);
    }
    assert forall|g: int| 0 <= g < shown.len() implies {
        &&& (#[trigger] shown[g]).len() > 0
        &&& newest_to_oldest(shown[g])
        &&& group_key(shown[g][0]) == keys[g]
        &&& thread_answers(messages, keys[g], query)
        &&& forall|i: int|
            0 <= i < shown[g].len() ==> messages.contains(#[trigger] shown[g][i])
                && group_key(shown[g][i]) == keys[g]
        &&& forall|m: MessageView|
            messages.contains(m) && group_key(m) == keys[g] ==> shown[g].contains(m)
    } by {
        lemma_thread_of_shape(ranked, keys[g]);
        assert(keys.contains(keys[g]));
        assert(has_thread(ranked, keys[g]));
        let k = choose|k: int|
            0 <= k < ranked.len() && group_key(#[trigger] ranked[k]) == keys[g];
        assert(ranked.contains(ranked[k]));
        assert(shown[g].contains(ranked[k]));
        assert forall|i: int| 0 <= i < shown[g].len() implies messages.contains(
            #[trigger] shown[g][i],
        ) && group_key(shown[g][i]) == keys[g] by {
            assert(shown[g].contains(shown[g][i]));
        }
    }
    assert forall|key: (bool, Seq<char>)|
        has_thread(messages, key) && #[trigger] thread_answers(messages, key, query) implies shown.len()
        == limit || exists|g: int|
        0 <= g < shown.len() && group_key((#[trigger] shown[g])[0]) == key by {
        lemma_ranking_keeps_threads(messages, key, query);
        if keys.contains(key) {
            let g = choose|g: int| 0 <= g < keys.len() && keys[g] == key;
            assert(group_key(shown[g][0]) == key);
        }
    }
}

/// The keys of the conversations that answer a query.
pub open spec fn answering_threads(messages: Seq<MessageView>, query: Option<Seq<char>>) -> Set<
    (bool, Seq<char>),
> {
    Set::new(|key: (bool, Seq<char>)| thread_answers(messages, key, query))
}

/// A listing shows as many conversations as answer the query, up to the
/// limit: where fewer than `limit` are shown, they are all that answer,
/// and where `limit` or more answer, exactly `limit` are shown.
pub proof fn lemma_listing_fills_page(
    messages: Seq<MessageView>,
    query: Option<Seq<char>>,
    limit: nat,
)
    ensures
        listing(messages, query, limit).len() <= limit,
        listing(messages, query, limit).len() < limit ==> answering_threads(messages, query).finite()
            && answering_threads(messages, query).len() == listing(messages, query, limit).len(),
        answering_threads(messages, query).finite() && answering_threads(messages, query).len()
            >= limit ==> listing(messages, query, limit).len() == limit,
{
    let ranked = newest_first(messages);
    let keys = page(ranked, ranked, query, limit);
    let answering = answering_threads(messages, query);
    lemma_newest_first_shape(messages);
    lemma_page_shape(ranked, ranked, query, limit);
    if keys.len() < limit {
        assert forall|key: (bool, Seq<char>)| answering.contains(key) <==> keys.to_set().contains(key) by {
            lemma_ranking_keeps_threads(messages, key, query);
        }
        assert(answering =~= keys.to_set());
        keys.unique_seq_to_set();
        vstd::seq_lib::seq_to_set_is_finite(keys);
    }
}

/// Putting a record with a new identity in its place brings no
/// identity to stand twice.
proof fn lemma_placed_keeps_identities(sorted: Seq<MessageView>, m: MessageView)
    requires
        distinct_identities(sorted),
        forall|i: int| 0 <= i < sorted.len() ==> (#[trigger] sorted[i]).message_id != m.message_id,
    ensures
        distinct_identities(placed(sorted, m)),
    decreases sorted.len(),
{
    let out = placed(sorted, m);
    if sorted.len() == 0 || date_rank(sorted.last().sent_date) >= date_rank(m.sent_date) {
        assert forall|i: int, j: int| 0 <= i < j < out.len() implies (#[trigger] out[i]).message_id
            != (#[trigger] out[j]).message_id by {
            if j < sorted.len() {
                assert(sorted[i].message_id != sorted[j].message_id);
            } else {
                assert(sorted[i].message_id != m.message_id);
            }
        }
    } else {
        let rest = sorted.drop_last();
        let inner = placed(rest, m);
        assert(distinct_identities(rest)) by {
            assert forall|i: int, j: int| 0 <= i < j < rest.len() implies (
            #[trigger] rest[i]).message_id != (#[trigger] rest[j]).message_id by {
                assert(sorted[i].message_id != sorted[j].message_id);
            }
        }
        assert forall|i: int| 0 <= i < rest.len() implies (#[trigger] rest[i]).message_id
            != m.message_id by {
            assert(sorted[i].message_id != m.message_id);
        }
        lemma_placed_keeps_identities(rest, m);
        lemma_placed_shape(rest, m);
        assert forall|i: int, j: int| 0 <= i < j < out.len() implies (#[trigger] out[i]).message_id
            != (#[trigger] out[j]).message_id by {
            if j < inner.len() {
                assert(inner[i].message_id != inner[j].message_id);
            } else {
                assert(out[i] == inner[i]);
                assert(inner.contains(inner[i]));
                if rest.contains(inner[i]) {
                    let k = choose|k: int| 0 <= k < rest.len() && rest[k] == inner[i];
                    assert(sorted[k].message_id != sorted[sorted.len() - 1].message_id);
                } else {
                    assert(sorted[sorted.len() - 1].message_id != m.message_id);
                }
            }
        }
    }
}

/// Ranking brings no identity to stand twice.
proof fn lemma_ranking_keeps_identities(messages: Seq<MessageView>)
    requires
        distinct_identities(messages),
    ensures
        distinct_identities(newest_first(messages)),
    decreases messages.len(),
{
    if messages.len() > 0 {
        let rest = messages.drop_last();
        let ranked = newest_first(rest);
        assert(distinct_identities(rest)) by {
            assert forall|i: int, j: int| 0 <= i < j < rest.len() implies (
            #[trigger] rest[i]).message_id != (#[trigger] rest[j]).message_id by {
                assert(messages[i].message_id != messages[j].message_id);
            }
        }
        lemma_ranking_keeps_identities(rest);
        lemma_newest_first_shape(rest);
        assert forall|i: int| 0 <= i < ranked.len() implies (#[trigger] ranked[i]).message_id
            != messages.last().message_id by {
            assert(ranked.contains(ranked[i]));
            let k = choose|k: int| 0 <= k < rest.len() && rest[k] == ranked[i];
            assert(messages[k].message_id != messages[messages.len() - 1].message_id);
        }
        lemma_placed_keeps_identities(ranked, messages.last());
    }
}

/// Among records of which no two have the same identity, a record
/// without a thread key is alone in its conversation.
proof fn lemma_keyless_thread_is_single(ranked: Seq<MessageView>, key: (bool, Seq<char>))
    requires
        distinct_identities(ranked),
        !key.0,
    ensures
        thread_of(ranked, key).len() <= 1,
    decreases ranked.len(),
{
    if ranked.len() > 0 {
        let rest = ranked.drop_last();
        let inner = thread_of(rest, key);
        assert(distinct_identities(rest)) by {
            assert forall|i: int, j: int| 0 <= i < j < rest.len() implies (
            #[trigger] rest[i]).message_id != (#[trigger] rest[j]).message_id by {
                assert(ranked[i].message_id != ranked[j].message_id);
            }
        }
        lemma_keyless_thread_is_single(rest, key);
        lemma_thread_of_shape(rest, key);
        if group_key(ranked.last()) == key && inner.len() > 0 {
            assert(inner.contains(inner[0]));
            let k = choose|k: int| 0 <= k < rest.len() && rest[k] == inner[0];
            assert(ranked[k].message_id != ranked[ranked.len() - 1].message_id);
        }
    }
}

/// What a listing shows of records without a thread key. Without a
/// query it shows none: every record shown has a key. With a query, and
/// among records of which no two have the same identity, as in every
/// store, such a record is shown as a conversation of its own that holds
/// that one record.
pub proof fn lemma_listing_of_keyless(
    messages: Seq<MessageView>,
    query: Option<Seq<char>>,
    limit: nat,
)
    ensures
        query is None ==> forall|g: int, i: int|
            0 <= g < listing(messages, query, limit).len() && 0 <= i < listing(
                messages,
                query,
                limit,
            )[g].len() ==> (#[trigger] listing(messages, query, limit)[g][i]).parent_thread_key
                is Some,
        distinct_identities(messages) ==> forall|g: int|
            0 <= g < listing(messages, query, limit).len() && (#[trigger] listing(
                messages,
                query,
                limit,
            )[g])[0].parent_thread_key is None ==> listing(messages, query, limit)[g].len() == 1,
{
    let ranked = newest_first(messages);
    let keys = page(ranked, ranked, query, limit);
    let shown = listing(messages, query, limit);
    lemma_listing_shape(messages, query, limit);
    if query is None {
        assert forall|g: int, i: int|
            0 <= g < shown.len() && 0 <= i < shown[g].len() implies (
        #[trigger] shown[g][i]).parent_thread_key is Some by {
            assert(thread_answers(messages, group_key(shown[g][i]), query));
        }
    }
    if distinct_identities(messages) {
        lemma_ranking_keeps_identities(messages);
        assert forall|g: int|
            0 <= g < shown.len() && (#[trigger] shown[g])[0].parent_thread_key
                is None implies shown[g].len() == 1 by {
            lemma_thread_of_shape(ranked, keys[g]);
            assert(shown[g].contains(shown[g][0]));
            assert(group_key(shown[g][0]) == keys[g]);
            lemma_keyless_thread_is_single(ranked, keys[g]);
        }
    }
}

} // verus!
