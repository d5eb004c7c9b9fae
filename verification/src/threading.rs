use vstd::prelude::*;
use vstd::utf8::encode_utf8;
use sha2::Digest;
use crate::database::{latest_with_identity, MessageStore};
use crate::models::MessageView;
use crate::parser::{find_header, header_value, Header, HeaderView};
use crate::text::{chars_of, matches_at, occurs_at, string_of, text_of};

verus! {

/// What `str::to_lowercase` makes of a string.
pub uninterp spec fn lowercase(s: Seq<char>) -> Seq<char>;

/// Whether `char::is_whitespace` holds of a character.
pub uninterp spec fn whitespace(c: char) -> bool;

/// The SHA-256 digest of a sequence of bytes, as `sha2::Sha256` computes it.
pub uninterp spec fn sha256(data: Seq<u8>) -> Seq<u8>;

/// Calls `str::to_lowercase`, which gives the lower-case equivalent of a
/// string as Unicode defines it.
#[verifier::external_body]
fn to_lowercase(s: &str) -> (r: String)
    ensures
        r@ == lowercase(s@),
{
    s.to_lowercase()
}

/// `char::is_whitespace` tells whether a character has the Unicode
/// property White_Space.
pub assume_specification[ char::is_whitespace ](c: char) -> (r: bool)
    ensures
        r == whitespace(c),
;

/// Feeds `data` to a fresh `sha2::Sha256` with `Digest::update` and
/// hands out the bytes of the digest that `Digest::finalize` gives. The
/// contract claims that the same bytes always give the same digest, and
/// that the digest is 32 bytes long, the output size that the type
/// `Sha256` is declared with.
#[verifier::external_body]
fn sha256_digest(data: &[u8]) -> (r: Vec<u8>)
    ensures
        r@ == sha256(data@),
        r@.len() == 32,
{
    let mut hasher = sha2::Sha256::new();
    hasher.update(data);
    hasher.finalize().to_vec()
}

/// The mark that a reply puts before a subject, in lower case.
pub open spec fn reply_mark() -> Seq<char> {
    seq!['r', 'e', ':']
}

/// `s` with every `re:` taken out, reading from the left.
pub open spec fn without_reply_marks(s: Seq<char>) -> Seq<char>
    decreases s.len(),
{
    if s.len() == 0 {
        s
    } else if occurs_at(s, reply_mark(), 0) {
        without_reply_marks(s.skip(3))
    } else {
        seq![s[0]] + without_reply_marks(s.skip(1))
    }
}

/// `s` without the whitespace it begins with.
pub open spec fn trimmed_start(s: Seq<char>) -> Seq<char>
    decreases s.len(),
{
    if s.len() > 0 && whitespace(s[0]) {
        trimmed_start(s.skip(1))
    } else {
        s
    }
}

/// `s` without the whitespace it ends with.
pub open spec fn trimmed_end(s: Seq<char>) -> Seq<char>
    decreases s.len(),
{
    if s.len() > 0 && whitespace(s.last()) {
        trimmed_end(s.drop_last())
    } else {
        s
    }
}

/// `s` without the whitespace on either side.
pub open spec fn trimmed(s: Seq<char>) -> Seq<char> {
    trimmed_end(trimmed_start(s))
}

/// The form under which subjects are compared: in lower case, without
/// any `re:`, without whitespace on either side.
pub open spec fn normal_subject(subject: Seq<char>) -> Seq<char> {
    trimmed(without_reply_marks(lowercase(subject)))
}

/// The upper-case hexadecimal digit for a value below sixteen.
pub open spec fn hex_char(n: int) -> char {
    if n < 10 {
        (48 + n) as char
    } else {
        (55 + n) as char
    }
}

/// Bytes written out as upper-case hexadecimal, two digits to the byte.
pub open spec fn hex_upper(bytes: Seq<u8>) -> Seq<char> {
    Seq::new(2 * bytes.len(), |i: int| hex_char(if i % 2 == 0 {
        bytes[i / 2] as int / 16
    } else {
        bytes[i / 2] as int % 16
    }))
}

/// The key under which a subject groups messages: the SHA-256 digest of
/// the UTF-8 bytes of its normal form, in upper-case hexadecimal.
pub open spec fn subject_key(subject: Seq<char>) -> Seq<char> {
    hex_upper(sha256(encode_utf8(normal_subject(subject))))
}

/// Takes every `re:` out of `s`.
pub fn strip_reply_marks(s: &Vec<char>) -> (r: Vec<char>)
    ensures
        r@ == without_reply_marks(s@),
{
    let mark = chars_of("re:");
    proof {
        reveal_strlit("re:");
        assert(mark@ =~= reply_mark());
    }
    let mut out: Vec<char> = Vec::new();
    let mut i: usize = 0;
    assert(s@.skip(0) == s@);
    while i < s.len()
        invariant
            i <= s.len(),
            mark@ == reply_mark(),
            without_reply_marks(s@) == out@ + without_reply_marks(s@.skip(i as int)),
        decreases s.len() - i,
    {
        let ghost rest = s@.skip(i as int);
        assert(rest.len() > 0);
        assert(occurs_at(s@, mark@, i as int) == occurs_at(rest, mark@, 0)) by {
            if i + 3 <= s.len() {
                assert(s@.subrange(i as int, i + 3) == rest.subrange(0, 3));
            }
        }
        if matches_at(s, &mark, i) {
            assert(rest.skip(3) == s@.skip(i + 3));
            i = i + 3;
        } else {
            let ghost before = out@;
            out.push(s[i]);
            assert(rest.skip(1) == s@.skip(i + 1));
            assert(out@ + without_reply_marks(rest.skip(1)) == before + (seq![rest[0]]
                + without_reply_marks(rest.skip(1))));
            i = i + 1;
        }
    }
    assert(out@ + Seq::<char>::empty() == out@);
    out
}

/// Takes the whitespace off both sides of `s`.
pub fn trim(s: &Vec<char>) -> (r: Vec<char>)
    ensures
        r@ == trimmed(s@),
{
    let mut start: usize = 0;
    assert(s@.skip(0) == s@);
    while start < s.len() && s[start].is_whitespace()
        invariant
            start <= s.len(),
            trimmed_start(s@) == trimmed_start(s@.skip(start as int)),
        decreases s.len() - start,
    {
        assert(s@.skip(start as int).skip(1) == s@.skip(start + 1));
        start = start + 1;
    }
    assert(trimmed_start(s@) == s@.skip(start as int));
    let mut end: usize = s.len();
    assert(s@.subrange(start as int, end as int) == s@.skip(start as int));
    while end > start && s[end - 1].is_whitespace()
        invariant
            start <= end <= s.len(),
            trimmed(s@) == trimmed_end(s@.subrange(start as int, end as int)),
        decreases end,
    {
        assert(s@.subrange(start as int, end as int).drop_last() == s@.subrange(
            start as int,
            end - 1,
        ));
        end = end - 1;
    }
    assert(trimmed(s@) == s@.subrange(start as int, end as int));
    let mut out: Vec<char> = Vec::new();
    let mut i: usize = start;
    while i < end
        invariant
            start <= i <= end <= s.len(),
            out@ == s@.subrange(start as int, i as int),
        decreases end - i,
    {
        out.push(s[i]);
        assert(s@.subrange(start as int, i + 1) == s@.subrange(start as int, i as int).push(
            s@[i as int],
        ));
        i = i + 1;
    }
    out
}

/// The upper-case hexadecimal digit for `n`.
fn hex_digit(n: u8) -> (r: char)
    requires
        n < 16,
    ensures
        r == hex_char(n as int),
{
    if n < 10 {
        (48 + n) as char
    } else {
        (55 + n) as char
    }
}

/// Writes bytes out as upper-case hexadecimal.
pub fn to_hex_upper(bytes: &Vec<u8>) -> (r: String)
    ensures
        r@ == hex_upper(bytes@),
{
    let mut out = String::new();
    let mut i: usize = 0;
    while i < bytes.len()
        invariant
            i <= bytes.len(),
            out@.len() == 2 * i,
            forall|j: int| 0 <= j < 2 * i ==> out@[j] == hex_upper(bytes@)[j],
        decreases bytes.len() - i,
    {
        let byte = bytes[i];
        out.push(hex_digit(byte / 16));
        out.push(hex_digit(byte % 16));
        i = i + 1;
    }
    assert(out@ =~= hex_upper(bytes@));
    out
}

/// The form under which `subject` is compared with other subjects.
pub fn normalize_subject(subject: &str) -> (r: Vec<char>)
    ensures
        r@ == normal_subject(subject@),
{
    let lowered = to_lowercase(subject);
    let bare = strip_reply_marks(&chars_of(lowered.as_str()));
    trim(&bare)
}

/// The key under which `subject` groups messages: 64 hexadecimal
/// digits.
pub fn subject_thread_key(subject: &str) -> (r: String)
    ensures
        r@ == subject_key(subject@),
        r@.len() == 64,
{
    let normal = string_of(&normalize_subject(subject));
    let digest = sha256_digest(normal.as_str().as_bytes());
    to_hex_upper(&digest)
}

/// Whether two subjects have the same normal form. Subjects that have
/// share a key.
pub fn same_subject(a: &str, b: &str) -> (r: bool)
    ensures
        r == (normal_subject(a@) == normal_subject(b@)),
        r ==> subject_key(a@) == subject_key(b@),
{
    let left = normalize_subject(a);
    let right = normalize_subject(b);
    let r = left.len() == right.len() && matches_at(&left, &right, 0);
    proof {
        if r {
            assert(left@.subrange(0, right@.len() as int) =~= left@);
            lemma_same_normal_form_same_key(a@, b@);
        }
        if left@ == right@ {
            assert(left@.subrange(0, right@.len() as int) =~= right@);
        }
    }
    r
}

/// The message that a message answers: what its `In-Reply-To` header
/// names or, where it has none, its `References` header.
pub open spec fn parent_reference(headers: Seq<HeaderView>) -> Option<Seq<char>> {
    match header_value(headers, "In-Reply-To"@) {
        Some(parent) => Some(parent),
        None => header_value(headers, "References"@),
    }
}

/// The key that a message has from its subject alone, none where it has
/// no subject.
pub open spec fn own_key(headers: Seq<HeaderView>) -> Option<Seq<char>> {
    match header_value(headers, "Subject"@) {
        Some(subject) => Some(subject_key(subject)),
        None => None,
    }
}

/// The key that groups a message with its conversation. A message that
/// answers a stored message with a key takes that key. Any other message
/// has the key of its subject, and none where it has no subject.
pub open spec fn resolved_key(headers: Seq<HeaderView>, stored: Seq<MessageView>) -> Option<
    Seq<char>,
> {
    match parent_reference(headers) {
        Some(parent) => match latest_with_identity(stored, parent) {
            Some(m) => match m.parent_thread_key {
                Some(key) => Some(key),
                None => own_key(headers),
            },
            None => own_key(headers),
        },
        None => own_key(headers),
    }
}

/// The message that the message with these headers answers.
pub fn parent_of(headers: &Vec<Header>) -> (r: Option<String>)
    ensures
        text_of(r) == parent_reference(headers.deep_view()),
{
    match find_header(headers, "In-Reply-To") {
        Some(parent) => Some(parent),
        None => find_header(headers, "References"),
    }
}

/// Resolves the key that groups the message with these headers with its
/// conversation, looking its parent up in `store`.
pub fn parent_thread_key(headers: &Vec<Header>, store: &MessageStore) -> (r: Option<String>)
    ensures
        text_of(r) == resolved_key(headers.deep_view(), store@),
        r matches Some(key) ==> key@.len() == 64 || (parent_reference(headers.deep_view()) matches Some(
            parent,
        ) && latest_with_identity(store@, parent) matches Some(m) && m.parent_thread_key == Some(
            key@,
        )),
{
    match parent_of(headers) {
        Some(parent) => {
            match store.find_by_identity(parent.as_str()) {
                Some(m) => {
                    match &m.parent_thread_key {
                        Some(key) => {
                            return Some(key.clone());
                        },
                        None => {},
                    }
                },
                None => {},
            }
        },
        None => {},
    }
    match find_header(headers, "Subject") {
        Some(subject) => Some(subject_thread_key(subject.as_str())),
        None => None,
    }
}

/// A reply mark before a subject does not tell: a subject that reads
/// `re:` and then `rest` in lower case has the normal form of `rest`.
pub proof fn lemma_reply_mark_is_dropped(rest: Seq<char>)
    ensures
        without_reply_marks(reply_mark() + rest) == without_reply_marks(rest),
        trimmed(without_reply_marks(reply_mark() + rest)) == trimmed(without_reply_marks(rest)),
{
    let marked = reply_mark() + rest;
    assert(marked.subrange(0, 3) =~= reply_mark());
    assert(marked.skip(3) =~= rest);
}

/// Whitespace before a subject does not tell.
pub proof fn lemma_leading_space_is_dropped(c: char, rest: Seq<char>)
    requires
        whitespace(c),
    ensures
        trimmed(seq![c] + rest) == trimmed(rest),
{
    assert((seq![c] + rest).skip(1) =~= rest);
}

/// A reply shares the key of the subject it answers: where a blank is
/// whitespace and a subject reads in lower case as `re:`, a blank and
/// then the lower case of another subject, the two subjects have the
/// same normal form and the same key.
pub proof fn lemma_reply_shares_key(subject: Seq<char>, reply: Seq<char>)
    requires
        whitespace(' '),
        lowercase(reply) == reply_mark() + seq![' '] + lowercase(subject),
    ensures
        normal_subject(reply) == normal_subject(subject),
        subject_key(reply) == subject_key(subject),
{
    let lower = lowercase(subject);
    let spaced = seq![' '] + lower;
    assert(reply_mark() + seq![' '] + lower =~= reply_mark() + spaced);
    lemma_reply_mark_is_dropped(spaced);
    assert(spaced.skip(1) =~= lower);
    assert(!occurs_at(spaced, reply_mark(), 0)) by {
        if occurs_at(spaced, reply_mark(), 0) {
            assert(spaced.subrange(0, 3)[0] == reply_mark()[0]);
        }
    }
    assert(without_reply_marks(spaced) == seq![' '] + without_reply_marks(lower));
    lemma_leading_space_is_dropped(' ', without_reply_marks(lower));
}

/// Whether `reply` reads as a reply to `subject`: in lower case it is
/// `re:`, a blank, and then `subject` in lower case. Such a reply has the
/// key of the subject it answers.
pub fn is_reply_to(reply: &str, subject: &str) -> (r: bool)
    ensures
        r == (whitespace(' ') && lowercase(reply@) == reply_mark() + seq![' '] + lowercase(
            subject@,
        )),
        r ==> subject_key(reply@) == subject_key(subject@),
{
    let found = chars_of(to_lowercase(reply).as_str());
    let mut rest = chars_of(to_lowercase(subject).as_str());
    let mut wanted = chars_of("re: ");
    proof {
        reveal_strlit("re: ");
        assert(wanted@ =~= reply_mark() + seq![' ']);
    }
    wanted.append(&mut rest);
    assert(wanted@ =~= reply_mark() + seq![' '] + lowercase(subject@));
    let same = found.len() == wanted.len() && matches_at(&found, &wanted, 0);
    assert(same == (found@ == wanted@)) by {
        if same {
            assert(found@.subrange(0, wanted@.len() as int) =~= found@);
        }
        if found@ == wanted@ {
            assert(found@.subrange(0, wanted@.len() as int) =~= wanted@);
        }
    }
    let r = same && ' '.is_whitespace();
    proof {
        if r {
            lemma_reply_shares_key(subject@, reply@);
        }
    }
    r
}

/// Two subjects with the same normal form have the same key.
pub proof fn lemma_same_normal_form_same_key(a: Seq<char>, b: Seq<char>)
    requires
        normal_subject(a) == normal_subject(b),
    ensures
        subject_key(a) == subject_key(b),
{
}

} // verus!
