use vstd::prelude::*;
use crate::text::{duplicate, has_prefix, starts_with, text_of};

verus! {

/// `mailparse::MailParseError`, the error of the mail parser. Nothing is
/// read of it: the pipeline only tells that there is one.
#[verifier::external_type_specification]
#[verifier::external_body]
pub struct ExMailParseError(mailparse::MailParseError);

/// One header line of a message or of one of its parts.
#[derive(Clone, Debug, PartialEq)]
pub struct Header {
    pub name: String,
    pub value: String,
}

/// One part of a message: its headers in the order in which they were
/// written, its body as text where it could be decoded, and whether its
/// transfer encoding is binary.
#[derive(Clone, Debug, PartialEq)]
pub struct MailPart {
    pub headers: Vec<Header>,
    pub body: Option<String>,
    pub binary: bool,
}

/// What the pipeline keeps of a message: the headers and the two body
/// candidates.
#[derive(Clone, Debug, PartialEq)]
pub struct ParsedMessage {
    pub headers: Vec<Header>,
    pub text_body: Option<String>,
    pub html_body: Option<String>,
}

/// Why a message could not be parsed.
#[derive(Clone, Copy, Debug, PartialEq, Eq)]
pub enum ParseError {
    /// The bytes could not be split into headers and a body.
    Malformed,
}

pub struct HeaderView {
    pub name: Seq<char>,
    pub value: Seq<char>,
}

pub struct MailPartView {
    pub headers: Seq<HeaderView>,
    pub body: Option<Seq<char>>,
    pub binary: bool,
}

pub struct ParsedMessageView {
    pub headers: Seq<HeaderView>,
    pub text_body: Option<Seq<char>>,
    pub html_body: Option<Seq<char>>,
}

impl View for Header {
    type V = HeaderView;

    open spec fn view(&self) -> HeaderView {
        HeaderView { name: self.name@, value: self.value@ }
    }
}

impl DeepView for Header {
    type V = HeaderView;

    open spec fn deep_view(&self) -> HeaderView {
        self@
    }
}

impl View for MailPart {
    type V = MailPartView;

    open spec fn view(&self) -> MailPartView {
        MailPartView {
            headers: self.headers.deep_view(),
            body: text_of(self.body),
            binary: self.binary,
        }
    }
}

impl DeepView for MailPart {
    type V = MailPartView;

    open spec fn deep_view(&self) -> MailPartView {
        self@
    }
}

impl View for ParsedMessage {
    type V = ParsedMessageView;

    open spec fn view(&self) -> ParsedMessageView {
        ParsedMessageView {
            headers: self.headers.deep_view(),
            text_body: text_of(self.text_body),
            html_body: text_of(self.html_body),
        }
    }
}

/// The value of the header called `name`. Names are compared exactly as
/// written. Where a header is repeated, the last one written wins.
pub open spec fn header_value(headers: Seq<HeaderView>, name: Seq<char>) -> Option<Seq<char>>
    decreases headers.len(),
{
    if headers.len() == 0 {
        None
    } else if headers.last().name == name {
        Some(headers.last().value)
    } else {
        header_value(headers.drop_last(), name)
    }
}

/// The content type that a part declares, empty where it declares none.
pub open spec fn content_type(part: MailPartView) -> Seq<char> {
    match header_value(part.headers, "Content-Type"@) {
        Some(value) => value,
        None => Seq::empty(),
    }
}

/// The body that a part offers as text: none where its transfer encoding
/// is binary or its bytes could not be decoded.
pub open spec fn body_candidate(part: MailPartView) -> Option<Seq<char>> {
    if part.binary {
        None
    } else {
        part.body
    }
}

/// The body of the first part that offers one and whose content type
/// begins with `kind`.
pub open spec fn first_body(parts: Seq<MailPartView>, kind: Seq<char>) -> Option<Seq<char>>
    decreases parts.len(),
{
    if parts.len() == 0 {
        None
    } else if body_candidate(parts[0]) is Some && has_prefix(content_type(parts[0]), kind) {
        body_candidate(parts[0])
    } else {
        first_body(parts.skip(1), kind)
    }
}

/// What is kept of a message that was read as `mail`: the message
/// itself first, then every part below it. The headers are those of the
/// message. The text body is that of the first part below the message
/// whose content type begins with `text/plain`, the html body that of the
/// first whose content type begins with `text/html`. Where the parts
/// offer neither, the body of the message itself stands in, as html or as
/// text according to the content type of the message.
pub open spec fn extracted(mail: Seq<MailPartView>) -> ParsedMessageView {
    if mail.len() == 0 {
        ParsedMessageView { headers: Seq::empty(), text_body: None, html_body: None }
    } else {
        let text = first_body(mail.skip(1), "text/plain"@);
        let html = first_body(mail.skip(1), "text/html"@);
        if text is None && html is None {
            let declared = content_type(mail[0]);
            if has_prefix(declared, "text/html"@) {
                ParsedMessageView {
                    headers: mail[0].headers,
                    text_body: None,
                    html_body: body_candidate(mail[0]),
                }
            } else if has_prefix(declared, "text/plain"@) {
                ParsedMessageView {
                    headers: mail[0].headers,
                    text_body: body_candidate(mail[0]),
                    html_body: None,
                }
            } else {
                ParsedMessageView { headers: mail[0].headers, text_body: None, html_body: None }
            }
        } else {
            ParsedMessageView { headers: mail[0].headers, text_body: text, html_body: html }
        }
    }
}

/// The parts that `mailparse::parse_mail` reads in the bytes of a
/// message, the message itself first and then every part below it in the
/// order of a depth-first walk; `None` where it reports an error.
pub uninterp spec fn mail_read(raw: Seq<u8>) -> Option<Seq<MailPartView>>;

/// Calls `mailparse::parse_mail` and copies out of its result what the
/// pipeline reads. For each part that `ParsedMail::parts` walks, the
/// message itself being the first, these are the headers by
/// `MailHeader::get_key` and `MailHeader::get_value`, the text that
/// `ParsedMail::get_body` decodes, and whether `ParsedMail::get_body_encoded`
/// finds a binary transfer encoding. The contract claims that the same
/// bytes always give the same answer.
#[verifier::external_body]
fn read_mail(raw: &[u8]) -> (r: Result<Vec<MailPart>, mailparse::MailParseError>)
    ensures
        match r {
            Ok(mail) => mail_read(raw@) == Some(mail.deep_view()),
            Err(_) => mail_read(raw@) is None,
        },
{
    let mail = mailparse::parse_mail(raw)?;
    Ok(mail.parts().map(|p| MailPart {
        headers: p.headers.iter().map(|h| Header { name: h.get_key(), value: h.get_value() }).collect(),
        body: p.get_body().ok(),
        binary: matches!(p.get_body_encoded(), mailparse::body::Body::Binary(_)),
    }).collect())
}

/// The value of the header called `name` among `headers`.
pub fn find_header(headers: &Vec<Header>, name: &str) -> (r: Option<String>)
    ensures
        text_of(r) == header_value(headers.deep_view(), name@),
{
    let wanted = name.to_owned();
    let mut i: usize = headers.len();
    assert(headers.deep_view().take(i as int) == headers.deep_view());
    while i > 0
        invariant
            i <= headers.len(),
            wanted@ == name@,
            header_value(headers.deep_view(), name@) == header_value(
                headers.deep_view().take(i as int),
                name@,
            ),
        decreases i,
    {
        assert(headers.deep_view().take(i as int).last() == headers[i - 1]@);
        assert(headers.deep_view().take(i as int).drop_last() == headers.deep_view().take(i - 1));
        if headers[i - 1].name == wanted {
            return Some(headers[i - 1].value.clone());
        }
        i = i - 1;
    }
    None
}

impl MailPart {
    /// The content type that this part declares.
    pub fn declared_type(&self) -> (r: String)
        ensures
            r@ == content_type(self@),
    {
        match find_header(&self.headers, "Content-Type") {
            Some(value) => value,
            None => String::new(),
        }
    }

}

/// The body that a part offers as text: its decoded body, unless its
/// transfer encoding is binary.
pub fn parsed_mail_body(email: &MailPart) -> (r: Option<String>)
    ensures
        text_of(r) == body_candidate(email@),
{
    if email.binary {
        None
    } else {
        duplicate(&email.body)
    }
}

/// The body of the first of `parts` from number `from` on that offers
/// one and whose content type begins with `kind`.
pub fn find_body(parts: &Vec<MailPart>, from: usize, kind: &str) -> (r: Option<String>)
    ensures
        text_of(r) == first_body(
            if from <= parts.len() {
                parts.deep_view().skip(from as int)
            } else {
                Seq::empty()
            },
            kind@,
        ),
{
    if from > parts.len() {
        return None;
    }
    let mut i: usize = from;
    while i < parts.len()
        invariant
            from <= i <= parts.len(),
            first_body(parts.deep_view().skip(from as int), kind@) == first_body(
                parts.deep_view().skip(i as int),
                kind@,
            ),
        decreases parts.len() - i,
    {
        assert(parts.deep_view().skip(i as int)[0] == parts[i as int]@);
        assert(parts.deep_view().skip(i as int).skip(1) == parts.deep_view().skip(i + 1));
        let body = parsed_mail_body(&parts[i]);
        if body.is_some() {
            let declared = parts[i].declared_type();
            if starts_with(declared.as_str(), kind) {
                return body;
            }
        }
        i = i + 1;
    }
    None
}

/// A copy of a list of headers.
pub fn copy_headers(headers: &Vec<Header>) -> (r: Vec<Header>)
    ensures
        r.deep_view() == headers.deep_view(),
{
    let mut out: Vec<Header> = Vec::new();
    let mut i: usize = 0;
    while i < headers.len()
        invariant
            i <= headers.len(),
            out.deep_view() == headers.deep_view().take(i as int),
        decreases headers.len() - i,
    {
        out.push(Header { name: headers[i].name.clone(), value: headers[i].value.clone() });
        assert(out.deep_view() == headers.deep_view().take(i as int).push(headers[i as int]@));
        i = i + 1;
    }
    assert(headers.deep_view().take(headers.len() as int) == headers.deep_view());
    out
}

/// Picks out of a message that was read what the pipeline keeps of it.
/// The message itself stands first in `mail`, the parts below it behind it.
pub fn extract_message(mail: &Vec<MailPart>) -> (r: ParsedMessage)
    ensures
        r@ == extracted(mail.deep_view()),
{
    if mail.len() == 0 {
        let headers: Vec<Header> = Vec::new();
        assert(headers.deep_view() =~= Seq::<HeaderView>::empty());
        return ParsedMessage { headers, text_body: None, html_body: None };
    }
    let top = &mail[0];
    let text = find_body(mail, 1, "text/plain");
    let html = find_body(mail, 1, "text/html");
    let headers = copy_headers(&top.headers);
    if text.is_none() && html.is_none() {
        let declared = top.declared_type();
        if starts_with(declared.as_str(), "text/html") {
            ParsedMessage { headers, text_body: None, html_body: parsed_mail_body(top) }
        } else if starts_with(declared.as_str(), "text/plain") {
            ParsedMessage { headers, text_body: parsed_mail_body(top), html_body: None }
        } else {
            ParsedMessage { headers, text_body: None, html_body: None }
        }
    } else {
        ParsedMessage { headers, text_body: text, html_body: html }
    }
}

/// Reads the bytes of one message into its headers and its two body
/// candidates. Fails exactly where the bytes cannot be split into
/// headers and a body.
pub fn parse(raw: &[u8]) -> (r: Result<ParsedMessage, ParseError>)
    ensures
        match r {
            Ok(parsed) => mail_read(raw@) matches Some(mail) && parsed@ == extracted(mail),
            Err(e) => e == ParseError::Malformed && mail_read(raw@) is None,
        },
{
    match read_mail(raw) {
        Ok(mail) => Ok(extract_message(&mail)),
        Err(_) => Err(ParseError::Malformed),
    }
}

impl ParsedMessage {
    /// The value of the header called `name`, the last one written where
    /// the header is repeated.
    pub fn header(&self, name: &str) -> (r: Option<String>)
        ensures
            text_of(r) == header_value(self@.headers, name@),
    {
        find_header(&self.headers, name)
    }
}

} // verus!
