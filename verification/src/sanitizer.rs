use vstd::prelude::*;
use vstd::string::StringExecFns;
use vstd::utf8::encode_utf8;
use crate::text::{chars_of, contains, has_substring, occurs_at};

verus! {

/// `css_inline::InlineError`, the error of the inliner. Nothing is read
/// of it: the sanitizer only tells that there is one.
#[verifier::external_type_specification]
#[verifier::external_body]
pub struct ExInlineError(css_inline::InlineError);

/// Below this many bytes a cleaned body counts as destroyed, and the
/// plain text of the message is shown in its place.
pub const MINIMAL_LENGTH: usize = 10;

/// What a cleaner does with a relative URL.
#[derive(Clone, Copy, Debug, PartialEq, Eq)]
pub enum RelativeUrls {
    /// The attribute that holds it is taken out.
    Deny,
    /// It is left as it is.
    PassThrough,
}

/// What `css_inline::CSSInliner::inline` makes of a document, `None`
/// where it reports an error. `load_remote` is the setting of the
/// inliner's `load_remote_stylesheets`: whether stylesheets that the
/// document links to are loaded.
pub uninterp spec fn css_inlined(html: Seq<char>, load_remote: bool) -> Option<Seq<char>>;

/// What `ammonia::Builder::clean` keeps of a fragment when relative
/// URLs are treated as `relative` says and the attributes `kept` are
/// let through on every element, beside what the cleaner lets through
/// of itself.
pub uninterp spec fn cleaned_html(
    html: Seq<char>,
    relative: RelativeUrls,
    kept: Seq<Seq<char>>,
) -> Seq<char>;

/// Builds a `css_inline::CSSInliner` with `load_remote_stylesheets` set
/// to `load_remote` and calls its `inline`, which moves the rules of the
/// style elements of a document into the `style` attributes of the
/// elements they match. The inliner is asked only with the setting
/// switched off: it then resolves no stylesheet location, so the
/// contract claims that the same document always gives the same result.
#[verifier::external_body]
fn inline_css(html: &str, load_remote: bool) -> (r: Result<String, css_inline::InlineError>)
    requires
        !load_remote,
    ensures
        match r {
            Ok(inlined) => css_inlined(html@, load_remote) == Some(inlined@),
            Err(_) => css_inlined(html@, load_remote) is None,
        },
{
    css_inline::CSSInliner::options().load_remote_stylesheets(load_remote).build().inline(html)
}

/// Calls `ammonia::Builder::clean` on a default builder with
/// `url_relative` set as `relative` says and `kept` added to the generic
/// attributes, and writes the cleaned document out. The cleaner stops
/// where `rel` is among the generic attributes, so that is left out. The
/// contract claims that the same fragment with the same settings always
/// gives the same result.
#[verifier::external_body]
fn clean_html(html: &str, relative: RelativeUrls, kept: &Vec<String>) -> (r: String)
    requires
        forall|i: int| 0 <= i < kept.len() ==> (#[trigger] kept[i])@ != "rel"@,
    ensures
        r@ == cleaned_html(html@, relative, kept.deep_view()),
{
    ammonia::Builder::default()
        .url_relative(match relative {
            RelativeUrls::Deny => ammonia::UrlRelative::Deny,
            RelativeUrls::PassThrough => ammonia::UrlRelative::PassThrough,
        })
        .add_generic_attributes(kept)
        .clean(html)
        .to_string()
}

/// The attributes that are let through on every element, so that the
/// inlined styles still show.
pub open spec fn kept_attributes() -> Seq<Seq<char>> {
    seq!["class"@, "style"@]
}

/// How one character of plain text is written so that it shows as
/// itself: the five characters that markup is made of as entities, any
/// other as it is.
pub open spec fn escaped_char(c: char) -> Seq<char> {
    if c == '&' {
        "&amp;"@
    } else if c == '<' {
        "&lt;"@
    } else if c == '>' {
        "&gt;"@
    } else if c == '"' {
        "&quot;"@
    } else if c == '\'' {
        "&#39;"@
    } else {
        seq![c]
    }
}

/// Plain text written so that it shows as itself.
pub open spec fn escaped(text: Seq<char>) -> Seq<char>
    decreases text.len(),
{
    if text.len() == 0 {
        Seq::empty()
    } else {
        escaped(text.drop_last()) + escaped_char(text.last())
    }
}

/// What is shown for a message, given its cleaned html body and its
/// plain text: the cleaned body, unless it is shorter than the minimal
/// length in bytes, and then the plain text, escaped.
pub open spec fn rendering(clean: Seq<char>, text: Seq<char>) -> Seq<char> {
    if encode_utf8(clean).len() < MINIMAL_LENGTH {
        escaped(text)
    } else {
        clean
    }
}

/// The html body of a message with its styles inlined and then
/// cleaned. No stylesheet is loaded from outside the body, relative URLs
/// are denied, and `class` and `style` are kept. A body that cannot be
/// inlined counts as empty.
pub open spec fn cleaned_body(html: Seq<char>) -> Seq<char> {
    cleaned_html(
        match css_inlined(html, false) {
            Some(inlined) => inlined,
            None => Seq::empty(),
        },
        RelativeUrls::Deny,
        kept_attributes(),
    )
}

/// What is shown for a message with the html body `html` and the plain
/// text `text`: the cleaned body, and the plain text in its place where
/// too little is left of it.
pub open spec fn safe_rendering(html: Seq<char>, text: Seq<char>) -> Seq<char> {
    rendering(cleaned_body(html), text)
}

/// Writes plain text so that it shows as itself.
pub fn escape(text: &str) -> (r: String)
    ensures
        r@ == escaped(text@),
{
    let chars = chars_of(text);
    let mut out = String::new();
    let mut i: usize = 0;
    assert(chars@.take(0) =~= Seq::<char>::empty());
    while i < chars.len()
        invariant
            i <= chars.len(),
            out@ == escaped(chars@.take(i as int)),
        decreases chars.len() - i,
    {
        proof {
            assert(chars@.take(i + 1).drop_last() == chars@.take(i as int));
            assert(chars@.take(i + 1).last() == chars@[i as int]);
        }
        let c = chars[i];
        if c == '&' {
            out.append("&amp;");
        } else if c == '<' {
            out.append("&lt;");
        } else if c == '>' {
            out.append("&gt;");
        } else if c == '"' {
            out.append("&quot;");
        } else if c == '\'' {
            out.append("&#39;");
        } else {
            let ghost before = out@;
            out.push(c);
            assert(out@ =~= before + seq![c]);
        }
        i = i + 1;
    }
    assert(chars@.take(i as int) == chars@);
    out
}

/// Picks what is shown for a message out of its cleaned html body and
/// its plain text.
pub fn choose_rendering(clean: String, text: &str) -> (r: String)
    ensures
        r@ == rendering(clean@, text@),
{
    if clean.as_str().as_bytes().len() < MINIMAL_LENGTH {
        escape(text)
    } else {
        clean
    }
}

/// Inlines the styles of an html body and strips it down to safe
/// markup. No stylesheet is loaded from outside the body, relative URLs
/// are denied, and `class` and `style` are kept on every element.
pub fn clean_body(raw_html: &str) -> (r: String)
    ensures
        r@ == cleaned_body(raw_html@),
{
    let inlined = match inline_css(raw_html, false) {
        Ok(inlined) => inlined,
        Err(_) => String::new(),
    };
    let mut kept: Vec<String> = Vec::new();
    kept.push("class".to_owned());
    kept.push("style".to_owned());
    proof {
        reveal_strlit("class");
        reveal_strlit("style");
        reveal_strlit("rel");
        assert("class"@.len() == 5 && "style"@.len() == 5 && "rel"@.len() == 3);
        assert(kept[0]@ == "class"@ && kept[1]@ == "style"@);
        assert(kept.deep_view() =~= kept_attributes());
    }
    clean_html(inlined.as_str(), RelativeUrls::Deny, &kept)
}

/// Renders the body of a message for display: inlines its styles, strips
/// it down to safe markup and falls back to the escaped plain text where
/// too little is left. Always gives a string, and the same one for the
/// same message.
pub fn render_safe(raw_html: &str, text: &str) -> (r: String)
    ensures
        r@ == safe_rendering(raw_html@, text@),
{
    choose_rendering(clean_body(raw_html), text)
}

/// Whether cleaning has freed an html body of `markup`, a piece of text
/// that opens with `<`, such as a script. Where it has, nothing that is
/// shown for a message with that body holds `markup`, whatever the plain
/// text of the message is.
pub fn body_is_free_of(raw_html: &str, markup: &str) -> (r: bool)
    ensures
        r == (markup@.len() > 0 && markup@[0] == '<' && !has_substring(
            cleaned_body(raw_html@),
            markup@,
        )),
        r ==> forall|text: Seq<char>|
            !has_substring(#[trigger] safe_rendering(raw_html@, text), markup@),
{
    let opening = chars_of(markup);
    if opening.len() == 0 || opening[0] != '<' {
        return false;
    }
    let cleaned = clean_body(raw_html);
    let free = !contains(cleaned.as_str(), markup);
    proof {
        if free {
            assert forall|text: Seq<char>|
                !has_substring(#[trigger] safe_rendering(raw_html@, text), markup@) by {
                lemma_rendering_adds_no_markup(raw_html@, text, markup@);
            }
        }
    }
    free
}

/// Escaped text holds none of the characters that open or close markup
/// or a quoted attribute.
pub proof fn lemma_escaped_is_inert(text: Seq<char>)
    ensures
        forall|i: int|
            0 <= i < escaped(text).len() ==> {
                let c = #[trigger] escaped(text)[i];
                c != '<' && c != '>' && c != '"' && c != '\''
            },
    decreases text.len(),
{
    reveal_strlit("&amp;");
    reveal_strlit("&lt;");
    reveal_strlit("&gt;");
    reveal_strlit("&quot;");
    reveal_strlit("&#39;");
    if text.len() > 0 {
        let before = escaped(text.drop_last());
        let tail = escaped_char(text.last());
        lemma_escaped_is_inert(text.drop_last());
        assert forall|i: int| 0 <= i < escaped(text).len() implies {
            let c = #[trigger] escaped(text)[i];
            c != '<' && c != '>' && c != '"' && c != '\''
        } by {
            if i < before.len() {
                assert(escaped(text)[i] == before[i]);
            } else {
                assert(escaped(text)[i] == tail[i - before.len()]);
            }
        }
    }
}

/// Where the cleaned body is shorter than the minimal length, what is
/// shown is the escaped plain text, which holds no markup; otherwise it
/// is the cleaned body as it is.
pub proof fn lemma_short_body_falls_back(clean: Seq<char>, text: Seq<char>)
    ensures
        encode_utf8(clean).len() < MINIMAL_LENGTH ==> rendering(clean, text) == escaped(text) && forall|
            i: int,
        |
            0 <= i < rendering(clean, text).len() ==> (#[trigger] rendering(clean, text)[i]) != '<',
        encode_utf8(clean).len() >= MINIMAL_LENGTH ==> rendering(clean, text) == clean,
{
    lemma_escaped_is_inert(text);
}

/// Nothing that opens with `<` stands in escaped text.
pub proof fn lemma_escaped_holds_no_markup(text: Seq<char>, markup: Seq<char>)
    requires
        markup.len() > 0,
        markup[0] == '<',
    ensures
        !has_substring(escaped(text), markup),
{
    lemma_escaped_is_inert(text);
    assert forall|at: int| !occurs_at(escaped(text), markup, at) by {
        if occurs_at(escaped(text), markup, at) {
            assert(escaped(text).subrange(at, at + markup.len())[0] == markup[0]);
            assert(escaped(text)[at] == '<');
        }
    }
}

/// What is shown for a message holds a piece of markup only where the
/// cleaned body holds it: the fallback never brings markup in. So a
/// script that the cleaner has taken out of the body is not shown,
/// whatever the plain text of the message holds.
pub proof fn lemma_rendering_adds_no_markup(html: Seq<char>, text: Seq<char>, markup: Seq<char>)
    requires
        markup.len() > 0,
        markup[0] == '<',
        !has_substring(cleaned_body(html), markup),
    ensures
        !has_substring(safe_rendering(html, text), markup),
{
    lemma_escaped_holds_no_markup(text, markup);
}

} // verus!
