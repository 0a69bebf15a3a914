use vstd::prelude::*;

verus! {

/// The outcome of parsing a candidate string as an absolute URL.
pub enum Parsed {
    /// The string parses as an absolute URL. `text` is its canonical
    /// serialization, `domain` its registered domain name (`None` for hosts
    /// that are not domain names, such as IP addresses), `path` its path.
    Absolute { text: String, domain: Option<String>, path: String },
    /// The string is a relative reference: it has no scheme and host of its
    /// own, so it can only be interpreted against a base URL.
    Relative,
    /// The string is malformed for some other reason.
    Malformed,
}

/// The mathematical shadow of `Parsed`.
#[verifier::ext_equal]
pub ghost enum ParsedView {
    Absolute { text: Seq<char>, domain: Option<Seq<char>>, path: Seq<char> },
    Relative,
    Malformed,
}

impl View for Parsed {
    type V = ParsedView;

    open spec fn view(&self) -> ParsedView {
        match self {
            Parsed::Absolute { text, domain, path } => ParsedView::Absolute {
                text: text@,
                domain: match domain {
                    Some(d) => Some(d@),
                    None => None,
                },
                path: path@,
            },
            Parsed::Relative => ParsedView::Relative,
            Parsed::Malformed => ParsedView::Malformed,
        }
    }
}

/// What parsing a given string as an absolute URL yields. Parsing is a
/// function of the string alone; the result is named here rather than
/// written out, and every statement about it lives in the contract of
/// `parse_url`.
pub uninterp spec fn parse_of(s: Seq<char>) -> ParsedView;

/// The serialization of `rel` resolved against the absolute URL that `base`
/// serializes, or `None` where `base` does not parse or the resolution
/// fails. A function of the two strings alone.
pub uninterp spec fn join_of(base: Seq<char>, rel: Seq<char>) -> Option<Seq<char>>;

/// Relies on `url::Url::parse`, which parses an absolute URL from a string
/// and is a function of that string alone, and on the accessors
/// `Url::to_string` (the serialization), `Url::domain` and `Url::path`.
/// A serialization always begins with the URL's scheme, which begins with
/// an ASCII letter, never with `/`. A relative reference fails with
/// `ParseError::RelativeUrlWithoutBase`.
#[verifier::external_body]
pub(crate) fn parse_url(s: &str) -> (r: Parsed)
    ensures
        r@ == parse_of(s@),
        r@ matches ParsedView::Absolute { text, .. } ==> text.len() > 0 && text[0] != '/',
{
    match url::Url::parse(s) {
        Ok(u) => Parsed::Absolute {
            text: u.to_string(),
            domain: u.domain().map(|d| d.to_string()),
            path: u.path().to_string(),
        },
        Err(url::ParseError::RelativeUrlWithoutBase) => Parsed::Relative,
        Err(_) => Parsed::Malformed,
    }
}

/// Relies on `url::Url::parse` and `url::Url::join`: resolving a reference
/// against a base URL string is a function of the two strings alone. The
/// serialization of the joined URL begins with its scheme, which begins
/// with an ASCII letter, never with `/`.
#[verifier::external_body]
pub(crate) fn join_url(base: &str, rel: &str) -> (r: Option<String>)
    ensures
        r matches Some(j) ==> join_of(base@, rel@) == Some(j@) && j@.len() > 0 && j@[0] != '/',
        r is None ==> join_of(base@, rel@) is None,
{
    match url::Url::parse(base) {
        Ok(b) => match b.join(rel) {
            Ok(u) => Some(u.to_string()),
            Err(_) => None,
        },
        Err(_) => None,
    }
}

} // verus!
