use vstd::prelude::*;

verus! {

/// Whether the string parses as an absolute URL.
pub uninterp spec fn url_parses(s: Seq<char>) -> bool;

/// The query of the URL that the string parses as, if it has one.
pub uninterp spec fn url_query(s: Seq<char>) -> Option<Seq<char>>;

/// The URL that the string parses as, with its query replaced by `q`, as text.
pub uninterp spec fn url_with_query(s: Seq<char>, q: Seq<char>) -> Seq<char>;

/// The reference `r` resolved against the base URL `base`, if it resolves.
pub uninterp spec fn url_joined(base: Seq<char>, r: Seq<char>) -> Option<Seq<char>>;

pub open spec fn opt_string_view(o: Option<String>) -> Option<Seq<char>> {
    match o {
        Some(s) => Some(s@),
        None => None,
    }
}

/// Relies on url::Url::parse, for whether the text is an absolute URL, and
/// on url::Url::query, for its query.
#[verifier::external_body]
pub(crate) fn parse_query(s: &str) -> (r: Option<Option<String>>)
    ensures
        r is Some <==> url_parses(s@),
        r matches Some(q) ==> opt_string_view(q) == url_query(s@),
{
    match url::Url::parse(s) {
        Ok(u) => Some(u.query().map(|q| q.to_owned())),
        Err(_) => None,
    }
}

/// Whether a URL with the text `s`, its query set to `q`, surely has a
/// serialisation that url::Url counts in `u32`: a character takes at most
/// four bytes, and percent-encoding at most triples them.
pub open spec fn query_fits(s: Seq<char>, q: Seq<char>) -> bool {
    12 * s.len() + 12 * q.len() + 2 <= u32::MAX
}

/// Relies on url::Url::parse, url::Url::set_query and url::Url::as_str: the
/// URL with its query replaced, as text. `set_query` panics when the result
/// cannot be counted in `u32`, which `query_fits` leaves out.
#[verifier::external_body]
pub(crate) fn with_query(s: &str, q: &str) -> (r: String)
    requires
        url_parses(s@),
        query_fits(s@, q@),
    ensures
        r@ == url_with_query(s@, q@),
{
    match url::Url::parse(s) {
        Ok(mut u) => {
            u.set_query(Some(q));
            u.as_str().to_owned()
        },
        Err(_) => String::new(),
    }
}

/// Relies on url::Url::parse and url::Url::join: a reference resolved
/// against a base URL, as text.
#[verifier::external_body]
pub(crate) fn join(base: &str, r: &str) -> (o: Option<String>)
    requires
        url_parses(base@),
    ensures
        opt_string_view(o) == url_joined(base@, r@),
{
    match url::Url::parse(base) {
        Ok(u) => match u.join(r) {
            Ok(j) => Some(j.as_str().to_owned()),
            Err(_) => None,
        },
        Err(_) => None,
    }
}

} // verus!
