//! URL normalization of operator input and resolution of link references
//! against the page they were found on.
use crate::text::has_prefix;
use vstd::prelude::*;
use vstd::string::*;

verus! {

/// The absolute form of `href` joined onto `base`, or `None` when `base` does
/// not parse as a URL or the join fails. The result depends on the two strings
/// alone; it is only ever learned through [`join_url`].
pub uninterp spec fn joined_url_of(base: Seq<char>, href: Seq<char>) -> Option<Seq<char>>;

/// Relies on `url::Url::parse` and `url::Url::join`: parses `base` and joins
/// `href` onto it, returning the serialized absolute URL, or `None` when
/// parsing or joining fails.
#[verifier::external_body]
fn join_url(base: &str, href: &str) -> (r: Option<String>)
    ensures
        (match r {
            Some(u) => joined_url_of(base@, href@) == Some(u@),
            None => joined_url_of(base@, href@) is None,
        }),
{
    match url::Url::parse(base).and_then(|b| b.join(href)) {
        Ok(u) => Some(u.to_string()),
        Err(_) => None,
    }
}

/// A user-entered address with an explicit scheme is kept; anything else is
/// given the `https` scheme.
pub open spec fn normalize_spec(s: Seq<char>) -> Seq<char> {
    if "http://"@.is_prefix_of(s) || "https://"@.is_prefix_of(s) {
        s
    } else {
        "https://"@ + s
    }
}

/// A link that already looks absolute is kept; otherwise it is joined onto
/// `base`, and when that fails the raw link is kept as a best effort.
pub open spec fn resolve_spec(base: Seq<char>, href: Seq<char>) -> Seq<char> {
    if "http"@.is_prefix_of(href) {
        href
    } else {
        match joined_url_of(base, href) {
            Some(u) => u,
            None => href,
        }
    }
}

/// Normalize a user-entered address into a fetchable URL.
pub fn normalize_url(url: &str) -> (r: String)
    ensures
        r@ == normalize_spec(url@),
{
    if has_prefix(url, "http://") || has_prefix(url, "https://") {
        url.to_owned()
    } else {
        let mut r = String::from_str("https://");
        r.append(url);
        r
    }
}

/// Resolve a link reference found on the page at `base`. Resolution never
/// fails: a link that cannot be joined is returned verbatim.
pub fn resolve_url(base: &str, href: &str) -> (r: String)
    ensures
        r@ == resolve_spec(base@, href@),
{
    if has_prefix(href, "http") {
        href.to_owned()
    } else {
        match join_url(base, href) {
            Some(u) => u,
            None => href.to_owned(),
        }
    }
}

} // verus!
