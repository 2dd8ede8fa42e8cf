use navigator::urls::{normalize_url, resolve_url};

#[test]
fn bare_host_gets_https_scheme() {
    assert_eq!(normalize_url("example.com/feed"), "https://example.com/feed");
}

#[test]
fn explicit_schemes_are_kept() {
    assert_eq!(normalize_url("http://example.com"), "http://example.com");
    assert_eq!(normalize_url("https://example.com"), "https://example.com");
}

#[test]
fn absolute_href_is_returned_unchanged() {
    assert_eq!(
        resolve_url("https://example.com/dir/page", "https://other.net/x"),
        "https://other.net/x"
    );
}

#[test]
fn relative_href_is_joined_onto_the_base() {
    assert_eq!(
        resolve_url("https://example.com/dir/page", "sub/next.html"),
        "https://example.com/dir/sub/next.html"
    );
    assert_eq!(
        resolve_url("https://example.com/dir/page", "/root.html"),
        "https://example.com/root.html"
    );
}

#[test]
fn unparseable_base_falls_back_to_the_raw_href() {
    assert_eq!(resolve_url("not a url at all", "sub/next.html"), "sub/next.html");
}

#[test]
fn empty_href_resolves_to_the_base() {
    assert_eq!(
        resolve_url("https://example.com/dir/page", ""),
        "https://example.com/dir/page"
    );
}
