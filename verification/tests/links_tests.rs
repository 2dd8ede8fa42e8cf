use navigator::links::collect_links;

#[test]
fn hrefs_come_back_in_document_order() {
    let html = "<html><body>\
<a href=\"/one\">1</a>\
<p>text <a href=\"https://x/two\">2</a></p>\
<div><a href=\"three.html\">3</a></div>\
</body></html>";
    let links = collect_links(html);
    assert_eq!(links, vec!["/one", "https://x/two", "three.html"]);
}

#[test]
fn empty_hrefs_are_kept() {
    let html = "<html><body><a href=\"\">empty</a><a href=\"/b\">b</a></body></html>";
    let links = collect_links(html);
    assert_eq!(links, vec!["", "/b"]);
}

#[test]
fn repeated_links_are_not_deduplicated() {
    let html = "<html><body><a href=\"/same\">x</a><a href=\"/same\">y</a></body></html>";
    let links = collect_links(html);
    assert_eq!(links, vec!["/same", "/same"]);
}

#[test]
fn anchor_without_href_is_skipped() {
    let html = "<html><body><a name=\"top\">no ref</a><a href=\"/real\">yes</a></body></html>";
    let links = collect_links(html);
    assert_eq!(links, vec!["/real"]);
}

#[test]
fn page_without_links_gives_empty_list() {
    let html = "<html><body><p>nothing to follow</p></body></html>";
    assert!(collect_links(html).is_empty());
}
