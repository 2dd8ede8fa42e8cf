use navigator::feed::try_parse_feed;

const RSS_TWO_ENTRIES: &str = "<?xml version=\"1.0\"?><rss version=\"2.0\"><channel>\
<title>T</title><link>http://t</link><description>d</description>\
<item><title>A</title><link>https://x/1</link></item>\
<item><title>B</title></item>\
</channel></rss>";

const RSS_EMPTY: &str = "<?xml version=\"1.0\"?><rss version=\"2.0\"><channel>\
<title>T</title><link>http://t</link><description>d</description>\
</channel></rss>";

#[test]
fn feed_with_two_entries_yields_two_items_in_order() {
    let items = try_parse_feed(RSS_TWO_ENTRIES).expect("a two-entry feed must classify as a feed");
    assert_eq!(items.len(), 2);
    assert_eq!(items[0].title, "A");
    assert_eq!(items[0].link, "https://x/1");
    assert_eq!(items[1].title, "B");
    assert_eq!(items[1].link, "");
}

#[test]
fn feed_with_zero_entries_is_not_a_feed() {
    assert!(try_parse_feed(RSS_EMPTY).is_none());
}

#[test]
fn malformed_payload_is_not_a_feed() {
    assert!(try_parse_feed("this is not a feed at all").is_none());
    assert!(try_parse_feed("").is_none());
    assert!(try_parse_feed("<html><body><p>hello</p></body></html>").is_none());
}

#[test]
fn entry_without_title_gets_placeholder() {
    let xml = "<?xml version=\"1.0\"?><rss version=\"2.0\"><channel>\
<title>T</title><link>http://t</link><description>d</description>\
<item><link>https://x/9</link><description>no title here</description></item>\
</channel></rss>";
    let items = try_parse_feed(xml).expect("one entry is enough");
    assert_eq!(items.len(), 1);
    assert_eq!(items[0].title, "Untitled");
    assert_eq!(items[0].link, "https://x/9");
}

#[test]
fn scenario_feed_selection_leads_to_empty_url() {
    // A normalized address is fetched, classified as a feed of two entries,
    // and the second entry, which has no link, is selected: the next URL is
    // the empty string.
    let url = navigator::urls::normalize_url("example.com/feed");
    assert_eq!(url, "https://example.com/feed");
    let items = try_parse_feed(RSS_TWO_ENTRIES).expect("feed");
    match navigator::engine::feed_menu_step("2", items.len()) {
        navigator::engine::FeedAction::Open(n) => {
            let mut session = navigator::engine::Session::new(url);
            session.navigate(items[n - 1].link.clone());
            assert_eq!(session.current_url, "");
        }
        _ => panic!("selection 2 of 2 must open"),
    }
}
