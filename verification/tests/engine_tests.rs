use navigator::engine::{
    feed_menu_step, has_next_page, page_count, page_menu_step, page_window, parse_selection,
    render_block, FeedAction, PageAction, Session,
};

#[test]
fn window_arithmetic_for_twenty_three_links() {
    // 23 links, pages of 10: three pages, the last one short.
    assert_eq!(page_count(23), 3);
    assert_eq!(page_window(0, 23), (0, 10));
    assert_eq!(page_window(1, 23), (10, 20));
    assert_eq!(page_window(2, 23), (20, 23));
    assert!(has_next_page(0, 23));
    assert!(has_next_page(1, 23));
    assert!(!has_next_page(2, 23));
}

#[test]
fn page_count_is_the_ceiling() {
    assert_eq!(page_count(1), 1);
    assert_eq!(page_count(10), 1);
    assert_eq!(page_count(11), 2);
    assert_eq!(page_count(20), 2);
    assert_eq!(page_count(21), 3);
    assert_eq!(page_count(0), 0);
}

#[test]
fn scenario_paging_through_twenty_three_links() {
    // Page 0 offers the first ten links and a next page, no back page.
    let total = 23;
    let mut page = 0;
    assert!(matches!(page_menu_step("n", page, total, false), PageAction::NextPage));
    assert!(matches!(page_menu_step("b", page, total, false), PageAction::Reprompt));
    // After stepping forward twice, page 2 shows links 21 to 23: no next
    // page is left, and back is available.
    page += 1;
    assert!(matches!(page_menu_step("n", page, total, false), PageAction::NextPage));
    page += 1;
    assert_eq!(page_window(page, total), (20, 23));
    assert!(matches!(page_menu_step("n", page, total, false), PageAction::Reprompt));
    assert!(matches!(page_menu_step("b", page, total, false), PageAction::BackPage));
    // Selections stay within the short window.
    assert!(matches!(page_menu_step("3", page, total, false), PageAction::Open(3)));
    assert!(matches!(page_menu_step("4", page, total, false), PageAction::Reprompt));
}

#[test]
fn quit_expand_and_invalid_inputs() {
    assert!(matches!(page_menu_step("q", 0, 5, false), PageAction::Quit));
    assert!(matches!(page_menu_step("e", 0, 5, false), PageAction::Expand));
    assert!(matches!(page_menu_step("e", 0, 5, true), PageAction::Reprompt));
    assert!(matches!(page_menu_step("hello", 0, 5, false), PageAction::Reprompt));
    assert!(matches!(page_menu_step("", 0, 5, false), PageAction::Reprompt));
    assert!(matches!(page_menu_step("0", 0, 5, false), PageAction::Reprompt));
    assert!(matches!(page_menu_step("5", 0, 5, false), PageAction::Open(5)));
    assert!(matches!(page_menu_step("6", 0, 5, false), PageAction::Reprompt));
}

#[test]
fn feed_menu_accepts_in_range_selections() {
    assert!(matches!(feed_menu_step("q", 4), FeedAction::Quit));
    assert!(matches!(feed_menu_step("1", 4), FeedAction::Open(1)));
    assert!(matches!(feed_menu_step("4", 4), FeedAction::Open(4)));
    assert!(matches!(feed_menu_step("5", 4), FeedAction::Retry));
    assert!(matches!(feed_menu_step("0", 4), FeedAction::Retry));
    assert!(matches!(feed_menu_step("x", 4), FeedAction::Retry));
}

#[test]
fn selection_parsing() {
    assert_eq!(parse_selection("7"), Some(7));
    assert_eq!(parse_selection("023"), Some(23));
    assert_eq!(parse_selection(""), None);
    assert_eq!(parse_selection("12a"), None);
    assert_eq!(parse_selection("-3"), None);
    assert_eq!(parse_selection("999999999999999999999999999999999999"), None);
}

#[test]
fn truncation_of_a_long_block() {
    let block = "z".repeat(1500);
    let collapsed = render_block(&block, false);
    assert_eq!(collapsed.chars().count(), 1000 + "... [truncated]".len());
    assert_eq!(&collapsed[..1000], "z".repeat(1000));
    assert!(collapsed.ends_with("... [truncated]"));
    let expanded = render_block(&block, true);
    assert_eq!(expanded, block);
    assert_eq!(expanded.chars().count(), 1500);
}

#[test]
fn short_blocks_render_unchanged() {
    let block = "y".repeat(1000);
    assert_eq!(render_block(&block, false), block);
}

#[test]
fn session_transitions() {
    let mut s = Session::new(String::from("https://a/"));
    assert_eq!(s.page, 0);
    assert!(!s.expanded);
    s.next_page();
    s.next_page();
    assert_eq!(s.page, 2);
    s.back_page();
    assert_eq!(s.page, 1);
    s.expand();
    assert!(s.expanded);
    s.navigate(String::from("https://b/"));
    assert_eq!(s.current_url, "https://b/");
    assert_eq!(s.page, 0);
    assert!(!s.expanded);
}

#[test]
fn classify_feed_and_page() {
    let rss = "<?xml version=\"1.0\"?><rss version=\"2.0\"><channel>\
<title>T</title><link>http://t</link><description>d</description>\
<item><title>A</title><link>https://x/1</link></item>\
</channel></rss>";
    match navigator::engine::classify(rss, 3) {
        navigator::engine::Resource::Feed(items) => {
            assert_eq!(items.len(), 1);
            assert_eq!(items[0].title, "A");
        }
        _ => panic!("an RSS document with an entry classifies as a feed"),
    }
    let long = "m".repeat(80);
    let html = format!(
        "<html><body><p>{}</p><a href=\"/next\">next</a></body></html>",
        long
    );
    match navigator::engine::classify(&html, 3) {
        navigator::engine::Resource::Page { blocks, links } => {
            assert_eq!(blocks, vec![long]);
            assert_eq!(links, vec!["/next"]);
        }
        _ => panic!("plain HTML classifies as a page"),
    }
}

#[test]
fn link_selection_resolves_against_the_base() {
    let links: Vec<String> = (0..12).map(|i| format!("p{}.html", i)).collect();
    let target =
        navigator::engine::select_link_target(&links, "https://example.com/dir/index", 1, 2);
    // Page 1 starts at link index 10; selection 2 is links[11].
    assert_eq!(target, "https://example.com/dir/p11.html");
}
