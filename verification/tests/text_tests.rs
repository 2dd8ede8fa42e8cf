use navigator::engine::render_block;
use navigator::extract::extract_top_blocks;
use navigator::text::{has_prefix, str_eq, str_lex_lt, trim_str};

#[test]
fn trimming_strips_both_ends_only() {
    assert_eq!(trim_str("  a b\t\n"), "a b");
    assert_eq!(trim_str("word"), "word");
    assert_eq!(trim_str("   \t \n "), "");
    assert_eq!(trim_str(""), "");
}

#[test]
fn string_equality_is_by_characters() {
    assert!(str_eq("abc", "abc"));
    assert!(!str_eq("abc", "abd"));
    assert!(!str_eq("abc", "ab"));
    assert!(str_eq("", ""));
}

#[test]
fn prefix_test() {
    assert!(has_prefix("https://x", "https://"));
    assert!(!has_prefix("http://x", "https://"));
    assert!(has_prefix("anything", ""));
    assert!(!has_prefix("ab", "abc"));
}

#[test]
fn lexicographic_order_is_by_code_point() {
    assert!(str_lex_lt("abc", "abd"));
    assert!(str_lex_lt("ab", "abc"));
    assert!(!str_lex_lt("abc", "abc"));
    assert!(!str_lex_lt("b", "a"));
}

#[test]
fn block_threshold_counts_characters_not_bytes() {
    // Sixty accented characters take 120 bytes but stay below the threshold
    // of 61 characters; sixty-one pass it.
    let sixty = "\u{e9}".repeat(60);
    let html = format!("<html><body><p>{}</p></body></html>", sixty);
    assert!(extract_top_blocks(&html, 5).is_empty());
    let sixty_one = "\u{e9}".repeat(61);
    let html2 = format!("<html><body><p>{}</p></body></html>", sixty_one);
    assert_eq!(extract_top_blocks(&html2, 5), vec![sixty_one]);
}

#[test]
fn truncation_counts_characters_not_bytes() {
    let block = "\u{e9}".repeat(1001);
    let collapsed = render_block(&block, false);
    assert_eq!(collapsed.chars().count(), 1000 + "... [truncated]".len());
    assert!(collapsed.starts_with(&"\u{e9}".repeat(1000)));
    assert!(collapsed.ends_with("... [truncated]"));
}
