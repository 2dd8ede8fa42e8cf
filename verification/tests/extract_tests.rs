use navigator::extract::extract_top_blocks;

fn prose(n: usize) -> String {
    // n characters of distinct prose-like text, no whitespace at the ends.
    let mut s = String::new();
    let alphabet = ['w', 'o', 'r', 'd', 's'];
    while s.len() < n {
        s.push(alphabet[s.len() % alphabet.len()]);
    }
    s
}

#[test]
fn script_subtree_contribution_is_excluded_not_the_whole_element() {
    // The paragraph holds 80 characters. The div holds 70 characters of text
    // in total, but 30 of them sit inside a script element; its own candidate
    // text is the remaining 40 characters, which is below the threshold. So
    // only the paragraph comes back: the extractor must subtract exactly the
    // script subtree's contribution, not keep the element's full text and not
    // drop visible text.
    let p_text = prose(80);
    let real = prose(40);
    let junk = "junkjunkjunkjunkjunkjunkjunkju"; // 30 characters
    assert_eq!(junk.len(), 30);
    let html = format!(
        "<html><body><p>{}</p><div><script>{}</script>{}</div></body></html>",
        p_text, junk, real
    );
    let blocks = extract_top_blocks(&html, 5);
    assert_eq!(blocks, vec![p_text]);
}

#[test]
fn element_nested_under_script_is_discarded_entirely() {
    let visible = prose(70);
    let hidden = prose(65);
    let html = format!(
        "<html><body><p>{}</p><script><p>{}</p></script></body></html>",
        visible, hidden
    );
    let blocks = extract_top_blocks(&html, 5);
    assert_eq!(blocks, vec![visible]);
}

#[test]
fn style_subtree_is_hidden_too() {
    let visible = prose(70);
    let html = format!(
        "<html><body><div>{}</div><style>body {{ color: red; something long enough to pass the threshold easily here }}</style></body></html>",
        visible
    );
    let blocks = extract_top_blocks(&html, 5);
    assert_eq!(blocks, vec![visible]);
}

#[test]
fn short_blocks_are_filtered_and_longer_come_first() {
    let a = prose(61);
    let mut b = prose(99);
    b.push('b'); // 100 characters, distinct tail
    let c = "tiny";
    let html = format!(
        "<html><body><p>{}</p><p>{}</p><p>{}</p></body></html>",
        a, b, c
    );
    let blocks = extract_top_blocks(&html, 5);
    assert_eq!(blocks.len(), 2);
    assert_eq!(blocks[0], b);
    assert_eq!(blocks[1], a);
}

#[test]
fn sixty_character_block_is_rejected_sixty_one_kept() {
    let at_limit = prose(61);
    let below = prose(60);
    let html = format!(
        "<html><body><p>{}</p><section>{}</section></body></html>",
        below, at_limit
    );
    let blocks = extract_top_blocks(&html, 5);
    assert_eq!(blocks, vec![at_limit]);
}

#[test]
fn duplicate_text_in_different_nodes_counts_once() {
    let t = prose(75);
    let html = format!(
        "<html><body><p>{}</p><div><p>{}</p></div></body></html>",
        t, t
    );
    // The outer div's text equals the paragraph's text as well, so three
    // DOM nodes carry one identical trimmed text.
    let blocks = extract_top_blocks(&html, 5);
    assert_eq!(blocks, vec![t]);
}

#[test]
fn k_limits_the_number_of_blocks() {
    let a = prose(61);
    let mut b = prose(70);
    b.push('x');
    let mut c = prose(80);
    c.push('y');
    let html = format!(
        "<html><body><p>{}</p><p>{}</p><p>{}</p></body></html>",
        a, b, c
    );
    let blocks = extract_top_blocks(&html, 2);
    assert_eq!(blocks.len(), 2);
    assert_eq!(blocks[0], c);
    assert_eq!(blocks[1], b);
}

#[test]
fn extraction_is_idempotent_on_identical_bytes() {
    let html = format!(
        "<html><body><article>{}</article><div>{}</div><p>{}</p></body></html>",
        prose(90),
        prose(64),
        prose(77)
    );
    let first = extract_top_blocks(&html, 3);
    let second = extract_top_blocks(&html, 3);
    assert_eq!(first, second);
    assert!(!first.is_empty());
}

#[test]
fn whitespace_is_trimmed_before_measuring() {
    let t = prose(61);
    let html = format!("<html><body><p>  \n {} \t </p></body></html>", t);
    let blocks = extract_top_blocks(&html, 5);
    assert_eq!(blocks, vec![t]);
}

#[test]
fn equal_length_blocks_come_in_code_point_order() {
    let mut a = prose(64);
    a.push('a');
    let mut b = prose(64);
    b.push('b');
    let html = format!(
        "<html><body><p>{}</p><p>{}</p></body></html>",
        b, a
    );
    let blocks = extract_top_blocks(&html, 5);
    assert_eq!(blocks, vec![a, b]);
}
