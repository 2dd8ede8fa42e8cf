//! The navigation engine: session state, the decisions of the feed menu and
//! the page menu, pagination arithmetic, and block rendering. The engine is a
//! pure state machine; fetching and prompting stay with the caller, which
//! performs each returned action and hands back the next input line.
use crate::dom::dom_of;
use crate::extract::{extract_top_blocks, str_views, top_blocks_post};
use crate::feed::{items_view, try_parse_feed, try_parse_spec, FeedItem};
use crate::links::{collect_links, dom_hrefs};
use crate::text::str_eq;
use crate::urls::{resolve_spec, resolve_url};
use vstd::arithmetic::div_mod::lemma_fundamental_div_mod;
use vstd::prelude::*;
use vstd::string::*;

verus! {

/// Number of links shown on one page of the link menu.
pub const PAGE_SIZE: usize = 10;

/// Number of ranked text blocks shown for an HTML page.
pub const TOP_BLOCK_COUNT: usize = 3;

/// Character limit beyond which a rendered block is cut off.
pub const TRUNCATE_CHARS: usize = 1000;

/// Mutable state of one navigation session.
pub struct Session {
    pub current_url: String,
    pub page: usize,
    pub expanded: bool,
}

impl Session {
    /// Start a session at the given (already normalized) URL.
    pub fn new(url: String) -> (s: Session)
        ensures
            s.current_url@ == url@,
            s.page == 0,
            !s.expanded,
    {
        Session { current_url: url, page: 0, expanded: false }
    }

    /// Move the cursor to a new URL; pagination and expansion start over.
    pub fn navigate(&mut self, url: String)
        ensures
            final(self).current_url@ == url@,
            final(self).page == 0,
            !final(self).expanded,
    {
        self.current_url = url;
        self.page = 0;
        self.expanded = false;
    }

    /// Show full blocks for the rest of this page view.
    pub fn expand(&mut self)
        ensures
            final(self).current_url == old(self).current_url,
            final(self).page == old(self).page,
            final(self).expanded,
    {
        self.expanded = true;
    }

    /// Step to the next page of links.
    pub fn next_page(&mut self)
        requires
            old(self).page < usize::MAX,
        ensures
            final(self).current_url == old(self).current_url,
            final(self).page == old(self).page + 1,
            final(self).expanded == old(self).expanded,
    {
        self.page = self.page + 1;
    }

    /// Step back to the previous page of links.
    pub fn back_page(&mut self)
        requires
            old(self).page > 0,
        ensures
            final(self).current_url == old(self).current_url,
            final(self).page == old(self).page - 1,
            final(self).expanded == old(self).expanded,
    {
        self.page = self.page - 1;
    }
}

/// A decimal digit.
pub open spec fn is_digit_char(c: char) -> bool {
    48 <= c as int <= 57
}

pub open spec fn digit_val(c: char) -> int {
    c as int - 48
}

/// A non-empty string of decimal digits.
pub open spec fn is_digits(s: Seq<char>) -> bool {
    s.len() > 0 && forall|i: int| 0 <= i < s.len() ==> is_digit_char(s[i])
}

/// The number a digit string denotes.
pub open spec fn digits_value(s: Seq<char>) -> int
    decreases s.len(),
{
    if s.len() == 0 {
        0
    } else {
        digits_value(s.drop_last()) * 10 + digit_val(s.last())
    }
}

proof fn lemma_digits_nonneg(s: Seq<char>)
    requires
        forall|j: int| 0 <= j < s.len() ==> is_digit_char(s[j]),
    ensures
        digits_value(s) >= 0,
    decreases s.len(),
{
    if s.len() > 0 {
        lemma_digits_nonneg(s.drop_last());
    }
}

/// A longer digit string never denotes a smaller number.
proof fn lemma_digits_extend(s: Seq<char>, m: int)
    requires
        0 <= m <= s.len(),
        forall|j: int| 0 <= j < s.len() ==> is_digit_char(s[j]),
    ensures
        digits_value(s) >= digits_value(s.take(m)),
    decreases s.len() - m,
{
    if m < s.len() {
        lemma_digits_extend(s, m + 1);
        assert(s.take(m + 1).drop_last() =~= s.take(m));
        assert(s.take(m + 1).last() == s[m]);
        lemma_digits_nonneg(s.take(m));
    } else {
        assert(s.take(m) =~= s);
    }
}

/// Parse a non-empty decimal digit string; `None` on any other input and on
/// values that do not fit.
pub fn parse_selection(s: &str) -> (r: Option<usize>)
    ensures
        (match r {
            Some(v) => is_digits(s@) && digits_value(s@) == v,
            None => !is_digits(s@) || digits_value(s@) > usize::MAX,
        }),
{
    let n = s.unicode_len();
    if n == 0 {
        return None;
    }
    let mut acc: usize = 0;
    let mut i: usize = 0;
    while i < n
        invariant
            0 <= i <= n,
            n == s@.len(),
            n > 0,
            forall|j: int| 0 <= j < i ==> is_digit_char(s@[j]),
            acc == digits_value(s@.take(i as int)),
        decreases n - i,
    {
        let c = s.get_char(i);
        let cv = c as u32;
        if cv < 48 || cv > 57 {
            return None;
        }
        let d = (cv - 48) as usize;
        assert(d == digit_val(s@[i as int]));
        if acc > (usize::MAX - d) / 10 {
            proof {
                lemma_fundamental_div_mod((usize::MAX - d) as int, 10);
                assert(acc * 10 + d > usize::MAX);
                assert(s@.take(i + 1).drop_last() =~= s@.take(i as int));
                assert(s@.take(i + 1).last() == s@[i as int]);
                assert(digits_value(s@.take(i + 1)) > usize::MAX);
                if is_digits(s@) {
                    lemma_digits_extend(s@, i + 1);
                }
            }
            return None;
        }
        proof {
            lemma_fundamental_div_mod((usize::MAX - d) as int, 10);
            assert(acc * 10 + d <= usize::MAX);
        }
        acc = acc * 10 + d;
        proof {
            assert(s@.take(i + 1).drop_last() =~= s@.take(i as int));
            assert(s@.take(i + 1).last() == s@[i as int]);
        }
        i += 1;
    }
    proof {
        assert(s@.take(n as int) =~= s@);
    }
    Some(acc)
}

/// Start of the link window for a page.
pub open spec fn window_start(page: int) -> int {
    page * PAGE_SIZE
}

/// End of the link window for a page, capped at the link count.
pub open spec fn window_end(page: int, total: int) -> int {
    if page * PAGE_SIZE + PAGE_SIZE <= total {
        page * PAGE_SIZE + PAGE_SIZE
    } else {
        total
    }
}

/// Number of pages a link list fills.
pub open spec fn num_pages(total: int) -> int {
    (total + PAGE_SIZE - 1) / (PAGE_SIZE as int)
}

/// The link window of the current page: start (inclusive) and end
/// (exclusive) indices into the link list.
pub fn page_window(page: usize, total: usize) -> (r: (usize, usize))
    requires
        (page as int) * (PAGE_SIZE as int) < total,
    ensures
        r.0 == window_start(page as int),
        r.1 == window_end(page as int, total as int),
        r.0 < r.1 <= total,
{
    let start = page * PAGE_SIZE;
    let end = if total - start > PAGE_SIZE {
        start + PAGE_SIZE
    } else {
        total
    };
    (start, end)
}

/// Whether a further page of links exists.
pub fn has_next_page(page: usize, total: usize) -> (r: bool)
    requires
        (page as int) * (PAGE_SIZE as int) < total,
    ensures
        r == (window_end(page as int, total as int) < total),
{
    total - page * PAGE_SIZE > PAGE_SIZE
}

/// Number of pages a link list fills.
pub fn page_count(total: usize) -> (r: usize)
    ensures
        r == num_pages(total as int),
{
    proof {
        lemma_fundamental_div_mod(total as int, 10);
        lemma_fundamental_div_mod(total as int + 9, 10);
    }
    if total % PAGE_SIZE == 0 {
        total / PAGE_SIZE
    } else {
        total / PAGE_SIZE + 1
    }
}

/// Pagination arithmetic: the page count is the ceiling of `total` over the
/// page size, every valid page lies below it, a next page exists exactly
/// when the window stops short of the total, and the last window ends at the
/// total.
pub proof fn lemma_pagination(total: int, page: int)
    requires
        total > 0,
        0 <= page,
        page * PAGE_SIZE < total,
    ensures
        num_pages(total) == if total % (PAGE_SIZE as int) == 0 {
            total / (PAGE_SIZE as int)
        } else {
            total / (PAGE_SIZE as int) + 1
        },
        0 <= page < num_pages(total),
        (window_end(page, total) < total) <==> (page + 1 < num_pages(total)),
        page == num_pages(total) - 1 ==> window_end(page, total) == total,
        window_start(page) < window_end(page, total) <= total,
        window_end(page, total) - window_start(page) <= PAGE_SIZE,
{
    lemma_fundamental_div_mod(total, 10);
    lemma_fundamental_div_mod(total + 9, 10);
}

/// What a block looks like on screen.
pub open spec fn render_block_spec(b: Seq<char>, expanded: bool) -> Seq<char> {
    if !expanded && b.len() > TRUNCATE_CHARS {
        b.subrange(0, TRUNCATE_CHARS as int) + "... [truncated]"@
    } else {
        b
    }
}

/// Render one text block: cut to the first [`TRUNCATE_CHARS`] characters with
/// a marker appended, unless the session is expanded or the block is short.
pub fn render_block(block: &str, expanded: bool) -> (r: String)
    ensures
        r@ == render_block_spec(block@, expanded),
{
    if !expanded && block.unicode_len() > TRUNCATE_CHARS {
        let mut r = block.substring_char(0, TRUNCATE_CHARS).to_owned();
        r.append("... [truncated]");
        r
    } else {
        block.to_owned()
    }
}

/// A long block renders as exactly the truncation window plus the marker when
/// collapsed, and in full when expanded.
pub proof fn lemma_truncation(b: Seq<char>)
    requires
        b.len() > TRUNCATE_CHARS,
    ensures
        render_block_spec(b, false).len() == TRUNCATE_CHARS + "... [truncated]"@.len(),
        render_block_spec(b, false).subrange(0, TRUNCATE_CHARS as int) == b.subrange(
            0,
            TRUNCATE_CHARS as int,
        ),
        render_block_spec(b, true) == b,
{
    assert(render_block_spec(b, false).subrange(0, TRUNCATE_CHARS as int) =~= b.subrange(
        0,
        TRUNCATE_CHARS as int,
    ));
}

/// What the feed menu does with one input line.
pub enum FeedAction {
    /// End the session.
    Quit,
    /// Open the chosen item (1-based).
    Open(usize),
    /// The selection was invalid: restart the fetch cycle for the current
    /// URL. (Ending the session here would be the other defensible reading;
    /// this engine deliberately keeps the session alive on a bad feed
    /// selection.)
    Retry,
}

pub open spec fn feed_step_spec(input: Seq<char>, count: int) -> FeedAction {
    if input == "q"@ {
        FeedAction::Quit
    } else if is_digits(input) && 1 <= digits_value(input) <= count {
        FeedAction::Open(digits_value(input) as usize)
    } else {
        FeedAction::Retry
    }
}

/// Decide the feed menu: `q` quits; a digit selection within the menu opens
/// that item; anything else is invalid.
pub fn feed_menu_step(input: &str, count: usize) -> (r: FeedAction)
    ensures
        r == feed_step_spec(input@, count as int),
{
    if str_eq(input, "q") {
        FeedAction::Quit
    } else {
        match parse_selection(input) {
            Some(n) => if 1 <= n && n <= count {
                FeedAction::Open(n)
            } else {
                FeedAction::Retry
            },
            None => FeedAction::Retry,
        }
    }
}

/// What the page menu does with one input line.
pub enum PageAction {
    /// End the session.
    Quit,
    /// Show full blocks from now on.
    Expand,
    /// Step to the next page of links.
    NextPage,
    /// Step back one page of links.
    BackPage,
    /// Open the chosen link of this window (1-based).
    Open(usize),
    /// The input was invalid: show the same page again.
    Reprompt,
}

pub open spec fn page_step_spec(input: Seq<char>, page: int, total: int, expanded: bool) -> PageAction {
    if input == "q"@ {
        PageAction::Quit
    } else if input == "e"@ && !expanded {
        PageAction::Expand
    } else if input == "n"@ && window_end(page, total) < total {
        PageAction::NextPage
    } else if input == "b"@ && page > 0 {
        PageAction::BackPage
    } else if is_digits(input) && 1 <= digits_value(input) <= window_end(page, total)
        - window_start(page) {
        PageAction::Open(digits_value(input) as usize)
    } else {
        PageAction::Reprompt
    }
}

/// Decide the page menu: `q` quits; `e` expands when not yet expanded; `n`
/// and `b` page forward and back when such a page exists; a digit selection
/// within the window opens that link; anything else re-prompts.
pub fn page_menu_step(input: &str, page: usize, total: usize, expanded: bool) -> (r: PageAction)
    requires
        (page as int) * (PAGE_SIZE as int) < total,
    ensures
        r == page_step_spec(input@, page as int, total as int, expanded),
{
    if str_eq(input, "q") {
        return PageAction::Quit;
    }
    if str_eq(input, "e") && !expanded {
        return PageAction::Expand;
    }
    let next = has_next_page(page, total);
    if str_eq(input, "n") && next {
        return PageAction::NextPage;
    }
    if str_eq(input, "b") && page > 0 {
        return PageAction::BackPage;
    }
    let w = page_window(page, total);
    match parse_selection(input) {
        Some(n) => if 1 <= n && n <= w.1 - w.0 {
            PageAction::Open(n)
        } else {
            PageAction::Reprompt
        },
        None => PageAction::Reprompt,
    }
}

/// The navigation tokens act exactly when their page exists: `n` steps
/// forward iff the window stops short of the total, `b` steps back iff a
/// previous page exists, and `e` expands iff the view is not yet expanded.
pub proof fn lemma_menu_offers(page: int, total: int, expanded: bool)
    requires
        0 <= page,
        page * PAGE_SIZE < total,
    ensures
        (page_step_spec("n"@, page, total, expanded) is NextPage) <==> (window_end(page, total)
            < total),
        (page_step_spec("b"@, page, total, expanded) is BackPage) <==> (page > 0),
        (page_step_spec("e"@, page, total, expanded) is Expand) <==> !expanded,
        page_step_spec("q"@, page, total, expanded) is Quit,
{
    reveal_strlit("q");
    reveal_strlit("e");
    reveal_strlit("n");
    reveal_strlit("b");
    assert("q"@.len() == 1 && "q"@[0] == 'q');
    assert("e"@.len() == 1 && "e"@[0] == 'e');
    assert("n"@.len() == 1 && "n"@[0] == 'n');
    assert("b"@.len() == 1 && "b"@[0] == 'b');
    assert(!is_digit_char('e') && !is_digit_char('n') && !is_digit_char('b'));
}

/// The absolute target of the `n`-th link (1-based) of the current window.
pub fn select_link_target(links: &Vec<String>, base: &str, page: usize, n: usize) -> (r: String)
    requires
        (page as int) * (PAGE_SIZE as int) < links@.len(),
        1 <= n <= window_end(page as int, links@.len() as int) - window_start(page as int),
    ensures
        r@ == resolve_spec(base@, links@[window_start(page as int) + n - 1]@),
{
    let total = links.len();
    let start = page * PAGE_SIZE;
    assert(start + n - 1 < total);
    resolve_url(base, links[start + n - 1].as_str())
}

/// What one fetched body is, after classification.
pub enum Resource {
    /// A syndication feed with at least one entry: its menu items.
    Feed(Vec<FeedItem>),
    /// Anything else: ranked text blocks and the raw links, both computed
    /// fresh from this body.
    Page { blocks: Vec<String>, links: Vec<String> },
}

/// Classify one fetched body: a feed menu when the body parses as a
/// non-empty feed, otherwise an HTML page with its ranked blocks and links.
pub fn classify(body: &str, k: usize) -> (r: Resource)
    ensures
        (match r {
            Resource::Feed(items) => {
                &&& try_parse_spec(body@) == Some(items_view(items@))
                &&& items@.len() > 0
            },
            Resource::Page { blocks, links } => {
                &&& try_parse_spec(body@) is None
                &&& top_blocks_post(dom_of(body@), k as int, str_views(blocks@))
                &&& str_views(links@) == dom_hrefs(dom_of(body@))
            },
        }),
{
    match try_parse_feed(body) {
        Some(items) => Resource::Feed(items),
        None => Resource::Page { blocks: extract_top_blocks(body, k), links: collect_links(body) },
    }
}

} // verus!
