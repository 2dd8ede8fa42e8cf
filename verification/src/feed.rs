//! Feed classification: turn raw text into a menu of (title, link) items when
//! it is a syndication feed with at least one entry, and signal "not a feed"
//! otherwise.
use vstd::prelude::*;
use vstd::string::*;

verus! {

/// One entry as the feed parser hands it over: an optional title and the
/// addresses of its links, in order.
pub struct RawEntry {
    pub title: Option<String>,
    pub links: Vec<String>,
}

/// Mathematical counterpart of [`RawEntry`].
pub struct SpecEntry {
    pub title: Option<Seq<char>>,
    pub links: Seq<Seq<char>>,
}

impl View for RawEntry {
    type V = SpecEntry;

    open spec fn view(&self) -> SpecEntry {
        SpecEntry {
            title: match self.title {
                Some(t) => Some(t@),
                None => None,
            },
            links: self.links@.map_values(|l: String| l@),
        }
    }
}

/// One item of a feed menu.
pub struct FeedItem {
    pub title: String,
    pub link: String,
}

/// Mathematical counterpart of [`FeedItem`].
pub struct SpecItem {
    pub title: Seq<char>,
    pub link: Seq<char>,
}

impl View for FeedItem {
    type V = SpecItem;

    open spec fn view(&self) -> SpecItem {
        SpecItem { title: self.title@, link: self.link@ }
    }
}

/// The views of a vector of entries.
pub open spec fn entries_view(v: Seq<RawEntry>) -> Seq<SpecEntry> {
    v.map_values(|e: RawEntry| e@)
}

/// The views of a vector of menu items.
pub open spec fn items_view(v: Seq<FeedItem>) -> Seq<SpecItem> {
    v.map_values(|it: FeedItem| it@)
}

/// The entry list that the given text parses to as a syndication feed, or
/// `None` when it is not one. The result depends on the text alone; it is
/// only ever learned through [`parse_feed_entries`].
pub uninterp spec fn feed_parse_of(xml: Seq<char>) -> Option<Seq<SpecEntry>>;

/// Relies on `feed_rs::parser::parse`: parses the bytes as a syndication
/// feed and returns each entry's title and link addresses in order, or
/// `None` when the bytes do not form a feed.
#[verifier::external_body]
fn parse_feed_entries(xml: &str) -> (r: Option<Vec<RawEntry>>)
    ensures
        (match r {
            Some(v) => feed_parse_of(xml@) == Some(entries_view(v@)),
            None => feed_parse_of(xml@) is None,
        }),
{
    match feed_rs::parser::parse(xml.as_bytes()) {
        Ok(feed) => Some(
            feed.entries.into_iter().map(
                |e| RawEntry {
                    title: e.title.map(|t| t.content),
                    links: e.links.into_iter().map(|l| l.href).collect(),
                },
            ).collect(),
        ),
        Err(_) => None,
    }
}

/// The menu item made from one entry: a missing title becomes the
/// placeholder, the link is the first one or empty.
pub open spec fn item_of_entry(e: SpecEntry) -> SpecItem {
    SpecItem {
        title: match e.title {
            Some(t) => t,
            None => "Untitled"@,
        },
        link: if e.links.len() > 0 {
            e.links[0]
        } else {
            Seq::empty()
        },
    }
}

/// The menu items of an entry list, in order.
pub open spec fn items_of_entries(entries: Seq<SpecEntry>) -> Seq<SpecItem> {
    entries.map_values(|e: SpecEntry| item_of_entry(e))
}

/// What `try_parse_feed` returns: one item per entry when the text is a feed
/// with at least one entry, `None` otherwise.
pub open spec fn try_parse_spec(xml: Seq<char>) -> Option<Seq<SpecItem>> {
    match feed_parse_of(xml) {
        Some(entries) => if entries.len() == 0 {
            None
        } else {
            Some(items_of_entries(entries))
        },
        None => None,
    }
}

/// Build the menu items for a parsed entry list, in order.
pub fn feed_items(entries: &Vec<RawEntry>) -> (r: Vec<FeedItem>)
    ensures
        items_view(r@) == items_of_entries(entries_view(entries@)),
{
    let mut r: Vec<FeedItem> = Vec::new();
    let n = entries.len();
    let mut i: usize = 0;
    while i < n
        invariant
            0 <= i <= n,
            n == entries@.len(),
            r@.len() == i,
            forall|j: int| 0 <= j < i ==> #[trigger] r@[j]@ == item_of_entry(entries@[j]@),
        decreases n - i,
    {
        let title = match &entries[i].title {
            Some(t) => t.clone(),
            None => String::from_str("Untitled"),
        };
        let link = if entries[i].links.len() > 0 {
            entries[i].links[0].clone()
        } else {
            String::new()
        };
        let item = FeedItem { title, link };
        assert(item@ == item_of_entry(entries@[i as int]@));
        r.push(item);
        i += 1;
    }
    proof {
        assert(items_view(r@) =~= items_of_entries(entries_view(entries@)));
    }
    r
}

/// Classify raw text as a feed. Returns the menu items when the text parses
/// as a feed with at least one entry; returns `None` — treat as HTML — when
/// parsing fails or the feed is empty. Never fails.
pub fn try_parse_feed(xml: &str) -> (r: Option<Vec<FeedItem>>)
    ensures
        (match r {
            Some(items) => {
                &&& try_parse_spec(xml@) == Some(items_view(items@))
                &&& items@.len() > 0
            },
            None => try_parse_spec(xml@) is None,
        }),
{
    match parse_feed_entries(xml) {
        Some(entries) => {
            proof {
                assert(entries_view(entries@).len() == entries@.len());
            }
            if entries.len() == 0 {
                None
            } else {
                let items = feed_items(&entries);
                proof {
                    assert(items_view(items@).len() == items_of_entries(entries_view(entries@)).len());
                    assert(items_of_entries(entries_view(entries@)).len() == entries_view(
                        entries@,
                    ).len());
                    assert(items_view(items@).len() == items@.len());
                }
                Some(items)
            }
        },
        None => None,
    }
}

/// A well-formed feed with `N` entries yields exactly `N` items, order
/// preserved: each title is the entry's or the placeholder, each link the
/// entry's first or empty.
pub proof fn lemma_feed_items_exact(xml: Seq<char>, entries: Seq<SpecEntry>)
    requires
        feed_parse_of(xml) == Some(entries),
        entries.len() > 0,
    ensures
        try_parse_spec(xml) is Some,
        try_parse_spec(xml)->0.len() == entries.len(),
        forall|i: int|
            0 <= i < entries.len() ==> #[trigger] try_parse_spec(xml)->0[i] == item_of_entry(
                entries[i],
            ),
        forall|i: int|
            0 <= i < entries.len() ==> (#[trigger] try_parse_spec(xml)->0[i]).link == (
            if entries[i].links.len() > 0 {
                entries[i].links[0]
            } else {
                Seq::<char>::empty()
            }),
{
}

/// A payload that is not a feed, or a feed with zero entries, is classified
/// as "none".
pub proof fn lemma_feed_rejects(xml: Seq<char>)
    requires
        feed_parse_of(xml) is None || feed_parse_of(xml) == Some(Seq::<SpecEntry>::empty()),
    ensures
        try_parse_spec(xml) is None,
{
}

} // verus!
