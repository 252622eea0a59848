use rhxn::types::{clone_text, Item, ItemType};

fn bare(id: u64, item_type: Option<ItemType>, url: Option<&str>) -> Item {
    Item {
        id,
        item_type,
        deleted: false,
        by: None,
        time: None,
        text: None,
        dead: false,
        parent: None,
        poll: None,
        kids: Vec::new(),
        url: url.map(|u| u.to_string()),
        score: 0,
        title: None,
        parts: Vec::new(),
        descendants: 0,
    }
}

fn story(url: &str) -> Item {
    bare(1, Some(ItemType::Story), Some(url))
}

#[test]
fn display_url_shows_the_host() {
    assert_eq!(story("https://example.com/a/b?c=d").display_url(), "example.com");
    assert_eq!(story("http://www.example.org").display_url(), "www.example.org");
    assert_eq!(story("https://example.com/").display_url(), "example.com");
}

#[test]
fn display_url_shows_some_hosts_in_full() {
    assert_eq!(story("https://github.com/verus-lang/verus").display_url(), "github.com/verus-lang/verus");
    assert_eq!(
        story("https://news.ycombinator.com/item?id=8863").display_url(),
        "news.ycombinator.com/item?id=8863"
    );
    assert_eq!(story("https://github.com").display_url(), "github.com");
    assert_eq!(story("https://gist.github.com/a").display_url(), "gist.github.com");
}

#[test]
fn display_url_without_scheme() {
    assert_eq!(story("example.com/path").display_url(), "example.com");
    assert_eq!(story("github.com/a/b").display_url(), "github.com/a/b");
    assert_eq!(story("").display_url(), "");
    assert_eq!(story("/").display_url(), "");
}

#[test]
fn display_url_splits_at_the_first_scheme_mark() {
    assert_eq!(story("a://b://c/d").display_url(), "b:");
    assert_eq!(story("://x/y").display_url(), "x");
    assert_eq!(story("https://").display_url(), "");
}

#[test]
fn display_url_of_a_story_without_link() {
    let item = bare(8863, Some(ItemType::Story), None);
    assert_eq!(item.display_url(), "news.ycombinator.com/item?id=8863");
}

#[test]
fn display_url_of_other_kinds() {
    for kind in [Some(ItemType::Job), Some(ItemType::Comment), Some(ItemType::Poll), Some(ItemType::PollOpt), None] {
        let item = bare(12, kind, Some("https://example.com/x"));
        assert_eq!(item.display_url(), "news.ycombinator.com/item?id=12");
    }
}

#[test]
fn long_url_is_the_link_or_the_origin() {
    assert_eq!(story("https://example.com/a").display_url_long(), "https://example.com/a");
    assert_eq!(
        bare(192327, Some(ItemType::Job), None).display_url_long(),
        "https://news.ycombinator.com/item?id=192327"
    );
}

#[test]
fn href_is_the_link_or_the_local_page() {
    assert_eq!(story("https://example.com/a").href_url(), "https://example.com/a");
    assert_eq!(bare(192327, None, None).href_url(), "/item/192327");
}

#[test]
fn local_and_origin_pages() {
    let item = bare(0, None, None);
    assert_eq!(item.rhxn_url(), "/item/0");
    assert_eq!(item.hn_url(), "https://news.ycombinator.com/item?id=0");
    let item = bare(u64::MAX, None, Some("x"));
    assert_eq!(item.rhxn_url(), "/item/18446744073709551615");
    assert_eq!(item.hn_url(), "https://news.ycombinator.com/item?id=18446744073709551615");
}

#[test]
fn humantime_without_a_time() {
    assert_eq!(bare(1, None, None).humantime(1_700_000_000, 0), "Unknown");
}

#[test]
fn humantime_in_words() {
    let mut item = bare(1, None, None);
    item.time = Some(1_000_000);
    assert_eq!(item.humantime(1_000_000, 0), "now");
    assert_eq!(item.humantime(1_000_000, 999_999_999), "now");
    assert_eq!(item.humantime(1_000_001, 0), "1 second ago");
    assert_eq!(item.humantime(1_000_059, 5), "59 seconds ago");
    assert_eq!(item.humantime(1_000_060, 0), "1 minute ago");
    assert_eq!(item.humantime(1_003_600, 0), "1 hour ago");
    assert_eq!(item.humantime(1_000_000 + 2 * 86_400, 0), "2 days ago");
    assert_eq!(item.humantime(1_000_000 + 7 * 86_400, 0), "1 week ago");
    assert_eq!(item.humantime(1_000_000 + 3 * 2_628_003, 0), "3 months ago");
    assert_eq!(item.humantime(1_000_000 + 12 * 2_628_003, 0), "1 year ago");
}

#[test]
fn humantime_depends_on_the_span() {
    let mut early = bare(1, None, None);
    early.time = Some(0);
    let mut late = bare(2, None, None);
    late.time = Some(500);
    assert_eq!(early.humantime(7200, 0), late.humantime(7700, 0));
    assert_ne!(early.humantime(7200, 0), late.humantime(7200, 0));
}

#[test]
fn clone_keeps_every_field() {
    let item = Item {
        id: 9,
        item_type: Some(ItemType::PollOpt),
        deleted: true,
        by: Some("a".to_string()),
        time: Some(3),
        text: Some("<p>t</p>".to_string()),
        dead: true,
        parent: Some(4),
        poll: Some(5),
        kids: vec![6, 7],
        url: Some("u".to_string()),
        score: -2,
        title: Some("T".to_string()),
        parts: vec![8],
        descendants: 10,
    };
    let copy = item.clone();
    assert_eq!(copy.id, 9);
    assert_eq!(copy.item_type, Some(ItemType::PollOpt));
    assert!(copy.deleted);
    assert_eq!(copy.by.as_deref(), Some("a"));
    assert_eq!(copy.time, Some(3));
    assert_eq!(copy.text.as_deref(), Some("<p>t</p>"));
    assert!(copy.dead);
    assert_eq!(copy.parent, Some(4));
    assert_eq!(copy.poll, Some(5));
    assert_eq!(copy.kids, vec![6, 7]);
    assert_eq!(copy.url.as_deref(), Some("u"));
    assert_eq!(copy.score, -2);
    assert_eq!(copy.title.as_deref(), Some("T"));
    assert_eq!(copy.parts, vec![8]);
    assert_eq!(copy.descendants, 10);
}

#[test]
fn clone_text_copies() {
    assert_eq!(clone_text(&Some("x".to_string())), Some("x".to_string()));
    assert_eq!(clone_text(&None), None);
}
