use vstd::prelude::*;
use vstd::string::*;
use crate::crawl::{Crawler, CONCURRENT_REQUESTS};
use crate::store::{lookup, DB};
use crate::text::{decimal, push_decimal};
use crate::types::Item;

verus! {

/// The number of identifiers of the remote top list that are kept.
pub const TOP_STORIES: usize = 30;

/// The address of the remote list of top identifiers.
pub open spec fn top_stories_address() -> Seq<char> {
    "https://hacker-news.firebaseio.com/v0/topstories.json"@
}

/// The address of the remote record of item `id`.
pub open spec fn item_address(id: u64) -> Seq<char> {
    "https://hacker-news.firebaseio.com/v0/item/"@ + decimal(id as nat) + ".json"@
}

/// The address to request the list of top identifiers from.
pub fn top_stories_url() -> (r: String)
    ensures
        r@ == top_stories_address(),
{
    String::from_str("https://hacker-news.firebaseio.com/v0/topstories.json")
}

/// The address to request item `id` from.
pub fn item_url(id: u64) -> (r: String)
    ensures
        r@ == item_address(id),
{
    let mut r = String::from_str("https://hacker-news.firebaseio.com/v0/item/");
    push_decimal(&mut r, id);
    r.append(".json");
    r
}

/// The part of a remote top list that is published: its first
/// [`TOP_STORIES`] identifiers.
pub open spec fn front_page(ids: Seq<u64>) -> Seq<u64> {
    if ids.len() <= TOP_STORIES {
        ids
    } else {
        ids.take(TOP_STORIES as int)
    }
}

/// Begins a refresh with the top list `ids` as the remote source gave it:
/// publishes its front page and returns the crawl that starts from it. The
/// store is left as it is.
pub fn run(db: &mut DB, ids: Vec<u64>) -> (c: Crawler)
    requires
        old(db).wf(),
    ensures
        final(db).wf(),
        final(db).top_ids() == front_page(ids@),
        final(db).items() == old(db).items(),
        final(db).limit() == old(db).limit(),
        c.starts_from(front_page(ids@)),
        c.limit() == CONCURRENT_REQUESTS,
{
    let mut ids = ids;
    ids.truncate(TOP_STORIES);
    db.set_top(ids.clone());
    Crawler::new(ids)
}

/// How a request for one item goes on.
pub enum Resolution {
    /// The store held the item: nothing is fetched.
    Cached(Item),
    /// The store did not hold it: the crawl that has the identifier as its
    /// one seed is to be run, and the store looked up again.
    Fetch(Crawler),
}

/// Begins to resolve `id`: answers from the store if the item is there,
/// and otherwise starts the crawl from `id` that is to fetch the item and
/// all below it.
pub fn fetch_item_tree(db: &mut DB, id: u64) -> (r: Resolution)
    requires
        old(db).wf(),
    ensures
        final(db).wf(),
        final(db).limit() == old(db).limit(),
        final(db).top_ids() == old(db).top_ids(),
        final(db).items().submap_of(old(db).items()),
        old(db).within_limit() ==> final(db).items() == old(db).items(),
        (match lookup(old(db).items(), id) {
            Some(v) => r matches Resolution::Cached(item) && item@ == v,
            None => r matches Resolution::Fetch(c) && c.starts_from(seq![id]) && c.limit()
                == CONCURRENT_REQUESTS,
        }),
{
    match db.get(id) {
        Some(item) => Resolution::Cached(item),
        None => {
            let mut seed: Vec<u64> = Vec::new();
            seed.push(id);
            assert(seed@ =~= seq![id]);
            Resolution::Fetch(Crawler::new(seed))
        },
    }
}

} // verus!
