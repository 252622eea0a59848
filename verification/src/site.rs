use vstd::prelude::*;
use crate::api::{fetch_item_tree, Resolution};
use crate::crawl::{Crawler, CONCURRENT_REQUESTS};
use crate::store::{item_views, lookup, read_top, DB};
use crate::templates::IndexTemplate;
use crate::text::{parse_item_id, parsed_id};
use crate::types::Item;

verus! {

/// How the request for the page of an item goes on.
pub enum ItemRequest {
    /// The identifier in the address is malformed: the request is refused
    /// before anything is looked up or fetched.
    Invalid,
    /// The store held the item.
    Cached(Item),
    /// The store did not hold the item of this identifier: the crawl is to
    /// be run, and the store looked up again.
    Fetch(u64, Crawler),
}

/// Takes up the request for the page of the item that `id` writes.
pub fn item(db: &mut DB, id: &str) -> (r: ItemRequest)
    requires
        old(db).wf(),
    ensures
        final(db).wf(),
        final(db).limit() == old(db).limit(),
        final(db).top_ids() == old(db).top_ids(),
        final(db).items().submap_of(old(db).items()),
        old(db).within_limit() || parsed_id(id@) is None ==> final(db).items() == old(db).items(),
        parsed_id(id@) is None ==> r is Invalid,
        parsed_id(id@) matches Some(n) ==> (match lookup(old(db).items(), n) {
            Some(v) => r matches ItemRequest::Cached(found) && found@ == v,
            None => r matches ItemRequest::Fetch(m, c) && m == n && c.starts_from(seq![n])
                && c.limit() == CONCURRENT_REQUESTS,
        }),
{
    let n = match parse_item_id(id) {
        Some(n) => n,
        None => {
            return ItemRequest::Invalid;
        },
    };
    match fetch_item_tree(db, n) {
        Resolution::Cached(found) => ItemRequest::Cached(found),
        Resolution::Fetch(c) => ItemRequest::Fetch(n, c),
    }
}

/// The front page: the stories of the published top list that the store
/// holds.
pub fn index(db: &mut DB) -> (t: IndexTemplate<'static>)
    requires
        old(db).wf(),
    ensures
        final(db).wf(),
        read_top(old(db), final(db), item_views(t.stories@)),
        t.title@ == "Stories"@,
        t.static_base@ == "/assets"@,
{
    IndexTemplate::new(db.get_top_stories())
}

} // verus!
