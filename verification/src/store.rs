use vstd::prelude::*;
use crate::types::{Item, ItemView};

verus! {

/// Default bound on the number of items the store keeps.
pub const CACHE_SIZE: u64 = 20_000;

#[verifier::external_type_specification]
#[verifier::external_body]
#[verifier::reject_recursive_types(K)]
#[verifier::reject_recursive_types(V)]
#[verifier::reject_recursive_types(S)]
pub struct ExCache<K, V, S>(moka::sync::Cache<K, V, S>);

/// The entries that a lookup in the cache finds, by key.
pub uninterp spec fn cached(c: moka::sync::Cache<u64, Item>) -> Map<u64, ItemView>;

/// The `max_capacity` the cache was built with.
pub uninterp spec fn cache_limit(c: moka::sync::Cache<u64, Item>) -> nat;

/// The empty store.
pub open spec fn no_items() -> Map<u64, ItemView> {
    Map::empty()
}

/// The value of an optional item.
pub open spec fn item_view(o: Option<Item>) -> Option<ItemView> {
    match o {
        Some(item) => Some(item@),
        None => None,
    }
}

/// What a lookup of `id` in `m` finds.
pub open spec fn lookup(m: Map<u64, ItemView>, id: u64) -> Option<ItemView> {
    if m.contains_key(id) {
        Some(m[id])
    } else {
        None
    }
}

/// Builds a `moka::sync::Cache` through `Cache::builder()` with
/// `max_capacity(capacity)` and the `EvictionPolicy::lru()` policy. Trusted:
/// the new cache holds no entry and remembers `capacity` as its limit.
#[verifier::external_body]
fn cache_new(capacity: u64) -> (c: moka::sync::Cache<u64, Item>)
    ensures
        cached(c) == no_items(),
        cache_limit(c) == capacity,
{
    moka::sync::Cache::builder()
        .max_capacity(capacity)
        .eviction_policy(moka::policy::EvictionPolicy::lru())
        .build()
}

/// Calls `moka::sync::Cache::get`. Trusted: the result is a clone of the
/// entry found under `id` when the call began, if there was one. The call
/// may run the cache's pending maintenance, which only ever removes
/// entries, and removes none while the cache holds no more entries than
/// its limit.
#[verifier::external_body]
fn cache_get(c: &mut moka::sync::Cache<u64, Item>, id: u64) -> (r: Option<Item>)
    ensures
        item_view(r) == lookup(cached(*old(c)), id),
        cache_limit(*final(c)) == cache_limit(*old(c)),
        cached(*final(c)).submap_of(cached(*old(c))),
        cached(*old(c)).dom().finite() ==> cached(*final(c)).dom().finite(),
        cached(*old(c)).dom().finite() && cached(*old(c)).dom().len() <= cache_limit(*old(c))
            ==> cached(*final(c)) == cached(*old(c)),
{
    c.get(&id)
}

/// Calls `moka::sync::Cache::insert`. Trusted: afterwards a lookup finds
/// nothing that was not an entry before, but for `item` under `id`, which
/// it does find unless the cache was built with limit zero. Entries may
/// have been evicted by the time the call returns, but none is while the
/// entries, the new one included, number no more than the limit.
#[verifier::external_body]
fn cache_insert(c: &mut moka::sync::Cache<u64, Item>, id: u64, item: Item)
    ensures
        cache_limit(*final(c)) == cache_limit(*old(c)),
        cached(*final(c)).submap_of(cached(*old(c)).insert(id, item@)),
        cache_limit(*old(c)) >= 1 ==> cached(*final(c)).contains_key(id),
        cached(*old(c)).dom().finite() ==> cached(*final(c)).dom().finite(),
        cached(*old(c)).dom().finite() && cached(*old(c)).insert(id, item@).dom().len()
            <= cache_limit(*old(c)) ==> cached(*final(c)) == cached(*old(c)).insert(id, item@),
{
    c.insert(id, item)
}

/// The published list of top-level identifiers, behind an atomically
/// swappable reference.
#[verifier::external_body]
pub struct TopList {
    cell: arc_swap::ArcSwap<Vec<u64>>,
}

/// The list that a load of the cell returns.
pub uninterp spec fn published(t: TopList) -> Seq<u64>;

/// Calls `arc_swap::ArcSwap::from_pointee` on an empty vector. Trusted: the
/// new cell holds the empty list.
#[verifier::external_body]
fn top_new() -> (t: TopList)
    ensures
        published(t) == Seq::<u64>::empty(),
{
    TopList { cell: arc_swap::ArcSwap::from_pointee(Vec::new()) }
}

/// Calls `arc_swap::ArcSwapAny::store` with `ids` in a new `Arc`. Trusted:
/// the cell then holds `ids`.
#[verifier::external_body]
fn top_store(t: &mut TopList, ids: Vec<u64>)
    ensures
        published(*final(t)) == ids@,
{
    t.cell.store(std::sync::Arc::new(ids))
}

/// Calls `arc_swap::ArcSwapAny::load`. Trusted: the result is a copy of the
/// list the cell holds.
#[verifier::external_body]
fn top_load(t: &TopList) -> (r: Vec<u64>)
    ensures
        r@ == published(*t),
{
    t.cell.load().as_ref().clone()
}

/// The item store and the top-list publisher.
pub struct DB {
    items: moka::sync::Cache<u64, Item>,
    top: TopList,
}

/// The items among `ids` that `items` holds, in the order of `ids`.
pub open spec fn present_items(ids: Seq<u64>, items: Map<u64, ItemView>) -> Seq<ItemView>
    decreases ids.len(),
{
    if ids.len() == 0 {
        Seq::empty()
    } else if items.contains_key(ids.last()) {
        present_items(ids.drop_last(), items).push(items[ids.last()])
    } else {
        present_items(ids.drop_last(), items)
    }
}

/// The items of `items` under those of `ids` that `keep` marks, in the
/// order of `ids`.
pub open spec fn pick(ids: Seq<u64>, items: Map<u64, ItemView>, keep: Seq<bool>) -> Seq<ItemView>
    decreases ids.len(),
{
    if ids.len() == 0 || keep.len() != ids.len() {
        Seq::empty()
    } else if keep.last() {
        pick(ids.drop_last(), items, keep.drop_last()).push(items[ids.last()])
    } else {
        pick(ids.drop_last(), items, keep.drop_last())
    }
}

/// The values of a list of items.
pub open spec fn item_views(v: Seq<Item>) -> Seq<ItemView> {
    Seq::new(v.len(), |i: int| v[i]@)
}

/// What reading the top stories does: `stories` was read, and the store was
/// `before` then and is `after` now.
///
/// While the store is within its limit, reading changes nothing and
/// `stories` is exact. Beyond it, items may leave the store during the
/// reads: then every identifier still stored afterwards was picked, and
/// everything picked was stored before.
pub open spec fn read_top(before: &DB, after: &DB, stories: Seq<ItemView>) -> bool {
    &&& after.limit() == before.limit()
    &&& after.top_ids() == before.top_ids()
    &&& after.items().submap_of(before.items())
    &&& before.within_limit() ==> after.items() == before.items() && stories == present_items(
        before.top_ids(),
        before.items(),
    )
    &&& exists|keep: Seq<bool>|
        {
            &&& keep.len() == before.top_ids().len()
            &&& stories == pick(before.top_ids(), before.items(), keep)
            &&& forall|k: int|
                0 <= k < keep.len() ==> (#[trigger] keep[k] ==> before.items().contains_key(
                    before.top_ids()[k],
                ))
            &&& forall|k: int|
                0 <= k < keep.len() ==> (after.items().contains_key(before.top_ids()[k])
                    ==> #[trigger] keep[k])
        }
}

impl DB {
    /// The items the store holds, by identifier.
    pub closed spec fn items(&self) -> Map<u64, ItemView> {
        cached(self.items)
    }

    /// The configured bound on the number of items.
    pub closed spec fn limit(&self) -> nat {
        cache_limit(self.items)
    }

    /// The published top list.
    pub closed spec fn top_ids(&self) -> Seq<u64> {
        published(self.top)
    }

    /// The invariant of the store: it holds finitely many items.
    pub closed spec fn wf(&self) -> bool {
        cached(self.items).dom().finite()
    }

    /// The store holds no more items than its limit.
    pub open spec fn within_limit(&self) -> bool {
        self.items().dom().len() <= self.limit()
    }

    /// The store can take an item under `id` without exceeding its limit.
    pub open spec fn has_room_for(&self, id: u64) -> bool {
        self.items().dom().insert(id).len() <= self.limit()
    }

    /// A store holds finitely many items.
    pub proof fn lemma_finite(&self)
        requires
            self.wf(),
        ensures
            self.items().dom().finite(),
    {
    }

    /// An empty store of the default size, with an empty top list.
    pub fn new() -> (db: DB)
        ensures
            db.wf(),
            db.items() == no_items(),
            db.limit() == CACHE_SIZE,
            db.top_ids() == Seq::<u64>::empty(),
    {
        DB::with_capacity(CACHE_SIZE)
    }

    /// An empty store bounded at `capacity` items, with an empty top list.
    pub fn with_capacity(capacity: u64) -> (db: DB)
        ensures
            db.wf(),
            db.items() == no_items(),
            db.limit() == capacity,
            db.top_ids() == Seq::<u64>::empty(),
    {
        let items = cache_new(capacity);
        DB { items, top: top_new() }
    }

    /// Looks `id` up. A miss is a normal outcome. Reading never adds an item,
    /// and removes none while the store is within its limit.
    pub fn get(&mut self, id: u64) -> (r: Option<Item>)
        requires
            old(self).wf(),
        ensures
            item_view(r) == lookup(old(self).items(), id),
            final(self).limit() == old(self).limit(),
            final(self).top_ids() == old(self).top_ids(),
            final(self).items().submap_of(old(self).items()),
            old(self).within_limit() ==> final(self).items() == old(self).items(),
            final(self).wf(),
    {
        cache_get(&mut self.items, id)
    }

    /// Stores `item` under `id`, replacing what was there. Afterwards the
    /// store holds nothing it did not hold before but this entry; while
    /// there is room, it holds exactly the old entries and this one.
    pub fn insert(&mut self, id: u64, item: Item)
        requires
            old(self).wf(),
        ensures
            final(self).limit() == old(self).limit(),
            final(self).top_ids() == old(self).top_ids(),
            final(self).items().submap_of(old(self).items().insert(id, item@)),
            old(self).limit() >= 1 ==> lookup(final(self).items(), id) == Some(item@),
            old(self).has_room_for(id) ==> final(self).items() == old(self).items().insert(
                id,
                item@,
            ),
            final(self).wf(),
    {
        let ghost after = old(self).items().insert(id, item@);
        cache_insert(&mut self.items, id, item);
        assert(after.dom().contains(id));
    }

    /// Replaces the published top list by `ids`.
    pub fn set_top(&mut self, ids: Vec<u64>)
        requires
            old(self).wf(),
        ensures
            final(self).wf(),
            final(self).top_ids() == ids@,
            final(self).items() == old(self).items(),
            final(self).limit() == old(self).limit(),
    {
        top_store(&mut self.top, ids)
    }

    /// The published top list; empty if none was published yet.
    pub fn top(&self) -> (r: Vec<u64>)
        ensures
            r@ == self.top_ids(),
    {
        top_load(&self.top)
    }

    /// The items of the published top list that the store holds, in the
    /// order of the list; identifiers not in the store are left out.
    pub fn get_top_stories(&mut self) -> (r: Vec<Item>)
        requires
            old(self).wf(),
        ensures
            final(self).wf(),
            read_top(old(self), final(self), item_views(r@)),
    {
        let ids = self.top();
        let mut out: Vec<Item> = Vec::new();
        let ghost mut keep: Seq<bool> = Seq::empty();
        let mut i: usize = 0;
        assert(ids@.take(0) =~= Seq::<u64>::empty());
        assert(item_views(out@) =~= Seq::<ItemView>::empty());
        while i < ids.len()
            invariant
                i <= ids.len(),
                ids@ == old(self).top_ids(),
                self.top_ids() == old(self).top_ids(),
                self.limit() == old(self).limit(),
                self.items().submap_of(old(self).items()),
                self.wf(),
                keep.len() == i,
                item_views(out@) == pick(ids@.take(i as int), old(self).items(), keep),
                forall|k: int| 0 <= k < i ==> (#[trigger] keep[k] ==> old(self).items().contains_key(
                    ids@[k],
                )),
                forall|k: int|
                    0 <= k < i ==> (self.items().contains_key(ids@[k]) ==> #[trigger] keep[k]),
                old(self).within_limit() ==> self.items() == old(self).items() && item_views(out@)
                    == present_items(ids@.take(i as int), old(self).items()),
            decreases ids.len() - i,
        {
            let ghost before = self.items();
            let ghost views = item_views(out@);
            let ghost kept = keep;
            let id = ids[i];
            let found = self.get(id);
            proof {
                assert(ids@.take(i + 1).drop_last() =~= ids@.take(i as int));
                assert(ids@.take(i + 1).last() == id);
                assert forall|k: int| 0 <= k < i && self.items().contains_key(ids@[k]) implies kept[k] by {
                    assert(before.dom().contains(ids@[k]));
                }
                assert(self.items().submap_of(old(self).items())) by {
                    assert forall|k: u64| #[trigger]
                        self.items().dom().contains(k) implies old(self).items().dom().contains(k)
                        && self.items()[k] == old(self).items()[k] by {
                        assert(before.dom().contains(k));
                        assert(before[k] == self.items()[k]);
                        assert(old(self).items().dom().contains(k));
                    }
                }
                assert(self.items().contains_key(id) ==> before.dom().contains(id));
                assert(before.contains_key(id) ==> old(self).items().dom().contains(id));
            }
            match found {
                Some(item) => {
                    out.push(item);
                    proof {
                        keep = kept.push(true);
                        assert(keep.drop_last() =~= kept);
                        assert(item_views(out@) =~= views.push(item@));
                    }
                },
                None => {
                    proof {
                        keep = kept.push(false);
                        assert(keep.drop_last() =~= kept);
                    }
                },
            }
            i += 1;
        }
        assert(ids@.take(i as int) =~= ids@);
        out
    }
}

} // verus!
