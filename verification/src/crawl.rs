use std::collections::HashSet;
use vstd::prelude::*;
use crate::store::DB;
use crate::types::{Item, ItemView};

verus! {

broadcast use vstd::std_specs::hash::group_hash_axioms;

/// Default bound on the number of fetches outstanding at one time.
pub const CONCURRENT_REQUESTS: usize = 100;

/// Why a fetch gave no item. The crawler treats both alike.
#[derive(Debug, Clone, Copy, PartialEq, Eq, Structural)]
pub enum FetchError {
    /// Connection, timeout or name resolution failed.
    Transport,
    /// The response did not have the shape of an item.
    Decode,
}

/// What the crawler did with the outcome of a fetch.
#[derive(Debug, Clone, Copy, PartialEq, Eq, Structural)]
pub enum Completion {
    /// The item went into the store and its children joined the frontier.
    Stored,
    /// The fetch had failed; the identifier is dropped and not retried.
    Failed,
    /// No fetch of that identifier was outstanding; nothing changed.
    Ignored,
}

/// The bookkeeping of one crawl: the frontier, the identifiers already
/// scheduled, and the fetches that are outstanding. The caller performs the
/// fetches: it takes identifiers from [`Crawler::next`] and hands each
/// outcome to [`Crawler::complete`].
pub struct Crawler {
    pending: Vec<u64>,
    seen: HashSet<u64>,
    in_flight: HashSet<u64>,
    limit: usize,
    seeds: Ghost<Seq<u64>>,
    launched: Ghost<Seq<u64>>,
    fetched: Ghost<Map<u64, ItemView>>,
    failed: Ghost<Set<u64>>,
}

/// `pending` without the already seen identifiers at its end, which the
/// crawler discards before it finds one to fetch.
pub open spec fn trim(pending: Seq<u64>, seen: Set<u64>) -> Seq<u64>
    decreases pending.len(),
{
    if pending.len() == 0 {
        pending
    } else if seen.contains(pending.last()) {
        trim(pending.drop_last(), seen)
    } else {
        pending
    }
}

/// `path` leads from a seed along child identifiers of fetched items: every
/// identifier on it but the last was fetched, and lists the next as a child.
pub open spec fn reachable(seeds: Seq<u64>, fetched: Map<u64, ItemView>, path: Seq<u64>) -> bool {
    &&& path.len() >= 1
    &&& seeds.contains(path[0])
    &&& forall|i: int|
        0 <= i < path.len() - 1 ==> fetched.contains_key(#[trigger] path[i])
            && fetched[path[i]].kids.contains(path[i + 1])
}

/// The set of a sequence grows by the element pushed.
proof fn lemma_push_to_set(s: Seq<u64>, x: u64)
    ensures
        s.push(x).to_set() =~= s.to_set().insert(x),
{
    assert forall|y: u64| s.push(x).to_set().contains(y) == s.to_set().insert(x).contains(y) by {
        if s.push(x).contains(y) {
            let i = choose|i: int| 0 <= i < s.push(x).len() && s.push(x)[i] == y;
            if i < s.len() {
                assert(s[i] == y);
            }
        }
        if s.contains(y) {
            let i = choose|i: int| 0 <= i < s.len() && s[i] == y;
            assert(s.push(x)[i] == y);
        }
        assert(s.push(x)[s.len() as int] == x);
    }
}

impl Crawler {
    /// The frontier: identifiers discovered and not yet taken up, the next
    /// one to be taken last.
    pub closed spec fn pending(&self) -> Seq<u64> {
        self.pending@
    }

    /// The identifiers scheduled for a fetch so far in this crawl.
    pub closed spec fn seen(&self) -> Set<u64> {
        self.seen@
    }

    /// The identifiers whose fetch is outstanding.
    pub closed spec fn outstanding(&self) -> Set<u64> {
        self.in_flight@
    }

    /// The bound on the number of outstanding fetches.
    pub closed spec fn limit(&self) -> nat {
        self.limit as nat
    }

    /// The identifiers the crawl started from.
    pub closed spec fn seeds(&self) -> Seq<u64> {
        self.seeds@
    }

    /// Every identifier handed out for fetching, in the order handed out.
    pub closed spec fn launched(&self) -> Seq<u64> {
        self.launched@
    }

    /// The items that fetches returned, by the identifier asked for.
    pub closed spec fn fetched(&self) -> Map<u64, ItemView> {
        self.fetched@
    }

    /// The identifiers whose fetch failed.
    pub closed spec fn failed(&self) -> Set<u64> {
        self.failed@
    }

    /// The crawl has nothing left to do.
    pub open spec fn done(&self) -> bool {
        self.pending().len() == 0 && self.outstanding().len() == 0
    }

    /// Every item a fetch returned is in the store under the identifier that
    /// was asked for.
    pub open spec fn all_stored(&self, db: &DB) -> bool {
        forall|id: u64| #[trigger]
            self.fetched().contains_key(id) ==> db.items().contains_key(id) && db.items()[id]
                == self.fetched()[id]
    }

    /// The crawl is at its start: the seeds are pending, and nothing was
    /// seen, handed out, fetched or failed yet.
    pub open spec fn starts_from(&self, seed_ids: Seq<u64>) -> bool {
        &&& self.wf()
        &&& self.seeds() == seed_ids
        &&& self.pending() == seed_ids
        &&& self.seen() == Set::<u64>::empty()
        &&& self.outstanding() == Set::<u64>::empty()
        &&& self.launched() == Seq::<u64>::empty()
        &&& self.fetched() == Map::<u64, ItemView>::empty()
        &&& self.failed() == Set::<u64>::empty()
    }

    /// The invariant of the bookkeeping.
    pub closed spec fn wf(&self) -> bool {
        &&& self.limit >= 1
        &&& self.in_flight@.finite()
        &&& self.in_flight@.len() <= self.limit
        &&& self.launched@.no_duplicates()
        &&& self.launched@.to_set() =~= self.seen@
        &&& self.seen@ =~= self.in_flight@ + self.fetched@.dom() + self.failed@
        &&& self.in_flight@.disjoint(self.fetched@.dom())
        &&& self.in_flight@.disjoint(self.failed@)
        &&& self.fetched@.dom().disjoint(self.failed@)
        &&& forall|i: int|
            0 <= i < self.seeds@.len() ==> self.seen@.contains(#[trigger] self.seeds@[i])
                || self.pending@.contains(self.seeds@[i])
        &&& forall|id: u64, j: int|
            self.fetched@.contains_key(id) && 0 <= j < self.fetched@[id].kids.len()
                ==> self.seen@.contains(#[trigger] self.fetched@[id].kids[j])
                || self.pending@.contains(self.fetched@[id].kids[j])
    }

    /// A crawl from `seed_ids` with the default bound on outstanding fetches.
    pub fn new(seed_ids: Vec<u64>) -> (c: Crawler)
        ensures
            c.starts_from(seed_ids@),
            c.limit() == CONCURRENT_REQUESTS,
    {
        Crawler::with_limit(seed_ids, CONCURRENT_REQUESTS)
    }

    /// A crawl from `seed_ids` with at most `limit` fetches outstanding at
    /// one time.
    pub fn with_limit(seed_ids: Vec<u64>, limit: usize) -> (c: Crawler)
        requires
            limit >= 1,
        ensures
            c.starts_from(seed_ids@),
            c.limit() == limit,
    {
        let ghost seeds = seed_ids@;
        let c = Crawler {
            pending: seed_ids,
            seen: HashSet::new(),
            in_flight: HashSet::new(),
            limit,
            seeds: Ghost(seeds),
            launched: Ghost(Seq::empty()),
            fetched: Ghost(Map::empty()),
            failed: Ghost(Set::empty()),
        };
        proof {
            assert(c.launched@.to_set() =~= Set::<u64>::empty());
            assert forall|i: int| 0 <= i < c.seeds@.len() implies c.pending@.contains(
                #[trigger] c.seeds@[i],
            ) by {
                assert(c.pending@[i] == c.seeds@[i]);
            }
        }
        c
    }

    /// The number of fetches that are outstanding.
    pub fn in_flight(&self) -> (n: usize)
        requires
            self.wf(),
        ensures
            n == self.outstanding().len(),
            n <= self.limit(),
    {
        self.in_flight.len()
    }

    /// Whether the crawl is over: the frontier is empty and no fetch is
    /// outstanding.
    pub fn is_done(&self) -> (b: bool)
        requires
            self.wf(),
        ensures
            b == self.done(),
    {
        self.pending.len() == 0 && self.in_flight.len() == 0
    }

    /// The next identifier to fetch, if a fetch may be launched now.
    ///
    /// Nothing is handed out while as many fetches are outstanding as the
    /// bound allows. Otherwise identifiers are taken from the end of the
    /// frontier; those already seen are discarded, and the first that was
    /// not seen is marked seen, counted as outstanding and returned. `None`
    /// with room to spare means the frontier is used up.
    pub fn next(&mut self) -> (r: Option<u64>)
        requires
            old(self).wf(),
        ensures
            final(self).wf(),
            final(self).limit() == old(self).limit(),
            final(self).seeds() == old(self).seeds(),
            final(self).fetched() == old(self).fetched(),
            final(self).failed() == old(self).failed(),
            old(self).outstanding().len() >= old(self).limit() ==> {
                &&& r is None
                &&& final(self).pending() == old(self).pending()
            },
            old(self).outstanding().len() < old(self).limit() ==> {
                let rest = trim(old(self).pending(), old(self).seen());
                if rest.len() == 0 {
                    r is None && final(self).pending() == Seq::<u64>::empty()
                } else {
                    r == Some(rest.last()) && final(self).pending() == rest.drop_last()
                }
            },
            r is None ==> {
                &&& final(self).seen() == old(self).seen()
                &&& final(self).outstanding() == old(self).outstanding()
                &&& final(self).launched() == old(self).launched()
            },
            r matches Some(id) ==> {
                &&& !old(self).seen().contains(id)
                &&& final(self).seen() == old(self).seen().insert(id)
                &&& final(self).outstanding() == old(self).outstanding().insert(id)
                &&& final(self).launched() == old(self).launched().push(id)
            },
    {
        if self.in_flight.len() >= self.limit {
            return None;
        }
        while self.pending.len() > 0
            invariant
                self.wf(),
                self.limit == old(self).limit,
                self.seeds == old(self).seeds,
                self.fetched == old(self).fetched,
                self.failed == old(self).failed,
                self.seen@ == old(self).seen@,
                self.in_flight@ == old(self).in_flight@,
                self.launched == old(self).launched,
                self.in_flight@.len() < self.limit,
                trim(self.pending@, self.seen@) == trim(old(self).pending@, old(self).seen@),
            decreases self.pending.len(),
        {
            let ghost before = self.pending@;
            let id = self.pending.pop().unwrap();
            assert(self.pending@ == before.drop_last());
            proof {
                self.lemma_pop_keeps_closure(before);
            }
            if self.seen.insert(id) {
                self.in_flight.insert(id);
                proof {
                    let ghost was = self.launched@;
                    self.launched = Ghost(was.push(id));
                    assert(!was.contains(id));
                    lemma_push_to_set(was, id);
                    assert(trim(before, old(self).seen@) == before);
                }
                return Some(id);
            }
        }
        proof {
            assert(trim(self.pending@, self.seen@) == self.pending@);
            assert(self.pending@ =~= Seq::<u64>::empty());
        }
        None
    }

    /// With the last identifier of `before` taken off the frontier, what the
    /// invariant asks to be seen or pending still is, as soon as that
    /// identifier counts as seen.
    proof fn lemma_pop_keeps_closure(&self, before: Seq<u64>)
        requires
            before.len() > 0,
            self.pending@ == before.drop_last(),
        ensures
            forall|x: u64|
                before.contains(x) ==> #[trigger] self.pending@.contains(x) || x == before.last(),
    {
        assert forall|x: u64| before.contains(x) implies #[trigger] self.pending@.contains(x) || x
            == before.last() by {
            let i = choose|i: int| 0 <= i < before.len() && before[i] == x;
            if i < before.len() - 1 {
                assert(self.pending@[i] == x);
            }
        }
    }

    /// Takes in the outcome of the fetch of `id`.
    ///
    /// An outcome for an identifier with no outstanding fetch is ignored.
    /// Otherwise the fetch is no longer outstanding. On success the item's
    /// children join the frontier and the item goes into the store under
    /// its own identifier; on failure nothing else changes, and the
    /// identifier stays seen, so it is not fetched again.
    pub fn complete(&mut self, db: &mut DB, id: u64, outcome: Result<Item, FetchError>) -> (r:
        Completion)
        requires
            old(self).wf(),
            old(db).wf(),
        ensures
            final(self).wf(),
            final(db).wf(),
            final(self).limit() == old(self).limit(),
            final(self).seeds() == old(self).seeds(),
            final(self).seen() == old(self).seen(),
            final(self).launched() == old(self).launched(),
            final(db).limit() == old(db).limit(),
            final(db).top_ids() == old(db).top_ids(),
            !old(self).outstanding().contains(id) ==> {
                &&& r == Completion::Ignored
                &&& final(self).outstanding() == old(self).outstanding()
            },
            old(self).outstanding().contains(id) ==> {
                &&& r != Completion::Ignored
                &&& final(self).outstanding() == old(self).outstanding().remove(id)
            },
            (r == Completion::Stored) == (old(self).outstanding().contains(id) && outcome is Ok),
            r == Completion::Stored ==> {
                let item = outcome->Ok_0;
                &&& final(self).pending() == old(self).pending() + item@.kids
                &&& final(self).fetched() == old(self).fetched().insert(id, item@)
                &&& final(self).failed() == old(self).failed()
                &&& final(db).items().submap_of(old(db).items().insert(item.id, item@))
                &&& old(db).limit() >= 1 ==> final(db).items().contains_key(item.id)
                &&& old(db).has_room_for(item.id) ==> final(db).items() == old(db).items().insert(
                    item.id,
                    item@,
                )
                &&& old(self).all_stored(old(db)) && old(db).has_room_for(item.id) && item.id == id
                    ==> final(self).all_stored(final(db))
            },
            r != Completion::Stored ==> {
                &&& final(self).pending() == old(self).pending()
                &&& final(self).fetched() == old(self).fetched()
                &&& final(db).items() == old(db).items()
            },
            r == Completion::Failed ==> final(self).failed() == old(self).failed().insert(id),
            r == Completion::Ignored ==> final(self).failed() == old(self).failed(),
    {
        if !self.in_flight.contains(&id) {
            return Completion::Ignored;
        }
        self.in_flight.remove(&id);
        match outcome {
            Ok(item) => {
                let ghost before = self.pending@;
                let mut i: usize = 0;
                while i < item.kids.len()
                    invariant
                        i <= item.kids.len(),
                        self.pending@ == before + item.kids@.subrange(0, i as int),
                        self.limit == old(self).limit,
                        self.seeds == old(self).seeds,
                        self.fetched == old(self).fetched,
                        self.failed == old(self).failed,
                        self.seen == old(self).seen,
                        self.launched == old(self).launched,
                        self.in_flight@ == old(self).in_flight@.remove(id),
                    decreases item.kids.len() - i,
                {
                    self.pending.push(item.kids[i]);
                    i += 1;
                    assert(self.pending@ =~= before + item.kids@.subrange(0, i as int));
                }
                assert(item.kids@.subrange(0, i as int) =~= item.kids@);
                proof {
                    let ghost iv = item@;
                    self.fetched = Ghost(old(self).fetched@.insert(id, iv));
                    assert forall|x: u64| before.contains(x) implies self.pending@.contains(
                        x,
                    ) by {
                        let k = choose|k: int| 0 <= k < before.len() && before[k] == x;
                        assert(self.pending@[k] == x);
                    }
                    assert forall|j: int| 0 <= j < iv.kids.len() implies self.pending@.contains(
                        #[trigger] iv.kids[j],
                    ) by {
                        assert(self.pending@[before.len() + j] == iv.kids[j]);
                    }
                    assert(old(self).seen@.contains(id));
                    assert forall|i: int| 0 <= i < self.seeds@.len() implies self.seen@.contains(
                        #[trigger] self.seeds@[i],
                    ) || self.pending@.contains(self.seeds@[i]) by {
                        assert(old(self).seen@.contains(old(self).seeds@[i])
                            || before.contains(old(self).seeds@[i]));
                    }
                    assert forall|id2: u64, j: int|
                        self.fetched@.contains_key(id2) && 0 <= j < self.fetched@[id2].kids.len()
                        implies self.seen@.contains(#[trigger] self.fetched@[id2].kids[j])
                        || self.pending@.contains(self.fetched@[id2].kids[j]) by {
                        if id2 == id {
                            assert(self.fetched@[id2] == iv);
                        } else {
                            assert(old(self).fetched@.contains_key(id2));
                            let kid = old(self).fetched@[id2].kids[j];
                            assert(old(self).seen@.contains(kid) || before.contains(kid));
                        }
                    }
                }
                let ghost key = item.id;
                let ghost iv = item@;
                db.insert(item.id, item);
                proof {
                    if old(self).all_stored(old(db)) && old(db).has_room_for(key) && key == id {
                        assert forall|id2: u64| #[trigger]
                            self.fetched().contains_key(id2) implies db.items().contains_key(id2)
                            && db.items()[id2] == self.fetched()[id2] by {
                            if id2 != id {
                                assert(old(self).fetched().contains_key(id2));
                            }
                        }
                    }
                }
                Completion::Stored
            },
            Err(_) => {
                proof {
                    self.failed = Ghost(old(self).failed@.insert(id));
                }
                Completion::Failed
            },
        }
    }

    /// No identifier is handed out for fetching twice in one crawl: the
    /// identifiers handed out so far are distinct, and they are the seen ones.
    pub proof fn lemma_fetched_at_most_once(&self)
        requires
            self.wf(),
        ensures
            self.launched().no_duplicates(),
            self.launched().to_set() == self.seen(),
    {
    }

    /// At no time are more fetches outstanding than the bound allows, and
    /// every outstanding fetch is of an identifier handed out before.
    pub proof fn lemma_outstanding_bounded(&self)
        requires
            self.wf(),
        ensures
            self.limit() >= 1,
            self.outstanding().finite(),
            self.outstanding().len() <= self.limit(),
            self.outstanding().subset_of(self.seen()),
    {
    }

    /// Every seen identifier is outstanding, fetched or failed, and is only
    /// one of the three.
    pub proof fn lemma_seen_accounted_for(&self)
        requires
            self.wf(),
        ensures
            self.seen() == self.outstanding() + self.fetched().dom() + self.failed(),
            self.outstanding().disjoint(self.fetched().dom()),
            self.outstanding().disjoint(self.failed()),
            self.fetched().dom().disjoint(self.failed()),
    {
    }

    /// On a path from a seed, with nothing pending, every identifier up to
    /// position `k` is seen.
    proof fn lemma_path_seen(&self, path: Seq<u64>, k: int)
        requires
            self.wf(),
            self.pending().len() == 0,
            reachable(self.seeds(), self.fetched(), path),
            0 <= k < path.len(),
        ensures
            self.seen().contains(path[k]),
        decreases k,
    {
        if k == 0 {
            let i = choose|i: int| 0 <= i < self.seeds@.len() && self.seeds@[i] == path[0];
            assert(self.seen@.contains(self.seeds@[i]) || self.pending@.contains(self.seeds@[i]));
        } else {
            self.lemma_path_seen(path, k - 1);
            let parent = path[k - 1];
            assert(self.fetched@.contains_key(parent));
            let kids = self.fetched@[parent].kids;
            let j = choose|j: int| 0 <= j < kids.len() && kids[j] == path[k];
            assert(self.seen@.contains(self.fetched@[parent].kids[j]) || self.pending@.contains(
                self.fetched@[parent].kids[j],
            ));
        }
    }

    /// When a crawl is over, every identifier that can be reached from a
    /// seed along the children of fetched items was itself attempted: its
    /// fetch returned an item or failed.
    pub proof fn lemma_frontier_exhausted(&self, path: Seq<u64>)
        requires
            self.wf(),
            self.done(),
            reachable(self.seeds(), self.fetched(), path),
        ensures
            self.fetched().contains_key(path.last()) || self.failed().contains(path.last()),
    {
        self.lemma_path_seen(path, path.len() - 1);
        assert(self.in_flight@.len() == 0);
        assert(self.in_flight@ =~= Set::<u64>::empty());
    }

    /// When a crawl is over and the store kept every item the crawl put in
    /// under the identifier asked for, every identifier that can be reached
    /// from a seed along the children of fetched items is in the store,
    /// unless its own fetch failed.
    pub proof fn lemma_reachable_is_stored(&self, db: &DB, path: Seq<u64>)
        requires
            self.wf(),
            self.done(),
            self.all_stored(db),
            reachable(self.seeds(), self.fetched(), path),
        ensures
            db.items().contains_key(path.last()) || self.failed().contains(path.last()),
    {
        self.lemma_frontier_exhausted(path);
    }

    /// A crawl at its start with a seed to its name hands out the last seed
    /// first: the first call of [`Crawler::next`] returns it.
    pub proof fn lemma_first_fetch(&self, seed_ids: Seq<u64>)
        requires
            self.starts_from(seed_ids),
            seed_ids.len() > 0,
        ensures
            self.outstanding().len() < self.limit(),
            trim(self.pending(), self.seen()) == seed_ids,
    {
    }
}

} // verus!
