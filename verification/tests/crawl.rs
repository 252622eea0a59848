use rhxn::crawl::{Completion, Crawler, FetchError, CONCURRENT_REQUESTS};
use rhxn::store::DB;
use rhxn::types::Item;
use std::collections::HashMap;

fn item(id: u64, kids: Vec<u64>) -> Item {
    Item {
        id,
        item_type: None,
        deleted: false,
        by: None,
        time: None,
        text: None,
        dead: false,
        parent: None,
        poll: None,
        kids,
        url: None,
        score: 0,
        title: None,
        parts: Vec::new(),
        descendants: 0,
    }
}

/// Runs a crawl against a remote that knows `remote` and fails on anything
/// else, completing the oldest outstanding fetch first. Returns the
/// identifiers in the order fetched and the largest number of fetches that
/// were outstanding at one time.
fn crawl(db: &mut DB, seeds: Vec<u64>, limit: usize, remote: &HashMap<u64, Vec<u64>>) -> (Vec<u64>, usize) {
    let mut c = Crawler::with_limit(seeds, limit);
    let mut flying: Vec<u64> = Vec::new();
    let mut fetched: Vec<u64> = Vec::new();
    let mut most = 0;
    loop {
        while let Some(id) = c.next() {
            fetched.push(id);
            flying.push(id);
        }
        assert_eq!(c.in_flight(), flying.len());
        assert!(c.in_flight() <= limit);
        most = most.max(c.in_flight());
        if c.is_done() {
            break;
        }
        let id = flying.remove(0);
        let outcome = match remote.get(&id) {
            Some(kids) => Ok(item(id, kids.clone())),
            None => Err(FetchError::Transport),
        };
        let expected = if outcome.is_ok() { Completion::Stored } else { Completion::Failed };
        assert_eq!(c.complete(db, id, outcome), expected);
    }
    (fetched, most)
}

fn count(ids: &[u64], id: u64) -> usize {
    ids.iter().filter(|x| **x == id).count()
}

#[test]
fn shared_child_is_fetched_once() {
    let mut remote = HashMap::new();
    remote.insert(1, vec![2, 3]);
    remote.insert(2, vec![3]);
    remote.insert(3, vec![]);
    let mut db = DB::new();
    let (fetched, _) = crawl(&mut db, vec![1], CONCURRENT_REQUESTS, &remote);
    assert_eq!(fetched.len(), 3);
    assert_eq!(count(&fetched, 1), 1);
    assert_eq!(count(&fetched, 2), 1);
    assert_eq!(count(&fetched, 3), 1);
    assert_eq!(db.get(1).map(|i| i.kids), Some(vec![2, 3]));
    assert_eq!(db.get(2).map(|i| i.kids), Some(vec![3]));
    assert_eq!(db.get(3).map(|i| i.kids), Some(vec![]));
    assert!(db.get(4).is_none());
    assert!(db.get(0).is_none());
}

#[test]
fn failed_fetch_leaves_store_empty() {
    let remote = HashMap::new();
    let mut db = DB::new();
    let (fetched, _) = crawl(&mut db, vec![5], CONCURRENT_REQUESTS, &remote);
    assert_eq!(fetched, vec![5]);
    assert!(db.get(5).is_none());
}

#[test]
fn failed_fetch_step_by_step() {
    let mut db = DB::with_capacity(10);
    let mut c = Crawler::new(vec![5]);
    assert!(!c.is_done());
    assert_eq!(c.next(), Some(5));
    assert_eq!(c.in_flight(), 1);
    assert_eq!(c.next(), None);
    assert!(!c.is_done());
    assert_eq!(c.complete(&mut db, 5, Err(FetchError::Decode)), Completion::Failed);
    assert_eq!(c.in_flight(), 0);
    assert_eq!(c.next(), None);
    assert!(c.is_done());
    assert!(db.get(5).is_none());
}

#[test]
fn two_parents_share_one_child() {
    let mut remote = HashMap::new();
    remote.insert(10, vec![30]);
    remote.insert(20, vec![30]);
    remote.insert(30, vec![]);
    let mut db = DB::new();
    let (fetched, _) = crawl(&mut db, vec![10, 20], 1, &remote);
    assert_eq!(count(&fetched, 30), 1);
    assert_eq!(fetched.len(), 3);
    assert!(db.get(30).is_some());
}

#[test]
fn repeated_seed_is_fetched_once() {
    let mut remote = HashMap::new();
    remote.insert(7, vec![]);
    let mut db = DB::new();
    let (fetched, _) = crawl(&mut db, vec![7, 7, 7], 4, &remote);
    assert_eq!(fetched, vec![7]);
}

#[test]
fn cycles_end() {
    let mut remote = HashMap::new();
    remote.insert(1, vec![1, 2]);
    remote.insert(2, vec![1]);
    let mut db = DB::new();
    let (fetched, _) = crawl(&mut db, vec![1], 3, &remote);
    assert_eq!(fetched.len(), 2);
    assert_eq!(count(&fetched, 1), 1);
    assert_eq!(count(&fetched, 2), 1);
}

#[test]
fn outstanding_fetches_stay_within_the_limit() {
    let mut remote = HashMap::new();
    remote.insert(0, (1..=50).collect::<Vec<u64>>());
    for id in 1..=50u64 {
        remote.insert(id, vec![100 + id, 200 + id]);
    }
    let mut db = DB::new();
    let (fetched, most) = crawl(&mut db, vec![0], 4, &remote);
    assert_eq!(most, 4);
    assert_eq!(fetched.len(), 151);
    for id in 0..=50u64 {
        assert!(db.get(id).is_some());
    }
    assert!(db.get(101).is_none());
}

#[test]
fn next_stops_at_the_limit() {
    let mut c = Crawler::with_limit(vec![1, 2, 3], 2);
    assert_eq!(c.next(), Some(3));
    assert_eq!(c.next(), Some(2));
    assert_eq!(c.next(), None);
    assert_eq!(c.in_flight(), 2);
    let mut db = DB::new();
    assert_eq!(c.complete(&mut db, 2, Ok(item(2, vec![]))), Completion::Stored);
    assert_eq!(c.next(), Some(1));
    assert_eq!(c.next(), None);
}

#[test]
fn frontier_is_taken_from_its_end() {
    let mut c = Crawler::new(vec![1, 2, 3]);
    assert_eq!(c.next(), Some(3));
    let mut db = DB::new();
    assert_eq!(c.complete(&mut db, 3, Ok(item(3, vec![8, 9]))), Completion::Stored);
    assert_eq!(c.next(), Some(9));
    assert_eq!(c.next(), Some(8));
    assert_eq!(c.next(), Some(2));
    assert_eq!(c.next(), Some(1));
    assert_eq!(c.next(), None);
}

#[test]
fn outcome_without_outstanding_fetch_is_ignored() {
    let mut db = DB::new();
    let mut c = Crawler::new(vec![1]);
    assert_eq!(c.complete(&mut db, 1, Ok(item(1, vec![2]))), Completion::Ignored);
    assert!(db.get(1).is_none());
    assert_eq!(c.next(), Some(1));
    assert_eq!(c.complete(&mut db, 9, Ok(item(9, vec![]))), Completion::Ignored);
    assert!(db.get(9).is_none());
    assert_eq!(c.complete(&mut db, 1, Ok(item(1, vec![2]))), Completion::Stored);
    assert_eq!(c.complete(&mut db, 1, Ok(item(1, vec![2]))), Completion::Ignored);
    assert_eq!(c.next(), Some(2));
}

#[test]
fn failed_identifier_is_not_retried() {
    let mut db = DB::new();
    let mut c = Crawler::new(vec![1]);
    assert_eq!(c.next(), Some(1));
    assert_eq!(c.complete(&mut db, 1, Ok(item(1, vec![4, 5]))), Completion::Stored);
    assert_eq!(c.next(), Some(5));
    assert_eq!(c.complete(&mut db, 5, Err(FetchError::Transport)), Completion::Failed);
    assert_eq!(c.next(), Some(4));
    assert_eq!(c.complete(&mut db, 4, Ok(item(4, vec![5]))), Completion::Stored);
    assert_eq!(c.next(), None);
    assert!(c.is_done());
    assert!(db.get(5).is_none());
}

#[test]
fn item_is_stored_under_its_own_identifier() {
    let mut db = DB::new();
    let mut c = Crawler::new(vec![1]);
    assert_eq!(c.next(), Some(1));
    assert_eq!(c.complete(&mut db, 1, Ok(item(77, vec![]))), Completion::Stored);
    assert!(db.get(1).is_none());
    assert_eq!(db.get(77).map(|i| i.id), Some(77));
}

#[test]
fn default_limit_is_one_hundred() {
    assert_eq!(CONCURRENT_REQUESTS, 100);
    let mut c = Crawler::new((0..150).collect());
    let mut n = 0;
    while c.next().is_some() {
        n += 1;
    }
    assert_eq!(n, 100);
    assert_eq!(c.in_flight(), 100);
}
