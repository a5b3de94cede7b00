use election_snapshots::cache::{cached_latest, LatestCache};
use election_snapshots::cycle::run_cycle;
use election_snapshots::model::RawRecord;
use election_snapshots::store::SnapshotStore;

fn record(contest_id: u32, name: &str, votes: u32) -> RawRecord {
    RawRecord {
        contest_id,
        district_name: "King County".to_string(),
        district_type: "County".to_string(),
        district_type_subheading: "Countywide".to_string(),
        registered_voters: 100000,
        ballots_counted: 50000,
        percent_turnout: "50.0".to_string(),
        ballot_title: format!("Contest {}", contest_id),
        ballot_response: name.to_string(),
        party_preference: None,
        votes,
        percent_of_votes: "100.0".to_string(),
    }
}

#[test]
fn empty_store_yields_nothing_and_caches_nothing() {
    let store = SnapshotStore::new();
    let mut cache = LatestCache::new(30);
    assert!(cached_latest(&mut cache, &store, 100).is_none());
    assert!(cache.entry.is_none());
}

#[test]
fn a_miss_reads_through_and_fills_the_cache() {
    let mut store = SnapshotStore::new();
    run_cycle(&mut store, &vec![record(100, "Alice", 600)], 10, false);
    let mut cache = LatestCache::new(30);

    let view = cached_latest(&mut cache, &store, 100).unwrap();
    assert_eq!(view.total_votes, 600);
    let entry = cache.entry.as_ref().unwrap();
    assert_eq!(entry.stored_at, 100);
    assert_eq!(entry.view.total_votes, 600);
}

#[test]
fn a_fresh_entry_answers_without_the_store_and_may_be_stale() {
    let mut store = SnapshotStore::new();
    run_cycle(&mut store, &vec![record(100, "Alice", 600)], 10, false);
    let mut cache = LatestCache::new(30);
    cached_latest(&mut cache, &store, 100).unwrap();

    // A new snapshot lands; within the TTL the cache still serves the
    // old tree — staleness is bounded by TTL expiry, not by writes.
    run_cycle(&mut store, &vec![record(100, "Alice", 900)], 20, false);
    let within_ttl = cached_latest(&mut cache, &store, 120).unwrap();
    assert_eq!(within_ttl.total_votes, 600);
    assert_eq!(cache.entry.as_ref().unwrap().stored_at, 100);
}

#[test]
fn an_expired_entry_is_refreshed_from_the_store() {
    let mut store = SnapshotStore::new();
    run_cycle(&mut store, &vec![record(100, "Alice", 600)], 10, false);
    let mut cache = LatestCache::new(30);
    cached_latest(&mut cache, &store, 100).unwrap();

    run_cycle(&mut store, &vec![record(100, "Alice", 900)], 20, false);
    let after_ttl = cached_latest(&mut cache, &store, 131).unwrap();
    assert_eq!(after_ttl.total_votes, 900);
    assert_eq!(cache.entry.as_ref().unwrap().stored_at, 131);
    assert_eq!(cache.entry.as_ref().unwrap().view.total_votes, 900);
}

#[test]
fn the_boundary_read_is_still_fresh() {
    let mut store = SnapshotStore::new();
    run_cycle(&mut store, &vec![record(100, "Alice", 600)], 10, false);
    let mut cache = LatestCache::new(30);
    cached_latest(&mut cache, &store, 100).unwrap();

    run_cycle(&mut store, &vec![record(100, "Alice", 900)], 20, false);
    // Exactly at the TTL bound the entry has not yet exceeded it.
    let at_bound = cached_latest(&mut cache, &store, 130).unwrap();
    assert_eq!(at_bound.total_votes, 600);
}

#[test]
fn invalidate_forces_the_next_read_through() {
    let mut store = SnapshotStore::new();
    run_cycle(&mut store, &vec![record(100, "Alice", 600)], 10, false);
    let mut cache = LatestCache::new(30);
    cached_latest(&mut cache, &store, 100).unwrap();

    run_cycle(&mut store, &vec![record(100, "Alice", 900)], 20, false);
    cache.invalidate();
    let view = cached_latest(&mut cache, &store, 101).unwrap();
    assert_eq!(view.total_votes, 900);
}
