use election_snapshots::model::{Candidate, Contest, District};
use election_snapshots::party::PartyPreference;
use election_snapshots::store::{SnapshotStore, StoreError};

fn district(name: &str, turnout: u32) -> District {
    District {
        name: name.to_string(),
        percent_turnout: turnout,
        registered_voters: 100000,
        ballots_counted: 50000,
        district_type: "County".to_string(),
        district_type_subheading: "Countywide".to_string(),
    }
}

fn candidate(name: &str, votes: u32, percentage: u32) -> Candidate {
    Candidate {
        name: name.to_string(),
        percentage,
        votes,
        party_preference: PartyPreference::NotAffiliated,
    }
}

fn contest(natural_id: u32, district_name: &str, candidates: Vec<Candidate>) -> Contest {
    Contest {
        natural_id,
        ballot_title: format!("Contest {}", natural_id),
        district: district(district_name, 5000),
        candidates,
    }
}

#[test]
fn empty_store_has_no_latest() {
    let store = SnapshotStore::new();
    assert!(store.latest().is_none());
    assert!(store.latest_total_votes().is_none());
}

#[test]
fn a_write_reads_back_whole() {
    let mut store = SnapshotStore::new();
    let contests = vec![contest(
        100,
        "King County",
        vec![candidate("Alice", 600, 6000), candidate("Bob", 400, 4000)],
    )];
    let sid = store.write_snapshot(10, &contests, 1000, false).unwrap();
    assert_eq!(sid, 0);

    let view = store.latest().unwrap();
    assert_eq!(view.id, 0);
    assert_eq!(view.timestamp, 10);
    assert_eq!(view.total_votes, 1000);
    assert_eq!(view.contests.len(), 1);
    let c = &view.contests[0];
    assert_eq!(c.natural_id, 100);
    assert_eq!(c.ballot_title, "Contest 100");
    assert_eq!(c.district.name, "King County");
    assert_eq!(c.candidates.len(), 2);
    assert_eq!(c.candidates[0].name, "Alice");
    assert_eq!(c.candidates[0].votes, 600);
    assert_eq!(c.candidates[1].name, "Bob");
    assert_eq!(c.candidates[1].votes, 400);

    assert_eq!(store.latest_total_votes(), Some(1000));
}

#[test]
fn a_faulted_write_leaves_the_prior_snapshot_intact() {
    let mut store = SnapshotStore::new();
    let first = vec![contest(100, "King County", vec![candidate("Alice", 600, 6000)])];
    store.write_snapshot(10, &first, 600, false).unwrap();

    let second = vec![
        contest(100, "King County", vec![candidate("Alice", 700, 7000)]),
        contest(200, "Seattle", vec![candidate("Carol", 10, 10000)]),
    ];
    let r = store.write_snapshot(20, &second, 710, true);
    assert!(matches!(r, Err(StoreError::WriteFailed)));

    // The old snapshot is fully intact and nothing of the failed write shows.
    assert_eq!(store.snapshots.len(), 1);
    assert_eq!(store.latest_total_votes(), Some(600));
    let view = store.latest().unwrap();
    assert_eq!(view.contests.len(), 1);
    assert_eq!(view.contests[0].candidates.len(), 1);
    assert_eq!(view.contests[0].candidates[0].votes, 600);
}

#[test]
fn point_in_time_lookup_is_exact_match_only() {
    let mut store = SnapshotStore::new();
    let first = vec![contest(100, "King County", vec![candidate("Alice", 600, 6000)])];
    store.write_snapshot(10, &first, 600, false).unwrap();
    let second = vec![contest(100, "King County", vec![candidate("Alice", 750, 7500)])];
    store.write_snapshot(20, &second, 750, false).unwrap();

    let old = store.at(10).unwrap();
    assert_eq!(old.total_votes, 600);
    assert_eq!(old.contests[0].candidates[0].votes, 600);

    let new = store.at(20).unwrap();
    assert_eq!(new.total_votes, 750);
    assert_eq!(new.contests[0].candidates[0].votes, 750);

    // Not "as of or before": a timestamp between snapshots finds nothing.
    assert!(store.at(15).is_none());
    assert!(store.at(9).is_none());
    assert!(store.at(21).is_none());
}

#[test]
fn natural_id_correlates_across_snapshots() {
    let mut store = SnapshotStore::new();
    // Same contest, same natural id; its district attributes changed
    // between the two cycles.
    let first = vec![contest(100, "King County", vec![candidate("Alice", 600, 6000)])];
    store.write_snapshot(10, &first, 600, false).unwrap();
    let second = vec![contest(100, "King County (updated)", vec![candidate("Alice", 900, 9000)])];
    store.write_snapshot(20, &second, 900, false).unwrap();

    let then = store.at(10).unwrap();
    let now = store.latest().unwrap();
    let then_ids: Vec<u32> = then.contests.iter().map(|c| c.natural_id).collect();
    let now_ids: Vec<u32> = now.contests.iter().map(|c| c.natural_id).collect();
    assert_eq!(then_ids, vec![100]);
    assert_eq!(now_ids, vec![100]);
    assert_eq!(then.contests[0].district.name, "King County");
    assert_eq!(now.contests[0].district.name, "King County (updated)");
}

#[test]
fn districts_are_copied_per_snapshot() {
    let mut store = SnapshotStore::new();
    let contests = vec![contest(100, "King County", vec![candidate("Alice", 600, 6000)])];
    store.write_snapshot(10, &contests, 600, false).unwrap();
    store.write_snapshot(20, &contests, 601, false).unwrap();
    // Identical district data is stored again for the second snapshot.
    assert_eq!(store.districts.len(), 2);
    assert_eq!(store.districts[0].name, "King County");
    assert_eq!(store.districts[1].name, "King County");
}
