use election_snapshots::cycle::{run_cycle, CycleOutcome};
use election_snapshots::model::RawRecord;
use election_snapshots::percent::percent_of;
use election_snapshots::store::SnapshotStore;

fn record(contest_id: u32, name: &str, votes: u32, share: &str) -> RawRecord {
    RawRecord {
        contest_id,
        district_name: "King County".to_string(),
        district_type: "County".to_string(),
        district_type_subheading: "Countywide".to_string(),
        registered_voters: 100000,
        ballots_counted: 50000,
        percent_turnout: "50.0".to_string(),
        ballot_title: format!("Contest {}", contest_id),
        ballot_response: name.to_string(),
        party_preference: None,
        votes,
        percent_of_votes: share.to_string(),
    }
}

fn batch() -> Vec<RawRecord> {
    vec![
        record(100, "Alice", 600, "60.0"),
        record(100, "Bob", 400, "40.0"),
    ]
}

#[test]
fn identical_second_cycle_writes_nothing() {
    let mut store = SnapshotStore::new();
    let r1 = run_cycle(&mut store, &batch(), 10, false);
    assert_eq!(r1, CycleOutcome::Updated(0));
    assert_eq!(store.snapshots.len(), 1);

    // Byte-identical source data on the next tick: zero writes.
    let r2 = run_cycle(&mut store, &batch(), 20, false);
    assert_eq!(r2, CycleOutcome::Unchanged);
    assert_eq!(store.snapshots.len(), 1);
    assert_eq!(store.latest_total_votes(), Some(1000));
}

#[test]
fn a_changed_vote_count_triggers_a_new_snapshot() {
    let mut store = SnapshotStore::new();
    run_cycle(&mut store, &batch(), 10, false);

    let mut changed = batch();
    changed[1].votes = 401;
    let r = run_cycle(&mut store, &changed, 20, false);
    assert_eq!(r, CycleOutcome::Updated(1));
    assert_eq!(store.snapshots.len(), 2);
    assert_eq!(store.latest_total_votes(), Some(1001));
}

#[test]
fn a_malformed_batch_abandons_the_cycle() {
    let mut store = SnapshotStore::new();
    run_cycle(&mut store, &batch(), 10, false);

    let mut bad = batch();
    bad[1].votes = 999;
    bad[0].percent_of_votes = "sixty".to_string();
    let r = run_cycle(&mut store, &bad, 20, false);
    assert_eq!(r, CycleOutcome::MalformedBatch(0));
    assert_eq!(store.snapshots.len(), 1);
    assert_eq!(store.latest_total_votes(), Some(1000));
}

#[test]
fn a_storage_fault_abandons_the_cycle() {
    let mut store = SnapshotStore::new();
    run_cycle(&mut store, &batch(), 10, false);

    let mut changed = batch();
    changed[0].votes = 700;
    let r = run_cycle(&mut store, &changed, 20, true);
    assert_eq!(r, CycleOutcome::WriteFailed);
    assert_eq!(store.snapshots.len(), 1);
    assert_eq!(store.latest_total_votes(), Some(1000));
    // The prior snapshot still reads back complete.
    let view = store.latest().unwrap();
    assert_eq!(view.contests[0].candidates[0].votes, 600);
}

#[test]
fn end_to_end_ingest_and_read() {
    let mut store = SnapshotStore::new();
    let r = run_cycle(&mut store, &batch(), 10, false);
    assert_eq!(r, CycleOutcome::Updated(0));

    let view = store.latest().unwrap();
    assert_eq!(view.total_votes, 1000);
    assert_eq!(view.contests.len(), 1);
    let c = &view.contests[0];
    assert_eq!(c.natural_id, 100);
    assert_eq!(c.candidates.len(), 2);

    // Percentages computed downstream from the stored counts.
    let alice = percent_of(c.candidates[0].votes, view.total_votes);
    let bob = percent_of(c.candidates[1].votes, view.total_votes);
    assert_eq!(format!("{}.{:02}", alice / 100, alice % 100), "60.00");
    assert_eq!(format!("{}.{:02}", bob / 100, bob % 100), "40.00");
}

#[test]
fn empty_store_always_counts_as_changed() {
    let mut store = SnapshotStore::new();
    let r = run_cycle(&mut store, &batch(), 10, false);
    assert_eq!(r, CycleOutcome::Updated(0));
    assert_eq!(store.snapshots.len(), 1);
}
