use election_snapshots::model::RawRecord;
use election_snapshots::normalize::{normalize, IngestError};
use election_snapshots::party::PartyPreference;

fn record(contest_id: u32, name: &str, votes: u32, share: &str) -> RawRecord {
    RawRecord {
        contest_id,
        district_name: "King County".to_string(),
        district_type: "County".to_string(),
        district_type_subheading: "Countywide".to_string(),
        registered_voters: 100000,
        ballots_counted: 50000,
        percent_turnout: "50.0".to_string(),
        ballot_title: format!("Contest {}", contest_id),
        ballot_response: name.to_string(),
        party_preference: None,
        votes,
        percent_of_votes: share.to_string(),
    }
}

#[test]
fn records_group_by_contest_id() {
    let records = vec![
        record(100, "Alice", 600, "60.0"),
        record(100, "Bob", 400, "40.0"),
        record(200, "Carol", 10, "100.0"),
    ];
    let contests = normalize(&records).unwrap();
    assert_eq!(contests.len(), 2);
    assert_eq!(contests[0].natural_id, 100);
    assert_eq!(contests[0].candidates.len(), 2);
    assert_eq!(contests[0].candidates[0].name, "Alice");
    assert_eq!(contests[0].candidates[0].votes, 600);
    assert_eq!(contests[0].candidates[1].name, "Bob");
    assert_eq!(contests[1].natural_id, 200);
    assert_eq!(contests[1].candidates.len(), 1);
}

#[test]
fn first_record_fixes_the_district() {
    let mut second = record(100, "Bob", 400, "40.0");
    second.district_name = "Somewhere Else".to_string();
    second.percent_turnout = "10.0".to_string();
    let records = vec![record(100, "Alice", 600, "60.0"), second];
    let contests = normalize(&records).unwrap();
    assert_eq!(contests.len(), 1);
    assert_eq!(contests[0].district.name, "King County");
    assert_eq!(contests[0].district.percent_turnout, 5000);
}

#[test]
fn contests_keep_first_seen_order() {
    let records = vec![
        record(300, "A", 1, "100.0"),
        record(100, "B", 1, "100.0"),
        record(200, "C", 1, "100.0"),
        record(100, "D", 1, "100.0"),
    ];
    let contests = normalize(&records).unwrap();
    let ids: Vec<u32> = contests.iter().map(|c| c.natural_id).collect();
    assert_eq!(ids, vec![300, 100, 200]);
}

#[test]
fn quoted_percentages_coerce_during_normalization() {
    let records = vec![record(100, "Alice", 600, "\"60.5\"")];
    let contests = normalize(&records).unwrap();
    assert_eq!(contests[0].candidates[0].percentage, 6050);
}

#[test]
fn one_malformed_record_rejects_the_whole_batch() {
    let records = vec![
        record(100, "Alice", 600, "60.0"),
        record(100, "Bob", 400, "not a number"),
        record(200, "Carol", 10, "100.0"),
    ];
    assert!(matches!(
        normalize(&records),
        Err(IngestError::MalformedRecord(1))
    ));
}

#[test]
fn party_text_is_classified_during_normalization() {
    let mut rec = record(100, "Alice", 600, "60.0");
    rec.party_preference = Some("Prefers Democratic Party".to_string());
    let contests = normalize(&vec![rec]).unwrap();
    assert_eq!(
        contests[0].candidates[0].party_preference,
        PartyPreference::Democrat
    );
}

#[test]
fn empty_batch_normalizes_to_nothing() {
    let contests = normalize(&Vec::new()).unwrap();
    assert_eq!(contests.len(), 0);
}
