use election_snapshots::model::{Candidate, Contest, District};
use election_snapshots::party::PartyPreference;
use election_snapshots::query::{contests_by_ballot_title, find_contest, sort_candidates_desc};

fn candidate(name: &str, votes: u32, percentage: u32) -> Candidate {
    Candidate {
        name: name.to_string(),
        percentage,
        votes,
        party_preference: PartyPreference::NotAffiliated,
    }
}

fn contest(natural_id: u32, title: &str, district_name: &str) -> Contest {
    Contest {
        natural_id,
        ballot_title: title.to_string(),
        district: District {
            name: district_name.to_string(),
            percent_turnout: 5000,
            registered_voters: 1000,
            ballots_counted: 500,
            district_type: "City".to_string(),
            district_type_subheading: "".to_string(),
        },
        candidates: vec![candidate("A", 1, 10000)],
    }
}

#[test]
fn contests_group_by_ballot_title_in_first_seen_order() {
    let contests = vec![
        contest(1, "Council Position 1", "Seattle"),
        contest(2, "Mayor", "Kent"),
        contest(3, "Council Position 1", "Bellevue"),
        contest(4, "Mayor", "Renton"),
    ];
    let groups = contests_by_ballot_title(&contests);
    assert_eq!(groups.len(), 2);
    assert_eq!(groups[0].title, "Council Position 1");
    assert_eq!(groups[0].contests.len(), 2);
    assert_eq!(groups[0].contests[0].district.name, "Seattle");
    assert_eq!(groups[0].contests[1].district.name, "Bellevue");
    assert_eq!(groups[1].title, "Mayor");
    assert_eq!(groups[1].contests.len(), 2);
    assert_eq!(groups[1].contests[0].district.name, "Kent");
    assert_eq!(groups[1].contests[1].district.name, "Renton");
}

#[test]
fn grouping_an_empty_set_yields_no_groups() {
    let groups = contests_by_ballot_title(&Vec::new());
    assert_eq!(groups.len(), 0);
}

#[test]
fn find_contest_returns_the_match() {
    let contests = vec![contest(1, "Mayor", "Kent"), contest(2, "Mayor", "Renton")];
    let found = find_contest(&contests, 2).unwrap();
    assert_eq!(found.natural_id, 2);
    assert_eq!(found.district.name, "Renton");
}

#[test]
fn find_contest_reports_an_absent_id() {
    let contests = vec![contest(1, "Mayor", "Kent")];
    assert!(find_contest(&contests, 99).is_none());
}

#[test]
fn candidates_sort_by_descending_share() {
    let list = vec![
        candidate("Low", 100, 1000),
        candidate("High", 800, 8000),
        candidate("Mid", 100, 1000),
    ];
    let sorted = sort_candidates_desc(list);
    assert_eq!(sorted.len(), 3);
    assert_eq!(sorted[0].name, "High");
    assert_eq!(sorted[0].percentage, 8000);
    assert_eq!(sorted[1].percentage, 1000);
    assert_eq!(sorted[2].percentage, 1000);
    // The two tied candidates both survive the sort.
    let mut tied: Vec<&str> = sorted[1..].iter().map(|c| c.name.as_str()).collect();
    tied.sort();
    assert_eq!(tied, vec!["Low", "Mid"]);
}

#[test]
fn sorting_an_empty_list_is_empty() {
    let sorted = sort_candidates_desc(Vec::new());
    assert_eq!(sorted.len(), 0);
}
