use election_snapshots::party::PartyPreference;

#[test]
fn democratic_party_text_classifies_as_democrat() {
    assert_eq!(
        PartyPreference::classify("Prefers Democratic Party"),
        PartyPreference::Democrat
    );
}

#[test]
fn republican_party_text_classifies_as_republican() {
    assert_eq!(
        PartyPreference::classify("Prefers Republican Party"),
        PartyPreference::Republican
    );
}

#[test]
fn unrecognized_text_is_not_affiliated() {
    assert_eq!(
        PartyPreference::classify("(States No Party Preference)"),
        PartyPreference::NotAffiliated
    );
    assert_eq!(PartyPreference::classify(""), PartyPreference::NotAffiliated);
}

#[test]
fn absent_field_is_not_affiliated() {
    assert_eq!(
        PartyPreference::classify_opt(&None),
        PartyPreference::NotAffiliated
    );
}

#[test]
fn present_field_classifies_like_its_text() {
    assert_eq!(
        PartyPreference::classify_opt(&Some("Prefers Democratic Party".to_string())),
        PartyPreference::Democrat
    );
}

#[test]
fn matching_ignores_ascii_case() {
    assert_eq!(
        PartyPreference::classify("PREFERS DEMOCRATIC PARTY"),
        PartyPreference::Democrat
    );
    assert_eq!(
        PartyPreference::classify("prefers republican party"),
        PartyPreference::Republican
    );
}

#[test]
fn democrat_takes_precedence_when_both_occur() {
    assert_eq!(
        PartyPreference::classify("republican democrat"),
        PartyPreference::Democrat
    );
}
