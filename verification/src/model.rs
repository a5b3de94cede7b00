//! The domain model.
//!
//! A flat source record carries one candidate's result together with the
//! contest and district attributes it was published under. Normalization
//! groups the flat records into a District -> Contest -> Candidate tree.
//! Contracts speak about these types through their deep views, in which
//! every string is a `Seq<char>` and every vector a `Seq`.
//!
//! Percentages are fixed-point hundredths (see `percent`); timestamps are
//! non-negative integers supplied by the caller's clock.

use crate::party::PartyPreference;
use vstd::prelude::*;

verus! {

/// One flat row of the published tabular results: the ingestion input.
///
/// The two percentage fields stay raw here — they may be quoted or padded
/// and are coerced during normalization; a field that does not coerce
/// invalidates the whole batch.
pub struct RawRecord {
    /// Externally assigned contest identifier, stable across snapshots.
    pub contest_id: u32,
    pub district_name: String,
    pub district_type: String,
    pub district_type_subheading: String,
    pub registered_voters: u32,
    pub ballots_counted: u32,
    /// Raw percent-turnout field, still uncoerced.
    pub percent_turnout: String,
    pub ballot_title: String,
    /// The candidate or ballot-response name this row reports on.
    pub ballot_response: String,
    /// Free-text party preference, absent for nonpartisan contests.
    pub party_preference: Option<String>,
    pub votes: u32,
    /// Raw percent-of-votes field, still uncoerced.
    pub percent_of_votes: String,
}

/// A district's attributes, denormalized into every snapshot.
pub struct District {
    pub name: String,
    /// Turnout in hundredths of a percent.
    pub percent_turnout: u32,
    pub registered_voters: u32,
    pub ballots_counted: u32,
    pub district_type: String,
    pub district_type_subheading: String,
}

/// One candidate's result within a contest.
pub struct Candidate {
    pub name: String,
    /// Vote share in hundredths of a percent.
    pub percentage: u32,
    pub votes: u32,
    pub party_preference: PartyPreference,
}

/// One contest: a stable natural id, the district it was seen under first,
/// and its candidates in first-seen order.
pub struct Contest {
    pub natural_id: u32,
    pub ballot_title: String,
    pub district: District,
    pub candidates: Vec<Candidate>,
}

/// Deep view of `RawRecord`.
#[verifier::ext_equal]
pub struct RawRecordView {
    pub contest_id: u32,
    pub district_name: Seq<char>,
    pub district_type: Seq<char>,
    pub district_type_subheading: Seq<char>,
    pub registered_voters: u32,
    pub ballots_counted: u32,
    pub percent_turnout: Seq<char>,
    pub ballot_title: Seq<char>,
    pub ballot_response: Seq<char>,
    pub party_preference: Option<Seq<char>>,
    pub votes: u32,
    pub percent_of_votes: Seq<char>,
}

/// Deep view of `District`.
#[verifier::ext_equal]
pub struct DistrictView {
    pub name: Seq<char>,
    pub percent_turnout: u32,
    pub registered_voters: u32,
    pub ballots_counted: u32,
    pub district_type: Seq<char>,
    pub district_type_subheading: Seq<char>,
}

/// Deep view of `Candidate`.
#[verifier::ext_equal]
pub struct CandidateView {
    pub name: Seq<char>,
    pub percentage: u32,
    pub votes: u32,
    pub party_preference: PartyPreference,
}

/// Deep view of `Contest`.
#[verifier::ext_equal]
pub struct ContestView {
    pub natural_id: u32,
    pub ballot_title: Seq<char>,
    pub district: DistrictView,
    pub candidates: Seq<CandidateView>,
}

impl DeepView for RawRecord {
    type V = RawRecordView;

    open spec fn deep_view(&self) -> RawRecordView {
        RawRecordView {
            contest_id: self.contest_id,
            district_name: self.district_name@,
            district_type: self.district_type@,
            district_type_subheading: self.district_type_subheading@,
            registered_voters: self.registered_voters,
            ballots_counted: self.ballots_counted,
            percent_turnout: self.percent_turnout@,
            ballot_title: self.ballot_title@,
            ballot_response: self.ballot_response@,
            party_preference: self.party_preference.deep_view(),
            votes: self.votes,
            percent_of_votes: self.percent_of_votes@,
        }
    }
}

impl DeepView for District {
    type V = DistrictView;

    open spec fn deep_view(&self) -> DistrictView {
        DistrictView {
            name: self.name@,
            percent_turnout: self.percent_turnout,
            registered_voters: self.registered_voters,
            ballots_counted: self.ballots_counted,
            district_type: self.district_type@,
            district_type_subheading: self.district_type_subheading@,
        }
    }
}

impl DeepView for Candidate {
    type V = CandidateView;

    open spec fn deep_view(&self) -> CandidateView {
        CandidateView {
            name: self.name@,
            percentage: self.percentage,
            votes: self.votes,
            party_preference: self.party_preference,
        }
    }
}

impl DeepView for Contest {
    type V = ContestView;

    open spec fn deep_view(&self) -> ContestView {
        ContestView {
            natural_id: self.natural_id,
            ballot_title: self.ballot_title@,
            district: self.district.deep_view(),
            candidates: self.candidates.deep_view(),
        }
    }
}

impl District {
    /// A field-for-field copy.
    pub fn duplicate(&self) -> (r: District)
        ensures
            r.deep_view() == self.deep_view(),
    {
        District {
            name: self.name.clone(),
            percent_turnout: self.percent_turnout,
            registered_voters: self.registered_voters,
            ballots_counted: self.ballots_counted,
            district_type: self.district_type.clone(),
            district_type_subheading: self.district_type_subheading.clone(),
        }
    }
}

impl Candidate {
    /// A field-for-field copy.
    pub fn duplicate(&self) -> (r: Candidate)
        ensures
            r.deep_view() == self.deep_view(),
    {
        Candidate {
            name: self.name.clone(),
            percentage: self.percentage,
            votes: self.votes,
            party_preference: self.party_preference,
        }
    }
}

impl Contest {
    /// A field-for-field copy of the whole tree.
    pub fn duplicate(&self) -> (r: Contest)
        ensures
            r.deep_view() == self.deep_view(),
    {
        let mut candidates: Vec<Candidate> = Vec::new();
        let mut i: usize = 0;
        while i < self.candidates.len()
            invariant
                0 <= i <= self.candidates.len(),
                candidates.len() == i,
                forall|k: int| 0 <= k < i ==> candidates.deep_view()[k]
                    == self.candidates.deep_view()[k],
            decreases self.candidates.len() - i,
        {
            let c = self.candidates[i].duplicate();
            let ghost prev = candidates;
            candidates.push(c);
            proof {
                assert forall|k: int| 0 <= k < i + 1 implies candidates.deep_view()[k]
                    == self.candidates.deep_view()[k] by {
                    if k < i {
                        assert(candidates@[k] == prev@[k]);
                        assert(prev.deep_view()[k] == self.candidates.deep_view()[k]);
                    } else {
                        assert(candidates@[k] == c);
                    }
                }
            }
            i = i + 1;
        }
        proof {
            assert(candidates.deep_view() =~= self.candidates.deep_view());
        }
        let r = Contest {
            natural_id: self.natural_id,
            ballot_title: self.ballot_title.clone(),
            district: self.district.duplicate(),
            candidates,
        };
        proof {
            assert(r.deep_view() =~= self.deep_view());
        }
        r
    }
}

} // verus!
