//! Normalization of flat source records into contest trees.
//!
//! Each flat record carries one candidate's result. Grouping is by the
//! externally assigned contest id, in first-seen order; a contest's
//! district attributes are taken from the *first* record seen for that id
//! and later records never overwrite them, even if they differ. For a
//! fixed input ordering the output is fully reproducible.
//!
//! Parsing policy is fail-fast: one malformed record (a percentage field
//! that does not coerce) invalidates the whole batch.

use crate::model::{
    Candidate, CandidateView, Contest, ContestView, District, DistrictView, RawRecord,
    RawRecordView,
};
use crate::party::{spec_classify_opt, PartyPreference};
use crate::percent::{parse_percent, spec_parse_percent};
use vstd::prelude::*;

verus! {

/// An ingestion error: the whole batch is rejected.
#[derive(Clone, Copy, Debug, PartialEq, Eq, Structural)]
pub enum IngestError {
    /// The record at this index has a percentage field that does not
    /// coerce to a number.
    MalformedRecord(usize),
}

/// Both percentage fields of the record coerce.
pub open spec fn record_ok(r: RawRecordView) -> bool {
    &&& spec_parse_percent(r.percent_turnout) is Some
    &&& spec_parse_percent(r.percent_of_votes) is Some
}

/// The candidate a record contributes.
pub open spec fn spec_candidate_of(r: RawRecordView) -> CandidateView {
    CandidateView {
        name: r.ballot_response,
        percentage: spec_parse_percent(r.percent_of_votes).unwrap(),
        votes: r.votes,
        party_preference: spec_classify_opt(r.party_preference),
    }
}

/// The district attributes a record carries.
pub open spec fn spec_district_of(r: RawRecordView) -> DistrictView {
    DistrictView {
        name: r.district_name,
        percent_turnout: spec_parse_percent(r.percent_turnout).unwrap(),
        registered_voters: r.registered_voters,
        ballots_counted: r.ballots_counted,
        district_type: r.district_type,
        district_type_subheading: r.district_type_subheading,
    }
}

/// First position holding the contest id, or `cs.len()` if absent.
pub open spec fn index_of_contest(cs: Seq<ContestView>, id: u32) -> int
    decreases cs.len(),
{
    if cs.len() == 0 {
        0
    } else if cs.first().natural_id == id {
        0
    } else {
        1 + index_of_contest(cs.drop_first(), id)
    }
}

/// Some contest in the sequence carries this natural id.
pub open spec fn contests_have_id(cs: Seq<ContestView>, id: u32) -> bool {
    exists|k: int| 0 <= k < cs.len() && #[trigger] cs[k].natural_id == id
}

/// Some record in the sequence carries this contest id.
pub open spec fn records_have_id(rs: Seq<RawRecordView>, id: u32) -> bool {
    exists|k: int| 0 <= k < rs.len() && #[trigger] rs[k].contest_id == id
}

/// No two contests share a natural id.
pub open spec fn distinct_ids(cs: Seq<ContestView>) -> bool {
    forall|i: int, j: int| 0 <= i < j < cs.len() ==> #[trigger] cs[i].natural_id
        != #[trigger] cs[j].natural_id
}

/// Folding one record into the accumulated contests: append the candidate
/// to the contest already holding its id, or open a new contest at the end.
pub open spec fn spec_insert_record(cs: Seq<ContestView>, r: RawRecordView) -> Seq<
    ContestView,
> {
    let i = index_of_contest(cs, r.contest_id);
    if i < cs.len() {
        cs.update(
            i,
            ContestView { candidates: cs[i].candidates.push(spec_candidate_of(r)), ..cs[i] },
        )
    } else {
        cs.push(
            ContestView {
                natural_id: r.contest_id,
                ballot_title: r.ballot_title,
                district: spec_district_of(r),
                candidates: seq![spec_candidate_of(r)],
            },
        )
    }
}

/// The whole normalization, as a left fold over the record sequence.
pub open spec fn spec_normalize(rs: Seq<RawRecordView>) -> Seq<ContestView>
    decreases rs.len(),
{
    if rs.len() == 0 {
        Seq::empty()
    } else {
        spec_insert_record(spec_normalize(rs.drop_last()), rs.last())
    }
}

pub proof fn lemma_index_of_contest(cs: Seq<ContestView>, id: u32)
    ensures
        0 <= index_of_contest(cs, id) <= cs.len(),
        index_of_contest(cs, id) < cs.len() ==> cs[index_of_contest(cs, id)].natural_id
            == id,
        forall|k: int| 0 <= k < index_of_contest(cs, id) ==> #[trigger] cs[k].natural_id
            != id,
    decreases cs.len(),
{
    if cs.len() > 0 && cs.first().natural_id != id {
        lemma_index_of_contest(cs.drop_first(), id);
        assert forall|k: int| 0 <= k < index_of_contest(cs, id) implies #[trigger] cs[k].natural_id
            != id by {
            if k > 0 {
                assert(cs.drop_first()[k - 1] == cs[k]);
            }
        }
    }
}

proof fn lemma_index_of_contest_at(cs: Seq<ContestView>, id: u32, i: int)
    requires
        0 <= i <= cs.len(),
        forall|k: int| 0 <= k < i ==> #[trigger] cs[k].natural_id != id,
        i == cs.len() || cs[i].natural_id == id,
    ensures
        index_of_contest(cs, id) == i,
    decreases i,
{
    if i > 0 {
        assert forall|k: int| 0 <= k < i - 1 implies #[trigger] cs.drop_first()[
            k
        ].natural_id != id by {
            assert(cs.drop_first()[k] == cs[k + 1]);
        }
        lemma_index_of_contest_at(cs.drop_first(), id, i - 1);
    }
}

/// Folding a record in makes its id present and disturbs no other id.
proof fn lemma_insert_record_has_id(cs: Seq<ContestView>, r: RawRecordView, id: u32)
    ensures
        contests_have_id(spec_insert_record(cs, r), id) == (contests_have_id(cs, id)
            || r.contest_id == id),
{
    let out = spec_insert_record(cs, r);
    let i = index_of_contest(cs, r.contest_id);
    lemma_index_of_contest(cs, r.contest_id);
    if i < cs.len() {
        assert forall|k: int| 0 <= k < out.len() implies #[trigger] out[k].natural_id
            == cs[k].natural_id by {}
        if contests_have_id(cs, id) {
            let k = choose|k: int| 0 <= k < cs.len() && #[trigger] cs[k].natural_id == id;
            assert(out[k].natural_id == id);
        }
        if r.contest_id == id {
            assert(out[i].natural_id == id);
        }
        if contests_have_id(out, id) {
            let k = choose|k: int| 0 <= k < out.len() && #[trigger] out[k].natural_id
                == id;
            assert(cs[k].natural_id == id);
        }
    } else {
        if contests_have_id(cs, id) {
            let k = choose|k: int| 0 <= k < cs.len() && #[trigger] cs[k].natural_id == id;
            assert(out[k].natural_id == id);
        }
        if r.contest_id == id {
            assert(out[cs.len() as int].natural_id == id);
        }
        if contests_have_id(out, id) {
            let k = choose|k: int| 0 <= k < out.len() && #[trigger] out[k].natural_id
                == id;
            if k < cs.len() {
                assert(cs[k].natural_id == id);
            }
        }
    }
}

/// Folding a record in keeps natural ids distinct.
proof fn lemma_insert_record_distinct(cs: Seq<ContestView>, r: RawRecordView)
    requires
        distinct_ids(cs),
    ensures
        distinct_ids(spec_insert_record(cs, r)),
{
    let out = spec_insert_record(cs, r);
    let i = index_of_contest(cs, r.contest_id);
    lemma_index_of_contest(cs, r.contest_id);
    if i < cs.len() {
        assert forall|p: int, q: int| 0 <= p < q < out.len() implies #[trigger] out[
            p
        ].natural_id != #[trigger] out[q].natural_id by {
            assert(out[p].natural_id == cs[p].natural_id);
            assert(out[q].natural_id == cs[q].natural_id);
        }
    } else {
        assert forall|p: int, q: int| 0 <= p < q < out.len() implies #[trigger] out[
            p
        ].natural_id != #[trigger] out[q].natural_id by {
            if q < cs.len() {
            } else {
                assert(out[q].natural_id == r.contest_id);
                assert(cs[p].natural_id != r.contest_id);
            }
        }
    }
}

/// Normalization never produces two contests with the same natural id.
pub proof fn lemma_normalize_distinct(rs: Seq<RawRecordView>)
    ensures
        distinct_ids(spec_normalize(rs)),
    decreases rs.len(),
{
    if rs.len() > 0 {
        lemma_normalize_distinct(rs.drop_last());
        lemma_insert_record_distinct(spec_normalize(rs.drop_last()), rs.last());
    }
}

/// Contest ids survive normalization verbatim: the normalized set holds a
/// contest with a given natural id exactly when some source record carried
/// that contest id.
pub proof fn lemma_normalize_has_id(rs: Seq<RawRecordView>, id: u32)
    ensures
        contests_have_id(spec_normalize(rs), id) == records_have_id(rs, id),
    decreases rs.len(),
{
    if rs.len() == 0 {
    } else {
        let prefix = rs.drop_last();
        lemma_normalize_has_id(prefix, id);
        lemma_insert_record_has_id(spec_normalize(prefix), rs.last(), id);
        if records_have_id(rs, id) {
            let k = choose|k: int| 0 <= k < rs.len() && #[trigger] rs[k].contest_id == id;
            if k < rs.len() - 1 {
                assert(prefix[k].contest_id == id);
            }
        }
        if records_have_id(prefix, id) {
            let k = choose|k: int| 0 <= k < prefix.len() && #[trigger] prefix[k].contest_id
                == id;
            assert(rs[k].contest_id == id);
        }
        if rs.last().contest_id == id {
            assert(rs[rs.len() - 1].contest_id == id);
        }
    }
}

/// Group a batch of flat records into contest trees.
///
/// Returns the grouped contests in first-seen order, or the index of the
/// first malformed record; a malformed record rejects the whole batch.
#[verifier::loop_isolation(false)]
#[verifier::rlimit(60)]
pub fn normalize(records: &Vec<RawRecord>) -> (r: Result<Vec<Contest>, IngestError>)
    ensures
        r is Ok <==> (forall|k: int| 0 <= k < records.deep_view().len() ==> record_ok(
            #[trigger] records.deep_view()[k],
        )),
        r matches Result::Ok(out) ==> out.deep_view() == spec_normalize(
            records.deep_view(),
        ),
        r matches Result::Err(IngestError::MalformedRecord(ix)) ==> 0 <= ix
            < records.deep_view().len() && !record_ok(records.deep_view()[ix as int])
            && (forall|k: int| 0 <= k < ix ==> record_ok(#[trigger] records.deep_view()[k])),
{
    let ghost rdv = records.deep_view();
    let mut out: Vec<Contest> = Vec::new();
    let mut ix: usize = 0;
    while ix < records.len()
        invariant
            0 <= ix <= records.len(),
            out.deep_view() == spec_normalize(rdv.take(ix as int)),
            forall|k: int| 0 <= k < ix ==> record_ok(#[trigger] rdv[k]),
        decreases records.len() - ix,
    {
        let rec = &records[ix];
        proof {
            assert(rec.deep_view() == rdv[ix as int]);
        }
        let turnout: u32 = match parse_percent(rec.percent_turnout.as_str()) {
            Option::Some(v) => v,
            Option::None => {
                return Result::Err(IngestError::MalformedRecord(ix));
            },
        };
        let share: u32 = match parse_percent(rec.percent_of_votes.as_str()) {
            Option::Some(v) => v,
            Option::None => {
                return Result::Err(IngestError::MalformedRecord(ix));
            },
        };
        let cand = Candidate {
            name: rec.ballot_response.clone(),
            percentage: share,
            votes: rec.votes,
            party_preference: PartyPreference::classify_opt(&rec.party_preference),
        };
        proof {
            assert(cand.deep_view() == spec_candidate_of(rdv[ix as int]));
        }

        let ghost prev_dv = out.deep_view();
        let mut pos: usize = 0;
        while pos < out.len() && out[pos].natural_id != rec.contest_id
            invariant
                0 <= pos <= out.len(),
                forall|k: int| 0 <= k < pos ==> #[trigger] prev_dv[k].natural_id
                    != rdv[ix as int].contest_id,
            decreases out.len() - pos,
        {
            proof {
                assert(prev_dv[pos as int].natural_id == out@[pos as int].natural_id);
            }
            pos = pos + 1;
        }
        proof {
            if pos < out.len() {
                assert(prev_dv[pos as int].natural_id == out@[pos as int].natural_id);
            }
            lemma_index_of_contest_at(prev_dv, rdv[ix as int].contest_id, pos as int);
        }

        if pos < out.len() {
            let mut c = out.remove(pos);
            let ghost c_dv = c.deep_view();
            c.candidates.push(cand);
            proof {
                assert(c.deep_view().candidates =~= c_dv.candidates.push(
                    spec_candidate_of(rdv[ix as int]),
                ));
                assert(c.deep_view() == ContestView {
                    candidates: c_dv.candidates.push(spec_candidate_of(rdv[ix as int])),
                    ..c_dv
                });
            }
            out.insert(pos, c);
            proof {
                assert(out.deep_view() =~= spec_insert_record(prev_dv, rdv[ix as int]));
            }
        } else {
            let district = District {
                name: rec.district_name.clone(),
                percent_turnout: turnout,
                registered_voters: rec.registered_voters,
                ballots_counted: rec.ballots_counted,
                district_type: rec.district_type.clone(),
                district_type_subheading: rec.district_type_subheading.clone(),
            };
            let mut first: Vec<Candidate> = Vec::new();
            first.push(cand);
            let fresh = Contest {
                natural_id: rec.contest_id,
                ballot_title: rec.ballot_title.clone(),
                district,
                candidates: first,
            };
            proof {
                assert(fresh.deep_view().candidates =~= seq![
                    spec_candidate_of(rdv[ix as int]),
                ]);
            }
            out.push(fresh);
            proof {
                assert(out.deep_view() =~= spec_insert_record(prev_dv, rdv[ix as int]));
            }
        }
        proof {
            assert(rdv.take(ix + 1).drop_last() =~= rdv.take(ix as int));
            assert(rdv.take(ix + 1).last() == rdv[ix as int]);
            assert(spec_normalize(rdv.take(ix + 1)) == spec_insert_record(
                spec_normalize(rdv.take(ix as int)),
                rdv[ix as int],
            ));
        }
        ix = ix + 1;
    }
    proof {
        assert(rdv.take(records@.len() as int) =~= rdv);
    }
    Result::Ok(out)
}

} // verus!
