//! Change detection.
//!
//! The fingerprint of a normalized result set is the total number of votes
//! cast, summed over every candidate of every contest. A cycle persists a
//! new snapshot exactly when there is no prior snapshot or the prior
//! fingerprint differs. The system deliberately does not diff individual
//! candidate counts: two different result sets that coincidentally share a
//! sum are treated as unchanged. That approximation is a documented design
//! trade-off, not a defect.

use crate::model::{CandidateView, Contest, ContestView};
use vstd::prelude::*;

verus! {

/// Total votes over one contest's candidates.
pub open spec fn candidates_total(s: Seq<CandidateView>) -> int
    decreases s.len(),
{
    if s.len() == 0 {
        0
    } else {
        candidates_total(s.drop_last()) + s.last().votes
    }
}

/// The fingerprint: total votes over every candidate of every contest.
pub open spec fn contests_total(s: Seq<ContestView>) -> int
    decreases s.len(),
{
    if s.len() == 0 {
        0
    } else {
        contests_total(s.drop_last()) + candidates_total(s.last().candidates)
    }
}

/// Whether a cycle must persist: no prior snapshot, or a different total.
pub open spec fn spec_is_changed(prior: Option<i64>, total: int) -> bool {
    match prior {
        Option::None => true,
        Option::Some(p) => p != total,
    }
}

proof fn lemma_candidates_total_nonneg(s: Seq<CandidateView>)
    ensures
        candidates_total(s) >= 0,
    decreases s.len(),
{
    if s.len() > 0 {
        lemma_candidates_total_nonneg(s.drop_last());
    }
}

pub proof fn lemma_contests_total_nonneg(s: Seq<ContestView>)
    ensures
        contests_total(s) >= 0,
    decreases s.len(),
{
    if s.len() > 0 {
        lemma_contests_total_nonneg(s.drop_last());
        lemma_candidates_total_nonneg(s.last().candidates);
    }
}

proof fn lemma_candidates_total_take_le(s: Seq<CandidateView>, i: int)
    requires
        0 <= i <= s.len(),
    ensures
        candidates_total(s.take(i)) <= candidates_total(s),
    decreases s.len() - i,
{
    if i == s.len() {
        assert(s.take(i) =~= s);
    } else {
        assert(s.take(i + 1).drop_last() =~= s.take(i));
        assert(candidates_total(s.take(i + 1)) == candidates_total(s.take(i)) + s[i].votes);
        lemma_candidates_total_take_le(s, i + 1);
    }
}

proof fn lemma_contests_total_take_le(s: Seq<ContestView>, i: int)
    requires
        0 <= i <= s.len(),
    ensures
        contests_total(s.take(i)) <= contests_total(s),
    decreases s.len() - i,
{
    if i == s.len() {
        assert(s.take(i) =~= s);
    } else {
        assert(s.take(i + 1).drop_last() =~= s.take(i));
        assert(contests_total(s.take(i + 1)) == contests_total(s.take(i))
            + candidates_total(s[i].candidates));
        lemma_candidates_total_nonneg(s[i].candidates);
        lemma_contests_total_take_le(s, i + 1);
    }
}

/// Replacing one candidate shifts the contest's sum by the vote delta.
proof fn lemma_candidates_total_update(s: Seq<CandidateView>, j: int, c: CandidateView)
    requires
        0 <= j < s.len(),
    ensures
        candidates_total(s.update(j, c)) == candidates_total(s) - s[j].votes + c.votes,
    decreases s.len(),
{
    if j == s.len() - 1 {
        assert(s.update(j, c).drop_last() =~= s.drop_last());
        assert(s.update(j, c).last() == c);
    } else {
        assert(s.update(j, c).drop_last() =~= s.drop_last().update(j, c));
        assert(s.update(j, c).last() == s.last());
        lemma_candidates_total_update(s.drop_last(), j, c);
    }
}

/// Replacing one contest shifts the fingerprint by its sum delta.
proof fn lemma_contests_total_update(s: Seq<ContestView>, i: int, c: ContestView)
    requires
        0 <= i < s.len(),
    ensures
        contests_total(s.update(i, c)) == contests_total(s) - candidates_total(
            s[i].candidates,
        ) + candidates_total(c.candidates),
    decreases s.len(),
{
    if i == s.len() - 1 {
        assert(s.update(i, c).drop_last() =~= s.drop_last());
        assert(s.update(i, c).last() == c);
    } else {
        assert(s.update(i, c).drop_last() =~= s.drop_last().update(i, c));
        assert(s.update(i, c).last() == s.last());
        lemma_contests_total_update(s.drop_last(), i, c);
    }
}

/// Fingerprint sensitivity: changing any single candidate's vote count —
/// and nothing else — changes the total-vote fingerprint, so the next
/// cycle will persist a new snapshot.
pub proof fn lemma_fingerprint_sensitivity(
    cs: Seq<ContestView>,
    i: int,
    j: int,
    votes: u32,
)
    requires
        0 <= i < cs.len(),
        0 <= j < cs[i].candidates.len(),
        votes != cs[i].candidates[j].votes,
    ensures
        contests_total(
            cs.update(
                i,
                ContestView {
                    candidates: cs[i].candidates.update(
                        j,
                        CandidateView { votes, ..cs[i].candidates[j] },
                    ),
                    ..cs[i]
                },
            ),
        ) != contests_total(cs),
{
    let cand = CandidateView { votes, ..cs[i].candidates[j] };
    let contest = ContestView { candidates: cs[i].candidates.update(j, cand), ..cs[i] };
    lemma_candidates_total_update(cs[i].candidates, j, cand);
    lemma_contests_total_update(cs, i, contest);
}

/// Compute the fingerprint of a normalized result set.
#[verifier::loop_isolation(false)]
pub fn total_votes(contests: &Vec<Contest>) -> (r: i64)
    requires
        contests_total(contests.deep_view()) <= i64::MAX,
    ensures
        r == contests_total(contests.deep_view()),
        r >= 0,
{
    let ghost dv = contests.deep_view();
    let mut acc: i64 = 0;
    let mut i: usize = 0;
    while i < contests.len()
        invariant
            0 <= i <= contests.len(),
            acc == contests_total(dv.take(i as int)),
            0 <= acc,
        decreases contests.len() - i,
    {
        proof {
            lemma_contests_total_nonneg(dv.take(i as int));
        }
        let c = &contests[i];
        let ghost cv = dv[i as int].candidates;
        proof {
            assert(cv == c.candidates.deep_view());
        }
        let mut j: usize = 0;
        while j < c.candidates.len()
            invariant
                0 <= j <= c.candidates.len(),
                acc == contests_total(dv.take(i as int)) + candidates_total(
                    cv.take(j as int),
                ),
                0 <= acc,
            decreases c.candidates.len() - j,
        {
            proof {
                assert(cv.take(j + 1).drop_last() =~= cv.take(j as int));
                assert(cv[j as int] == c.candidates@[j as int].deep_view());
                assert(dv.take(i + 1).drop_last() =~= dv.take(i as int));
                lemma_candidates_total_take_le(cv, j + 1);
                assert(cv.take(cv.len() as int) =~= cv);
                lemma_contests_total_take_le(dv, i + 1);
            }
            acc = acc + c.candidates[j].votes as i64;
            j = j + 1;
        }
        proof {
            assert(cv.take(c.candidates@.len() as int) =~= cv);
            assert(dv.take(i + 1).drop_last() =~= dv.take(i as int));
        }
        i = i + 1;
    }
    proof {
        assert(dv.take(contests@.len() as int) =~= dv);
    }
    acc
}

/// Decide whether anything changed since the most recent snapshot.
pub fn is_changed(prior: Option<i64>, total: i64) -> (r: bool)
    ensures
        r == spec_is_changed(prior, total as int),
{
    match prior {
        Option::None => true,
        Option::Some(p) => p != total,
    }
}

} // verus!
