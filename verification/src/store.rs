//! The snapshot store.
//!
//! Durable layout, kept storage-technology neutral: four related record
//! sets — snapshots, districts, contests, candidates — linked by snapshot
//! id and, for a candidate, by the contest's natural id within its
//! snapshot. The store is append-only and versioned: a write persists one
//! snapshot with full copies of all its districts, contests and candidates
//! as a single atomic unit, and nothing is ever updated or deleted.
//! Districts are deliberately not deduplicated across snapshots, so a
//! point-in-time read needs no cross-snapshot joins.
//!
//! A write stages every row of the new snapshot first and commits them
//! together; a storage fault during the commit — modeled by the `fault`
//! flag — leaves no partial rows behind.

use crate::model::{Candidate, CandidateView, Contest, ContestView, District, DistrictView};
use crate::normalize::distinct_ids;
use crate::party::PartyPreference;
use vstd::prelude::*;

verus! {

/// One snapshot: the root of the version history.
#[derive(Clone, Copy, Debug, PartialEq, Eq, Structural)]
pub struct SnapshotRow {
    /// Position in the append-only snapshot log.
    pub id: u64,
    /// Caller-supplied clock reading; strictly increasing across writes.
    pub timestamp: i64,
    /// The fingerprint recorded with this snapshot.
    pub total_votes: i64,
}

/// A district's attributes, copied in full into each snapshot that saw it.
pub struct DistrictRow {
    pub name: String,
    pub percent_turnout: u32,
    pub registered_voters: u32,
    pub ballots_counted: u32,
    pub district_type: String,
    pub district_type_subheading: String,
    pub snapshot_id: u64,
}

/// A contest within one snapshot. The natural id is preserved verbatim
/// and recurs across snapshots; within one snapshot it is unique.
pub struct ContestRow {
    pub natural_id: u32,
    pub ballot_title: String,
    /// Position of the contest's district in the district log.
    pub district_ref: u64,
    pub snapshot_id: u64,
}

/// A candidate's result within one contest of one snapshot.
pub struct CandidateRow {
    pub name: String,
    pub percentage: u32,
    pub votes: u32,
    pub party_preference: PartyPreference,
    /// Natural id of the owning contest, within the same snapshot.
    pub contest_ref: u32,
    pub snapshot_id: u64,
}

/// A storage-layer failure.
#[derive(Clone, Copy, Debug, PartialEq, Eq, Structural)]
pub enum StoreError {
    /// The transaction could not commit; no rows were persisted.
    WriteFailed,
}

/// The append-only, versioned snapshot store.
pub struct SnapshotStore {
    pub snapshots: Vec<SnapshotRow>,
    pub districts: Vec<DistrictRow>,
    pub contests: Vec<ContestRow>,
    pub candidates: Vec<CandidateRow>,
}

/// One snapshot joined with all of its contests, districts and candidates.
pub struct SnapshotView {
    pub id: u64,
    pub timestamp: i64,
    pub total_votes: i64,
    pub contests: Vec<Contest>,
}

impl SnapshotStore {
    /// Internal consistency of the four record sets.
    pub open spec fn wf(self) -> bool {
        &&& forall|i: int| 0 <= i < self.snapshots@.len() ==> (#[trigger] self.snapshots@[i]).id
            == i
        &&& forall|i: int| 0 <= i < self.snapshots@.len() ==> (
        #[trigger] self.snapshots@[i]).timestamp >= 0
        &&& forall|i: int, j: int| 0 <= i < j < self.snapshots@.len() ==> (
        #[trigger] self.snapshots@[i]).timestamp < (#[trigger] self.snapshots@[j]).timestamp
        &&& forall|i: int| 0 <= i < self.districts@.len() ==> (
        #[trigger] self.districts@[i]).snapshot_id < self.snapshots@.len()
        &&& forall|i: int| 0 <= i < self.contests@.len() ==> (
        #[trigger] self.contests@[i]).snapshot_id < self.snapshots@.len()
            && self.contests@[i].district_ref < self.districts@.len()
            && self.districts@[self.contests@[i].district_ref as int].snapshot_id
            == self.contests@[i].snapshot_id
        &&& forall|i: int, j: int| 0 <= i < j < self.contests@.len() && (
        #[trigger] self.contests@[i]).snapshot_id == (#[trigger] self.contests@[j]).snapshot_id
            ==> self.contests@[i].natural_id != self.contests@[j].natural_id
        &&& forall|i: int| 0 <= i < self.candidates@.len() ==> (
        #[trigger] self.candidates@[i]).snapshot_id < self.snapshots@.len()
    }

    /// An empty store.
    pub fn new() -> (s: SnapshotStore)
        ensures
            s.wf(),
            s.snapshots@.len() == 0,
            s.districts@.len() == 0,
            s.contests@.len() == 0,
            s.candidates@.len() == 0,
    {
        SnapshotStore {
            snapshots: Vec::new(),
            districts: Vec::new(),
            contests: Vec::new(),
            candidates: Vec::new(),
        }
    }
}

impl SnapshotView {
    /// A field-for-field copy of the joined snapshot.
    pub fn duplicate(&self) -> (r: SnapshotView)
        ensures
            r.id == self.id,
            r.timestamp == self.timestamp,
            r.total_votes == self.total_votes,
            r.contests.deep_view() == self.contests.deep_view(),
    {
        let mut contests: Vec<Contest> = Vec::new();
        let mut i: usize = 0;
        while i < self.contests.len()
            invariant
                0 <= i <= self.contests.len(),
                contests.len() == i,
                forall|k: int| 0 <= k < i ==> contests.deep_view()[k]
                    == self.contests.deep_view()[k],
            decreases self.contests.len() - i,
        {
            let c = self.contests[i].duplicate();
            let ghost prev = contests;
            contests.push(c);
            proof {
                assert forall|k: int| 0 <= k < i + 1 implies contests.deep_view()[k]
                    == self.contests.deep_view()[k] by {
                    if k < i {
                        assert(contests@[k] == prev@[k]);
                        assert(prev.deep_view()[k] == self.contests.deep_view()[k]);
                    } else {
                        assert(contests@[k] == c);
                    }
                }
            }
            i = i + 1;
        }
        proof {
            assert(contests.deep_view() =~= self.contests.deep_view());
        }
        SnapshotView {
            id: self.id,
            timestamp: self.timestamp,
            total_votes: self.total_votes,
            contests,
        }
    }
}

/// The district row a contest contributes to a snapshot.
pub open spec fn district_row_of(c: Contest, sid: u64) -> DistrictRow {
    DistrictRow {
        name: c.district.name,
        percent_turnout: c.district.percent_turnout,
        registered_voters: c.district.registered_voters,
        ballots_counted: c.district.ballots_counted,
        district_type: c.district.district_type,
        district_type_subheading: c.district.district_type_subheading,
        snapshot_id: sid,
    }
}

/// The district rows of a whole write, in input order.
pub open spec fn district_rows_of(cs: Seq<Contest>, sid: u64) -> Seq<DistrictRow> {
    Seq::new(cs.len(), |i: int| district_row_of(cs[i], sid))
}

/// The contest row for one contest, pointing at its district row.
pub open spec fn contest_row_of(c: Contest, sid: u64, dref: int) -> ContestRow {
    ContestRow {
        natural_id: c.natural_id,
        ballot_title: c.ballot_title,
        district_ref: dref as u64,
        snapshot_id: sid,
    }
}

/// The contest rows of a whole write, with district refs starting at `base`.
pub open spec fn contest_rows_of(cs: Seq<Contest>, sid: u64, base: int) -> Seq<ContestRow> {
    Seq::new(cs.len(), |i: int| contest_row_of(cs[i], sid, base + i))
}

/// The candidate row for one candidate of a contest.
pub open spec fn candidate_row_of(c: Candidate, contest_ref: u32, sid: u64) -> CandidateRow {
    CandidateRow {
        name: c.name,
        percentage: c.percentage,
        votes: c.votes,
        party_preference: c.party_preference,
        contest_ref,
        snapshot_id: sid,
    }
}

/// The candidate rows of one contest, in candidate order.
pub open spec fn contest_candidate_rows(c: Contest, sid: u64) -> Seq<CandidateRow> {
    Seq::new(c.candidates@.len(), |i: int| candidate_row_of(c.candidates@[i], c.natural_id, sid))
}

/// The candidate rows of a whole write: each contest's block, in order.
pub open spec fn candidate_rows_of(cs: Seq<Contest>, sid: u64) -> Seq<CandidateRow>
    decreases cs.len(),
{
    if cs.len() == 0 {
        Seq::empty()
    } else {
        candidate_rows_of(cs.drop_last(), sid) + contest_candidate_rows(cs.last(), sid)
    }
}

/// Every staged candidate row belongs to the snapshot being written.
proof fn lemma_candidate_rows_sid(cs: Seq<Contest>, sid: u64)
    ensures
        forall|k: int| 0 <= k < candidate_rows_of(cs, sid).len() ==> (
        #[trigger] candidate_rows_of(cs, sid)[k]).snapshot_id == sid,
    decreases cs.len(),
{
    if cs.len() > 0 {
        lemma_candidate_rows_sid(cs.drop_last(), sid);
        assert forall|k: int| 0 <= k < candidate_rows_of(cs, sid).len() implies (
        #[trigger] candidate_rows_of(cs, sid)[k]).snapshot_id == sid by {
            let prefix = candidate_rows_of(cs.drop_last(), sid);
            if k < prefix.len() {
                assert(candidate_rows_of(cs, sid)[k] == prefix[k]);
            } else {
                assert(candidate_rows_of(cs, sid)[k] == contest_candidate_rows(
                    cs.last(),
                    sid,
                )[k - prefix.len()]);
            }
        }
    }
}

impl SnapshotStore {
    /// Persist one snapshot and all of its rows as a single atomic unit.
    ///
    /// Every row is staged first; the commit appends them together, so a
    /// storage fault (the `fault` flag) loses the whole transaction and
    /// leaves every prior snapshot intact.
    #[verifier::loop_isolation(false)]
    #[verifier::rlimit(100)]
    pub fn write_snapshot(
        &mut self,
        timestamp: i64,
        contests: &Vec<Contest>,
        total_votes: i64,
        fault: bool,
    ) -> (r: Result<u64, StoreError>)
        requires
            old(self).wf(),
            timestamp >= 0,
            old(self).snapshots@.len() > 0 ==> old(self).snapshots@.last().timestamp
                < timestamp,
            distinct_ids(contests.deep_view()),
            old(self).districts@.len() + contests@.len() <= usize::MAX,
        ensures
            r is Err <==> fault,
            r is Err ==> *final(self) == *old(self),
            r matches Result::Ok(sid) ==> {
                &&& sid == old(self).snapshots@.len()
                &&& final(self).snapshots@ == old(self).snapshots@.push(
                    SnapshotRow { id: sid, timestamp, total_votes },
                )
                &&& final(self).districts@ == old(self).districts@ + district_rows_of(
                    contests@,
                    sid,
                )
                &&& final(self).contests@ == old(self).contests@ + contest_rows_of(
                    contests@,
                    sid,
                    old(self).districts@.len() as int,
                )
                &&& final(self).candidates@ == old(self).candidates@ + candidate_rows_of(
                    contests@,
                    sid,
                )
            },
            final(self).wf(),
    {
        let sid: u64 = self.snapshots.len() as u64;
        let base: usize = self.districts.len();

        // The transaction: stage every row of the new snapshot.
        let mut staged_districts: Vec<DistrictRow> = Vec::new();
        let mut staged_contests: Vec<ContestRow> = Vec::new();
        let mut staged_candidates: Vec<CandidateRow> = Vec::new();
        let mut i: usize = 0;
        while i < contests.len()
            invariant
                0 <= i <= contests.len(),
                staged_districts@ =~= district_rows_of(contests@.take(i as int), sid),
                staged_contests@ =~= contest_rows_of(contests@.take(i as int), sid, base as int),
                staged_candidates@ =~= candidate_rows_of(contests@.take(i as int), sid),
            decreases contests.len() - i,
        {
            let c = &contests[i];
            staged_districts.push(
                DistrictRow {
                    name: c.district.name.clone(),
                    percent_turnout: c.district.percent_turnout,
                    registered_voters: c.district.registered_voters,
                    ballots_counted: c.district.ballots_counted,
                    district_type: c.district.district_type.clone(),
                    district_type_subheading: c.district.district_type_subheading.clone(),
                    snapshot_id: sid,
                },
            );
            staged_contests.push(
                ContestRow {
                    natural_id: c.natural_id,
                    ballot_title: c.ballot_title.clone(),
                    district_ref: (base + i) as u64,
                    snapshot_id: sid,
                },
            );
            let ghost staged_before = staged_candidates@;
            let mut j: usize = 0;
            while j < c.candidates.len()
                invariant
                    0 <= j <= c.candidates.len(),
                    staged_candidates@ =~= staged_before + contest_candidate_rows(
                        *c,
                        sid,
                    ).take(j as int),
                decreases c.candidates.len() - j,
            {
                let cand = &c.candidates[j];
                staged_candidates.push(
                    CandidateRow {
                        name: cand.name.clone(),
                        percentage: cand.percentage,
                        votes: cand.votes,
                        party_preference: cand.party_preference,
                        contest_ref: c.natural_id,
                        snapshot_id: sid,
                    },
                );
                proof {
                    assert(contest_candidate_rows(*c, sid)[j as int] == candidate_row_of(
                        c.candidates@[j as int],
                        c.natural_id,
                        sid,
                    ));
                }
                j = j + 1;
            }
            proof {
                assert(contest_candidate_rows(*c, sid).take(c.candidates@.len() as int)
                    =~= contest_candidate_rows(*c, sid));
                assert(contests@.take(i + 1).drop_last() =~= contests@.take(i as int));
                assert(contests@.take(i + 1).last() == contests@[i as int]);
                assert(candidate_rows_of(contests@.take(i + 1), sid) =~= candidate_rows_of(
                    contests@.take(i as int),
                    sid,
                ) + contest_candidate_rows(contests@[i as int], sid));
            }
            i = i + 1;
        }
        proof {
            assert(contests@.take(contests@.len() as int) =~= contests@);
        }

        if fault {
            // The commit failed: the staged rows are dropped and the
            // store is exactly what it was.
            return Result::Err(StoreError::WriteFailed);
        }

        // The commit: all four record sets grow together.
        self.snapshots.push(SnapshotRow { id: sid, timestamp, total_votes });
        self.districts.append(&mut staged_districts);
        self.contests.append(&mut staged_contests);
        self.candidates.append(&mut staged_candidates);

        proof {
            let post = *self;
            let pre = *old(self);
            let n = pre.snapshots@.len() as int;
            assert forall|a: int| 0 <= a < post.snapshots@.len() implies (
            #[trigger] post.snapshots@[a]).id == a by {}
            assert forall|a: int|
                0 <= a < post.districts@.len() implies (
            #[trigger] post.districts@[a]).snapshot_id < post.snapshots@.len() by {
                if a >= pre.districts@.len() {
                    assert(post.districts@[a] == district_row_of(
                        contests@[a - pre.districts@.len()],
                        sid,
                    ));
                }
            }
            lemma_candidate_rows_sid(contests@, sid);
            assert forall|a: int|
                0 <= a < post.candidates@.len() implies (
            #[trigger] post.candidates@[a]).snapshot_id < post.snapshots@.len() by {
                if a >= pre.candidates@.len() {
                    assert(post.candidates@[a] == candidate_rows_of(contests@, sid)[a
                        - pre.candidates@.len()]);
                }
            }
            assert forall|a: int, b: int|
                0 <= a < b < post.snapshots@.len() implies (
            #[trigger] post.snapshots@[a]).timestamp < (
            #[trigger] post.snapshots@[b]).timestamp by {
                if b < n {
                } else {
                    assert(post.snapshots@[b].timestamp == timestamp);
                    if a < n - 1 {
                        assert(pre.snapshots@[a].timestamp < pre.snapshots@[n - 1].timestamp);
                    }
                }
            }
            assert forall|a: int|
                0 <= a < post.contests@.len() implies (
            #[trigger] post.contests@[a]).snapshot_id < post.snapshots@.len()
                && post.contests@[a].district_ref < post.districts@.len()
                && post.districts@[post.contests@[a].district_ref as int].snapshot_id
                == post.contests@[a].snapshot_id by {
                if a < pre.contests@.len() {
                    assert(pre.contests@[a].district_ref < pre.districts@.len());
                    assert(post.districts@[post.contests@[a].district_ref as int]
                        == pre.districts@[pre.contests@[a].district_ref as int]);
                } else {
                    let k = a - pre.contests@.len();
                    assert(post.contests@[a] == contest_row_of(
                        contests@[k],
                        sid,
                        base + k,
                    ));
                    assert(post.districts@[base + k] == district_row_of(contests@[k], sid));
                }
            }
            assert forall|a: int, b: int|
                0 <= a < b < post.contests@.len() && (
            #[trigger] post.contests@[a]).snapshot_id == (
            #[trigger] post.contests@[b]).snapshot_id implies post.contests@[a].natural_id
                != post.contests@[b].natural_id by {
                if a < pre.contests@.len() && b >= pre.contests@.len() {
                    assert(pre.contests@[a].snapshot_id < sid);
                } else if a >= pre.contests@.len() {
                    let ka = a - pre.contests@.len();
                    let kb = b - pre.contests@.len();
                    assert(contests.deep_view()[ka].natural_id == contests@[ka].natural_id);
                    assert(contests.deep_view()[kb].natural_id == contests@[kb].natural_id);
                }
            }
        }
        Result::Ok(sid)
    }
}

/// The candidate a stored row denotes.
pub open spec fn candidate_view_of_row(r: CandidateRow) -> CandidateView {
    CandidateView {
        name: r.name@,
        percentage: r.percentage,
        votes: r.votes,
        party_preference: r.party_preference,
    }
}

/// The district a stored row denotes.
pub open spec fn district_view_of_row(d: DistrictRow) -> DistrictView {
    DistrictView {
        name: d.name@,
        percent_turnout: d.percent_turnout,
        registered_voters: d.registered_voters,
        ballots_counted: d.ballots_counted,
        district_type: d.district_type@,
        district_type_subheading: d.district_type_subheading@,
    }
}

/// The candidates a row scan yields for one contest of one snapshot,
/// in row order.
pub open spec fn candidates_for(rows: Seq<CandidateRow>, sid: int, nid: u32) -> Seq<
    CandidateView,
>
    decreases rows.len(),
{
    if rows.len() == 0 {
        Seq::empty()
    } else {
        candidates_for(rows.drop_last(), sid, nid) + (if rows.last().snapshot_id == sid
            && rows.last().contest_ref == nid {
            seq![candidate_view_of_row(rows.last())]
        } else {
            Seq::empty()
        })
    }
}

/// The contest tree a stored contest row denotes, joined with its district
/// and its candidates.
pub open spec fn contest_view_of_row(s: SnapshotStore, row: ContestRow) -> ContestView {
    ContestView {
        natural_id: row.natural_id,
        ballot_title: row.ballot_title@,
        district: district_view_of_row(s.districts@[row.district_ref as int]),
        candidates: candidates_for(s.candidates@, row.snapshot_id as int, row.natural_id),
    }
}

/// The contest trees a scan of `rows` yields for one snapshot, in row order.
pub open spec fn contests_views(s: SnapshotStore, rows: Seq<ContestRow>, sid: int) -> Seq<
    ContestView,
>
    decreases rows.len(),
{
    if rows.len() == 0 {
        Seq::empty()
    } else {
        contests_views(s, rows.drop_last(), sid) + (if rows.last().snapshot_id == sid {
            seq![contest_view_of_row(s, rows.last())]
        } else {
            Seq::empty()
        })
    }
}

/// Everything one snapshot holds: its contests joined with their districts
/// and candidates, in stored order.
pub open spec fn snapshot_contests(s: SnapshotStore, sid: int) -> Seq<ContestView> {
    contests_views(s, s.contests@, sid)
}

/// The most recent fingerprint, if any snapshot exists.
pub open spec fn spec_latest_total(s: SnapshotStore) -> Option<i64> {
    if s.snapshots@.len() > 0 {
        Option::Some(s.snapshots@.last().total_votes)
    } else {
        Option::None
    }
}

/// First snapshot position carrying this timestamp, or the snapshot count
/// if none does.
pub open spec fn index_at_timestamp(rows: Seq<SnapshotRow>, ts: i64) -> int
    decreases rows.len(),
{
    if rows.len() == 0 {
        0
    } else if rows.first().timestamp == ts {
        0
    } else {
        1 + index_at_timestamp(rows.drop_first(), ts)
    }
}

proof fn lemma_index_at_timestamp_at(rows: Seq<SnapshotRow>, ts: i64, i: int)
    requires
        0 <= i <= rows.len(),
        forall|k: int| 0 <= k < i ==> (#[trigger] rows[k]).timestamp != ts,
        i == rows.len() || rows[i].timestamp == ts,
    ensures
        index_at_timestamp(rows, ts) == i,
    decreases i,
{
    if i > 0 {
        assert forall|k: int| 0 <= k < i - 1 implies (
        #[trigger] rows.drop_first()[k]).timestamp != ts by {
            assert(rows.drop_first()[k] == rows[k + 1]);
        }
        lemma_index_at_timestamp_at(rows.drop_first(), ts, i - 1);
    }
}

/// The deep views of a sequence of contest trees, element for element.
pub open spec fn deep_views_of(cs: Seq<Contest>) -> Seq<ContestView> {
    Seq::new(cs.len(), |i: int| cs[i].deep_view())
}

/// A record set held in a vector cannot outgrow the address space.
proof fn lemma_store_len_bounds(s: SnapshotStore)
    ensures
        s.snapshots@.len() <= usize::MAX,
        s.districts@.len() <= usize::MAX,
        s.contests@.len() <= usize::MAX,
        s.candidates@.len() <= usize::MAX,
{
    broadcast use vstd::std_specs::vec::axiom_spec_len;

    assert(s.snapshots.len() == s.snapshots@.len());
    assert(s.districts.len() == s.districts@.len());
    assert(s.contests.len() == s.contests@.len());
    assert(s.candidates.len() == s.candidates@.len());
}

proof fn lemma_candidates_for_append(a: Seq<CandidateRow>, b: Seq<CandidateRow>, sid: int, nid: u32)
    ensures
        candidates_for(a + b, sid, nid) == candidates_for(a, sid, nid) + candidates_for(
            b,
            sid,
            nid,
        ),
    decreases b.len(),
{
    if b.len() == 0 {
        assert(a + b =~= a);
        assert(candidates_for(a, sid, nid) + candidates_for(b, sid, nid) =~= candidates_for(
            a,
            sid,
            nid,
        ));
    } else {
        assert((a + b).drop_last() =~= a + b.drop_last());
        assert((a + b).last() == b.last());
        lemma_candidates_for_append(a, b.drop_last(), sid, nid);
        assert(candidates_for(a + b, sid, nid) =~= candidates_for(a, sid, nid)
            + candidates_for(b, sid, nid));
    }
}

proof fn lemma_candidates_for_none(rows: Seq<CandidateRow>, sid: int, nid: u32)
    requires
        forall|k: int| 0 <= k < rows.len() ==> !((#[trigger] rows[k]).snapshot_id == sid
            && rows[k].contest_ref == nid),
    ensures
        candidates_for(rows, sid, nid) == Seq::<CandidateView>::empty(),
    decreases rows.len(),
{
    if rows.len() > 0 {
        lemma_candidates_for_none(rows.drop_last(), sid, nid);
        assert(candidates_for(rows, sid, nid) =~= Seq::<CandidateView>::empty());
    }
}

proof fn lemma_contests_views_append(s: SnapshotStore, a: Seq<ContestRow>, b: Seq<ContestRow>, sid: int)
    ensures
        contests_views(s, a + b, sid) == contests_views(s, a, sid) + contests_views(
            s,
            b,
            sid,
        ),
    decreases b.len(),
{
    if b.len() == 0 {
        assert(a + b =~= a);
        assert(contests_views(s, a, sid) + contests_views(s, b, sid) =~= contests_views(
            s,
            a,
            sid,
        ));
    } else {
        assert((a + b).drop_last() =~= a + b.drop_last());
        assert((a + b).last() == b.last());
        lemma_contests_views_append(s, a, b.drop_last(), sid);
        assert(contests_views(s, a + b, sid) =~= contests_views(s, a, sid)
            + contests_views(s, b, sid));
    }
}

proof fn lemma_contests_views_none(s: SnapshotStore, rows: Seq<ContestRow>, sid: int)
    requires
        forall|k: int| 0 <= k < rows.len() ==> (#[trigger] rows[k]).snapshot_id != sid,
    ensures
        contests_views(s, rows, sid) == Seq::<ContestView>::empty(),
    decreases rows.len(),
{
    if rows.len() > 0 {
        lemma_contests_views_none(s, rows.drop_last(), sid);
        assert(contests_views(s, rows, sid) =~= Seq::<ContestView>::empty());
    }
}

/// Two stores that agree on the rows a scan reads yield the same views.
proof fn lemma_contests_views_env(
    pre: SnapshotStore,
    post: SnapshotStore,
    rows: Seq<ContestRow>,
    sid: int,
)
    requires
        forall|k: int| 0 <= k < rows.len() ==> (#[trigger] rows[k]).district_ref
            < pre.districts@.len(),
        forall|k: int| 0 <= k < rows.len() ==> post.districts@[(
        #[trigger] rows[k]).district_ref as int] == pre.districts@[rows[k].district_ref as int],
        forall|k: int| 0 <= k < rows.len() ==> candidates_for(
            post.candidates@,
            (#[trigger] rows[k]).snapshot_id as int,
            rows[k].natural_id,
        ) == candidates_for(pre.candidates@, rows[k].snapshot_id as int, rows[k].natural_id),
    ensures
        contests_views(post, rows, sid) == contests_views(pre, rows, sid),
    decreases rows.len(),
{
    if rows.len() > 0 {
        assert forall|k: int| 0 <= k < rows.len() - 1 implies (
        #[trigger] rows.drop_last()[k]).district_ref < pre.districts@.len() by {
            assert(rows.drop_last()[k] == rows[k]);
        }
        assert forall|k: int|
            0 <= k < rows.len() - 1 implies post.districts@[(
        #[trigger] rows.drop_last()[k]).district_ref as int] == pre.districts@[rows.drop_last()[
            k
        ].district_ref as int] by {
            assert(rows.drop_last()[k] == rows[k]);
        }
        assert forall|k: int|
            0 <= k < rows.len() - 1 implies candidates_for(
            post.candidates@,
            (#[trigger] rows.drop_last()[k]).snapshot_id as int,
            rows.drop_last()[k].natural_id,
        ) == candidates_for(
            pre.candidates@,
            rows.drop_last()[k].snapshot_id as int,
            rows.drop_last()[k].natural_id,
        ) by {
            assert(rows.drop_last()[k] == rows[k]);
        }
        lemma_contests_views_env(pre, post, rows.drop_last(), sid);
        let last = rows.last();
        assert(last == rows[rows.len() - 1]);
        if last.snapshot_id == sid {
            assert(contest_view_of_row(post, last) == contest_view_of_row(pre, last));
        }
        assert(contests_views(post, rows, sid) =~= contests_views(pre, rows, sid));
    }
}

/// A write changes no existing snapshot: every earlier snapshot reads back
/// exactly as it did before. This is what makes point-in-time retrieval
/// stable and lets consumers correlate contests across snapshots.
pub proof fn lemma_write_preserves_history(
    pre: SnapshotStore,
    post: SnapshotStore,
    cs: Seq<Contest>,
    timestamp: i64,
    total: i64,
    sid: int,
)
    requires
        pre.wf(),
        post.snapshots@ == pre.snapshots@.push(
            SnapshotRow { id: pre.snapshots@.len() as u64, timestamp, total_votes: total },
        ),
        post.districts@ == pre.districts@ + district_rows_of(cs, pre.snapshots@.len() as u64),
        post.contests@ == pre.contests@ + contest_rows_of(
            cs,
            pre.snapshots@.len() as u64,
            pre.districts@.len() as int,
        ),
        post.candidates@ == pre.candidates@ + candidate_rows_of(
            cs,
            pre.snapshots@.len() as u64,
        ),
        0 <= sid < pre.snapshots@.len(),
    ensures
        snapshot_contests(post, sid) == snapshot_contests(pre, sid),
{
    lemma_store_len_bounds(pre);
    let sid_new: u64 = pre.snapshots@.len() as u64;
    assert(sid_new == pre.snapshots@.len());
    let new_cands = candidate_rows_of(cs, sid_new);
    let new_contests = contest_rows_of(cs, sid_new, pre.districts@.len() as int);
    lemma_candidate_rows_sid(cs, sid_new);

    // Candidate scans of any earlier snapshot ignore the appended rows.
    assert forall|s2: int, nid: u32|
        s2 < sid_new implies candidates_for(post.candidates@, s2, nid) == candidates_for(
        pre.candidates@,
        s2,
        nid,
    ) by {
        lemma_candidates_for_append(pre.candidates@, new_cands, s2, nid);
        lemma_candidates_for_none(new_cands, s2, nid);
        assert(candidates_for(pre.candidates@, s2, nid) + Seq::<CandidateView>::empty()
            =~= candidates_for(pre.candidates@, s2, nid));
    }

    // Contest scans of an earlier snapshot ignore the appended rows ...
    lemma_contests_views_append(post, pre.contests@, new_contests, sid);
    assert forall|k: int| 0 <= k < new_contests.len() implies (
    #[trigger] new_contests[k]).snapshot_id != sid by {
        assert(new_contests[k] == contest_row_of(cs[k], sid_new, pre.districts@.len() + k));
    }
    lemma_contests_views_none(post, new_contests, sid);
    assert(contests_views(post, pre.contests@, sid) + Seq::<ContestView>::empty()
        =~= contests_views(post, pre.contests@, sid));

    // ... and read the same districts and candidates as before.
    assert forall|k: int|
        0 <= k < pre.contests@.len() implies candidates_for(
        post.candidates@,
        (#[trigger] pre.contests@[k]).snapshot_id as int,
        pre.contests@[k].natural_id,
    ) == candidates_for(
        pre.candidates@,
        pre.contests@[k].snapshot_id as int,
        pre.contests@[k].natural_id,
    ) by {
        assert(pre.contests@[k].snapshot_id < sid_new);
    }
    lemma_contests_views_env(pre, post, pre.contests@, sid);
}

proof fn lemma_contest_block_matches(c: Contest, sid: u64, m: int)
    requires
        0 <= m <= c.candidates@.len(),
    ensures
        candidates_for(contest_candidate_rows(c, sid).take(m), sid as int, c.natural_id)
            == c.candidates.deep_view().take(m),
    decreases m,
{
    let rows = contest_candidate_rows(c, sid);
    if m == 0 {
        assert(rows.take(0) =~= Seq::<CandidateRow>::empty());
        assert(candidates_for(rows.take(0), sid as int, c.natural_id) =~= c.candidates.deep_view().take(0));
    } else {
        assert(rows.take(m).drop_last() =~= rows.take(m - 1));
        assert(rows.take(m).last() == rows[m - 1]);
        assert(rows[m - 1] == candidate_row_of(c.candidates@[m - 1], c.natural_id, sid));
        lemma_contest_block_matches(c, sid, m - 1);
        assert(candidate_view_of_row(rows[m - 1]) == c.candidates@[m - 1].deep_view());
        assert(candidates_for(rows.take(m), sid as int, c.natural_id)
            =~= c.candidates.deep_view().take(m));
    }
}

/// Candidate rows of contests that all carry other ids never match.
proof fn lemma_candidate_rows_none(cs: Seq<Contest>, sid: u64, s2: int, nid: u32)
    requires
        forall|p: int| 0 <= p < cs.len() ==> (#[trigger] cs[p]).natural_id != nid,
    ensures
        candidates_for(candidate_rows_of(cs, sid), s2, nid) == Seq::<CandidateView>::empty(),
    decreases cs.len(),
{
    if cs.len() == 0 {
    } else {
        assert forall|p: int| 0 <= p < cs.len() - 1 implies (
        #[trigger] cs.drop_last()[p]).natural_id != nid by {
            assert(cs.drop_last()[p] == cs[p]);
        }
        lemma_candidate_rows_none(cs.drop_last(), sid, s2, nid);
        let block = contest_candidate_rows(cs.last(), sid);
        assert(cs[cs.len() - 1].natural_id != nid);
        assert forall|k: int| 0 <= k < block.len() implies !((#[trigger] block[k]).snapshot_id
            == s2 && block[k].contest_ref == nid) by {
            assert(block[k].contest_ref == cs.last().natural_id);
        }
        lemma_candidates_for_none(block, s2, nid);
        lemma_candidates_for_append(candidate_rows_of(cs.drop_last(), sid), block, s2, nid);
        assert(candidates_for(candidate_rows_of(cs, sid), s2, nid) =~= Seq::<
            CandidateView,
        >::empty());
    }
}

/// Within one write's candidate rows, a contest's id selects exactly its
/// own candidate block, in order.
proof fn lemma_candidate_rows_for_id(cs: Seq<Contest>, sid: u64, i: int)
    requires
        0 <= i < cs.len(),
        distinct_ids(deep_views_of(cs)),
    ensures
        candidates_for(candidate_rows_of(cs, sid), sid as int, cs[i].natural_id)
            == cs[i].candidates.deep_view(),
    decreases cs.len(),
{
    let nid = cs[i].natural_id;
    let block = contest_candidate_rows(cs.last(), sid);
    let prefix_rows = candidate_rows_of(cs.drop_last(), sid);
    lemma_candidates_for_append(prefix_rows, block, sid as int, nid);
    assert(deep_views_of(cs)[i].natural_id == nid);
    if i == cs.len() - 1 {
        assert forall|p: int| 0 <= p < cs.len() - 1 implies (
        #[trigger] cs.drop_last()[p]).natural_id != nid by {
            assert(cs.drop_last()[p] == cs[p]);
            assert(deep_views_of(cs)[p].natural_id == cs[p].natural_id);
        }
        lemma_candidate_rows_none(cs.drop_last(), sid, sid as int, nid);
        lemma_contest_block_matches(cs.last(), sid, cs.last().candidates@.len() as int);
        assert(contest_candidate_rows(cs.last(), sid).take(cs.last().candidates@.len() as int)
            =~= block);
        assert(cs.last().candidates.deep_view().take(cs.last().candidates@.len() as int)
            =~= cs.last().candidates.deep_view());
        assert(candidates_for(candidate_rows_of(cs, sid), sid as int, nid) =~= cs[
            i
        ].candidates.deep_view());
    } else {
        assert forall|p: int, q: int|
            0 <= p < q < cs.len() - 1 implies (#[trigger] deep_views_of(cs.drop_last())[
            p
        ]).natural_id != (#[trigger] deep_views_of(cs.drop_last())[q]).natural_id by {
            assert(deep_views_of(cs.drop_last())[p] == deep_views_of(cs)[p]);
            assert(deep_views_of(cs.drop_last())[q] == deep_views_of(cs)[q]);
        }
        assert(cs.drop_last()[i] == cs[i]);
        lemma_candidate_rows_for_id(cs.drop_last(), sid, i);
        assert(deep_views_of(cs)[cs.len() - 1].natural_id == cs.last().natural_id);
        assert(cs.last().natural_id != nid);
        assert forall|k: int| 0 <= k < block.len() implies !((#[trigger] block[k]).snapshot_id
            == sid as int && block[k].contest_ref == nid) by {
            assert(block[k].contest_ref == cs.last().natural_id);
        }
        lemma_candidates_for_none(block, sid as int, nid);
        assert(candidates_for(candidate_rows_of(cs, sid), sid as int, nid) =~= cs[
            i
        ].candidates.deep_view());
    }
}

/// The freshly written contest rows read back as exactly the written trees.
proof fn lemma_new_rows_views(
    post: SnapshotStore,
    base: int,
    cs: Seq<Contest>,
    sid_new: u64,
    m: int,
)
    requires
        0 <= m <= cs.len(),
        base >= 0,
        base + cs.len() <= post.districts@.len(),
        forall|i: int| 0 <= i < cs.len() ==> post.districts@[base + i] == district_row_of(
            #[trigger] cs[i],
            sid_new,
        ),
        forall|i: int| 0 <= i < cs.len() ==> candidates_for(
            post.candidates@,
            sid_new as int,
            (#[trigger] cs[i]).natural_id,
        ) == cs[i].candidates.deep_view(),
    ensures
        contests_views(post, contest_rows_of(cs, sid_new, base).take(m), sid_new as int)
            == deep_views_of(cs).take(m),
    decreases m,
{
    let rows = contest_rows_of(cs, sid_new, base);
    if m == 0 {
        assert(rows.take(0) =~= Seq::<ContestRow>::empty());
        assert(contests_views(post, rows.take(0), sid_new as int) =~= deep_views_of(
            cs,
        ).take(0));
    } else {
        lemma_store_len_bounds(post);
        assert(rows.take(m).drop_last() =~= rows.take(m - 1));
        assert(rows.take(m).last() == rows[m - 1]);
        assert(rows[m - 1] == contest_row_of(cs[m - 1], sid_new, base + m - 1));
        assert(rows[m - 1].district_ref == base + m - 1);
        lemma_new_rows_views(post, base, cs, sid_new, m - 1);
        assert(post.districts@[base + m - 1] == district_row_of(cs[m - 1], sid_new));
        assert(contest_view_of_row(post, rows[m - 1]) =~= cs[m - 1].deep_view());
        assert(deep_views_of(cs)[m - 1] == cs[m - 1].deep_view());
        assert(contests_views(post, rows.take(m), sid_new as int) =~= deep_views_of(
            cs,
        ).take(m));
    }
}

/// The atomic write/read round trip: immediately after a write, the new
/// snapshot reads back as exactly the contest trees that were written —
/// the entire tree is visible, or (on a fault) none of it.
pub proof fn lemma_write_round_trip(
    pre: SnapshotStore,
    post: SnapshotStore,
    cs: Seq<Contest>,
    timestamp: i64,
    total: i64,
)
    requires
        pre.wf(),
        distinct_ids(deep_views_of(cs)),
        post.snapshots@ == pre.snapshots@.push(
            SnapshotRow { id: pre.snapshots@.len() as u64, timestamp, total_votes: total },
        ),
        post.districts@ == pre.districts@ + district_rows_of(cs, pre.snapshots@.len() as u64),
        post.contests@ == pre.contests@ + contest_rows_of(
            cs,
            pre.snapshots@.len() as u64,
            pre.districts@.len() as int,
        ),
        post.candidates@ == pre.candidates@ + candidate_rows_of(
            cs,
            pre.snapshots@.len() as u64,
        ),
    ensures
        snapshot_contests(post, pre.snapshots@.len() as int) == deep_views_of(cs),
{
    lemma_store_len_bounds(pre);
    let sid_new: u64 = pre.snapshots@.len() as u64;
    assert(sid_new == pre.snapshots@.len());
    let base: int = pre.districts@.len() as int;
    let new_contests = contest_rows_of(cs, sid_new, base);
    let new_cands = candidate_rows_of(cs, sid_new);

    // The scan of the old contest rows contributes nothing to the new id.
    lemma_contests_views_append(post, pre.contests@, new_contests, sid_new as int);
    assert forall|k: int| 0 <= k < pre.contests@.len() implies (
    #[trigger] pre.contests@[k]).snapshot_id != sid_new as int by {
        assert(pre.contests@[k].snapshot_id < pre.snapshots@.len());
    }
    lemma_contests_views_none(post, pre.contests@, sid_new as int);

    // For each written contest, its id selects exactly its own block.
    assert forall|i: int|
        0 <= i < cs.len() implies candidates_for(
        post.candidates@,
        sid_new as int,
        (#[trigger] cs[i]).natural_id,
    ) == cs[i].candidates.deep_view() by {
        lemma_candidates_for_append(pre.candidates@, new_cands, sid_new as int, cs[i].natural_id);
        assert forall|k: int| 0 <= k < pre.candidates@.len() implies !((
        #[trigger] pre.candidates@[k]).snapshot_id == sid_new as int && pre.candidates@[
            k
        ].contest_ref == cs[i].natural_id) by {
            assert(pre.candidates@[k].snapshot_id < pre.snapshots@.len());
        }
        lemma_candidates_for_none(pre.candidates@, sid_new as int, cs[i].natural_id);
        lemma_candidate_rows_for_id(cs, sid_new, i);
        assert(Seq::<CandidateView>::empty() + candidates_for(new_cands, sid_new as int, cs[i].natural_id)
            =~= candidates_for(new_cands, sid_new as int, cs[i].natural_id));
    }

    assert forall|i: int| 0 <= i < cs.len() implies post.districts@[base + i]
        == district_row_of(#[trigger] cs[i], sid_new) by {}
    lemma_new_rows_views(post, base, cs, sid_new, cs.len() as int);
    assert(new_contests.take(cs.len() as int) =~= new_contests);
    assert(deep_views_of(cs).take(cs.len() as int) =~= deep_views_of(cs));
    assert(Seq::<ContestView>::empty() + contests_views(post, new_contests, sid_new as int)
        =~= contests_views(post, new_contests, sid_new as int));
}

impl SnapshotStore {
    /// Join one snapshot's contests with their districts and candidates.
    #[verifier::loop_isolation(false)]
    #[verifier::rlimit(100)]
    pub fn contests_of_snapshot(&self, sid: u64) -> (r: Vec<Contest>)
        requires
            self.wf(),
            sid < self.snapshots@.len(),
        ensures
            r.deep_view() == snapshot_contests(*self, sid as int),
    {
        let mut out: Vec<Contest> = Vec::new();
        let mut i: usize = 0;
        while i < self.contests.len()
            invariant
                0 <= i <= self.contests.len(),
                out.deep_view() =~= contests_views(*self, self.contests@.take(i as int), sid as int),
            decreases self.contests.len() - i,
        {
            let row = &self.contests[i];
            proof {
                assert(self.contests@.take(i + 1).drop_last() =~= self.contests@.take(
                    i as int,
                ));
                assert(self.contests@.take(i + 1).last() == self.contests@[i as int]);
            }
            if row.snapshot_id == sid {
                let dlen: usize = self.districts.len();
                proof {
                    assert(row.district_ref < dlen as u64);
                }
                let dref: usize = row.district_ref as usize;
                proof {
                    assert(dref as u64 == row.district_ref);
                }
                let drow = &self.districts[dref];
                let district = District {
                    name: drow.name.clone(),
                    percent_turnout: drow.percent_turnout,
                    registered_voters: drow.registered_voters,
                    ballots_counted: drow.ballots_counted,
                    district_type: drow.district_type.clone(),
                    district_type_subheading: drow.district_type_subheading.clone(),
                };
                let mut cands: Vec<Candidate> = Vec::new();
                let mut j: usize = 0;
                while j < self.candidates.len()
                    invariant
                        0 <= j <= self.candidates.len(),
                        cands.deep_view() =~= candidates_for(
                            self.candidates@.take(j as int),
                            sid as int,
                            row.natural_id,
                        ),
                    decreases self.candidates.len() - j,
                {
                    let crow = &self.candidates[j];
                    proof {
                        assert(self.candidates@.take(j + 1).drop_last()
                            =~= self.candidates@.take(j as int));
                        let ghost jj = j as int;
                        assert(self.candidates@.take(j + 1).last() == self.candidates@[jj]);
                    }
                    if crow.snapshot_id == sid && crow.contest_ref == row.natural_id {
                        cands.push(
                            Candidate {
                                name: crow.name.clone(),
                                percentage: crow.percentage,
                                votes: crow.votes,
                                party_preference: crow.party_preference,
                            },
                        );
                    }
                    j = j + 1;
                }
                proof {
                    assert(self.candidates@.take(self.candidates@.len() as int)
                        =~= self.candidates@);
                }
                let contest = Contest {
                    natural_id: row.natural_id,
                    ballot_title: row.ballot_title.clone(),
                    district,
                    candidates: cands,
                };
                proof {
                    assert(contest.deep_view() =~= contest_view_of_row(
                        *self,
                        self.contests@[i as int],
                    ));
                }
                out.push(contest);
            }
            i = i + 1;
        }
        proof {
            assert(self.contests@.take(self.contests@.len() as int) =~= self.contests@);
        }
        out
    }

    /// The snapshot with the maximum timestamp, joined with all of its
    /// contests, districts and candidates; nothing if the store is empty.
    pub fn latest(&self) -> (r: Option<SnapshotView>)
        requires
            self.wf(),
        ensures
            r is Some <==> self.snapshots@.len() > 0,
            r matches Option::Some(v) ==> {
                &&& v.id == self.snapshots@.last().id
                &&& v.timestamp == self.snapshots@.last().timestamp
                &&& v.total_votes == self.snapshots@.last().total_votes
                &&& forall|i: int| 0 <= i < self.snapshots@.len() ==> (
                #[trigger] self.snapshots@[i]).timestamp <= v.timestamp
                &&& v.contests.deep_view() == snapshot_contests(
                    *self,
                    self.snapshots@.len() - 1,
                )
            },
    {
        if self.snapshots.len() == 0 {
            return Option::None;
        }
        let row = self.snapshots[self.snapshots.len() - 1];
        let contests = self.contests_of_snapshot(row.id);
        Option::Some(
            SnapshotView {
                id: row.id,
                timestamp: row.timestamp,
                total_votes: row.total_votes,
                contests,
            },
        )
    }

    /// The most recent fingerprint, without materializing any tree.
    pub fn latest_total_votes(&self) -> (r: Option<i64>)
        ensures
            r == spec_latest_total(*self),
    {
        if self.snapshots.len() == 0 {
            Option::None
        } else {
            Option::Some(self.snapshots[self.snapshots.len() - 1].total_votes)
        }
    }

    /// The snapshot whose timestamp equals the argument exactly — not
    /// "as of or before" — joined with all of its rows; nothing if no
    /// snapshot carries that timestamp.
    #[verifier::loop_isolation(false)]
    pub fn at(&self, timestamp: i64) -> (r: Option<SnapshotView>)
        requires
            self.wf(),
        ensures
            r is Some <==> index_at_timestamp(self.snapshots@, timestamp)
                < self.snapshots@.len(),
            r matches Option::Some(v) ==> {
                let i = index_at_timestamp(self.snapshots@, timestamp);
                &&& v.id == self.snapshots@[i].id
                &&& v.timestamp == timestamp
                &&& v.total_votes == self.snapshots@[i].total_votes
                &&& v.contests.deep_view() == snapshot_contests(*self, i)
            },
    {
        let mut i: usize = 0;
        while i < self.snapshots.len() && self.snapshots[i].timestamp != timestamp
            invariant
                0 <= i <= self.snapshots@.len(),
                forall|k: int| 0 <= k < i ==> (#[trigger] self.snapshots@[k]).timestamp
                    != timestamp,
            decreases self.snapshots.len() - i,
        {
            i = i + 1;
        }
        proof {
            lemma_index_at_timestamp_at(self.snapshots@, timestamp, i as int);
        }
        if i == self.snapshots.len() {
            return Option::None;
        }
        let row = self.snapshots[i];
        let contests = self.contests_of_snapshot(row.id);
        Option::Some(
            SnapshotView {
                id: row.id,
                timestamp: row.timestamp,
                total_votes: row.total_votes,
                contests,
            },
        )
    }
}

} // verus!
