//! One ingestion cycle.
//!
//! The scheduler's tick: normalize the fetched batch, fingerprint it,
//! compare against the most recent snapshot, and persist only on change.
//! Fetching itself is the caller's concern; the cycle starts from the
//! already-parsed flat records and is driven with the caller's clock
//! reading. Any failure abandons the cycle and leaves the store exactly
//! as it was — the next tick simply tries again.

use crate::detect::{contests_total, is_changed, spec_is_changed, total_votes};
use crate::model::RawRecord;
use crate::normalize::{
    contests_have_id, distinct_ids, lemma_normalize_distinct, lemma_normalize_has_id, normalize,
    record_ok, records_have_id, spec_normalize, IngestError,
};
use crate::store::{
    deep_views_of, lemma_write_preserves_history, lemma_write_round_trip, snapshot_contests,
    spec_latest_total, SnapshotRow, SnapshotStore, StoreError,
};
use vstd::prelude::*;

verus! {

/// What one ingestion cycle did.
#[derive(Clone, Copy, Debug, PartialEq, Eq, Structural)]
pub enum CycleOutcome {
    /// The batch was rejected whole: the record at this index is malformed.
    MalformedBatch(usize),
    /// The fingerprint matches the most recent snapshot; nothing was written.
    Unchanged,
    /// A new snapshot with this id was persisted.
    Updated(u64),
    /// The storage layer failed; no rows were persisted.
    WriteFailed,
}

/// Every record of the batch parses.
pub open spec fn all_records_ok(rs: Seq<crate::model::RawRecordView>) -> bool {
    forall|k: int| 0 <= k < rs.len() ==> record_ok(#[trigger] rs[k])
}

/// Run one ingestion cycle against the store.
///
/// A malformed batch or a storage fault (the `fault` flag) abandons the
/// cycle with the store untouched; an unchanged fingerprint skips
/// persistence entirely; otherwise the normalized trees are written as one
/// new snapshot, every earlier snapshot reading back unchanged.
#[verifier::rlimit(60)]
pub fn run_cycle(
    store: &mut SnapshotStore,
    records: &Vec<RawRecord>,
    timestamp: i64,
    fault: bool,
) -> (r: CycleOutcome)
    requires
        old(store).wf(),
        timestamp >= 0,
        old(store).snapshots@.len() > 0 ==> old(store).snapshots@.last().timestamp
            < timestamp,
        contests_total(spec_normalize(records.deep_view())) <= i64::MAX,
        old(store).districts@.len() + spec_normalize(records.deep_view()).len()
            <= usize::MAX,
    ensures
        final(store).wf(),
        r matches CycleOutcome::MalformedBatch(ix) ==> {
            &&& !all_records_ok(records.deep_view())
            &&& 0 <= ix < records.deep_view().len()
            &&& !record_ok(records.deep_view()[ix as int])
            &&& *final(store) == *old(store)
        },
        !all_records_ok(records.deep_view()) ==> r matches CycleOutcome::MalformedBatch(ix),
        all_records_ok(records.deep_view()) && !spec_is_changed(
            spec_latest_total(*old(store)),
            contests_total(spec_normalize(records.deep_view())),
        ) ==> r == CycleOutcome::Unchanged && *final(store) == *old(store),
        all_records_ok(records.deep_view()) && spec_is_changed(
            spec_latest_total(*old(store)),
            contests_total(spec_normalize(records.deep_view())),
        ) && fault ==> r == CycleOutcome::WriteFailed && *final(store) == *old(store),
        all_records_ok(records.deep_view()) && spec_is_changed(
            spec_latest_total(*old(store)),
            contests_total(spec_normalize(records.deep_view())),
        ) && !fault ==> {
            let total = contests_total(spec_normalize(records.deep_view()));
            &&& r == CycleOutcome::Updated(old(store).snapshots@.len() as u64)
            &&& final(store).snapshots@ == old(store).snapshots@.push(
                SnapshotRow {
                    id: old(store).snapshots@.len() as u64,
                    timestamp,
                    total_votes: total as i64,
                },
            )
            &&& spec_latest_total(*final(store)) == Option::Some(total as i64)
            &&& snapshot_contests(*final(store), old(store).snapshots@.len() as int)
                == spec_normalize(records.deep_view())
            &&& forall|s: int| 0 <= s < old(store).snapshots@.len()
                ==> #[trigger] snapshot_contests(*final(store), s) == snapshot_contests(
                *old(store),
                s,
            )
        },
{
    let ghost rdv = records.deep_view();
    let contests = match normalize(records) {
        Result::Ok(cs) => cs,
        Result::Err(IngestError::MalformedRecord(ix)) => {
            return CycleOutcome::MalformedBatch(ix);
        },
    };
    let total = total_votes(&contests);
    let prior = store.latest_total_votes();
    if !is_changed(prior, total) {
        return CycleOutcome::Unchanged;
    }
    proof {
        lemma_normalize_distinct(rdv);
        assert(deep_views_of(contests@) =~= contests.deep_view());
    }
    let ghost pre = *store;
    match store.write_snapshot(timestamp, &contests, total, fault) {
        Result::Ok(sid) => {
            proof {
                lemma_write_round_trip(pre, *store, contests@, timestamp, total);
                assert forall|s: int| 0 <= s < pre.snapshots@.len() implies #[trigger] snapshot_contests(
                    *store,
                    s,
                ) == snapshot_contests(pre, s) by {
                    lemma_write_preserves_history(pre, *store, contests@, timestamp, total, s);
                }
            }
            CycleOutcome::Updated(sid)
        },
        Result::Err(StoreError::WriteFailed) => CycleOutcome::WriteFailed,
    }
}

/// Idempotent no-op: once a cycle has persisted a batch — `after` below is
/// the store exactly as `run_cycle` leaves it when it writes — a second
/// cycle over byte-identical source data finds the stored fingerprint
/// equal to its own, because normalization is a pure function of the
/// records. The change detector then reports "unchanged", and by
/// `run_cycle`'s contract the second cycle leaves the store untouched.
pub proof fn lemma_identical_batch_is_unchanged(
    before: SnapshotStore,
    after: SnapshotStore,
    rs: Seq<crate::model::RawRecordView>,
    timestamp: i64,
)
    requires
        after.snapshots@ == before.snapshots@.push(
            SnapshotRow {
                id: before.snapshots@.len() as u64,
                timestamp,
                total_votes: contests_total(spec_normalize(rs)) as i64,
            },
        ),
        contests_total(spec_normalize(rs)) <= i64::MAX,
    ensures
        !spec_is_changed(spec_latest_total(after), contests_total(spec_normalize(rs))),
{
    crate::detect::lemma_contests_total_nonneg(spec_normalize(rs));
}

/// Contest id stability: when two snapshots each came from a batch whose
/// records carry a given contest id — district attributes free to differ —
/// both snapshots hold a contest with exactly that natural id, so a
/// consumer querying both can correlate them by the id alone.
pub proof fn lemma_contest_id_stability(
    s: SnapshotStore,
    sid1: int,
    sid2: int,
    rs1: Seq<crate::model::RawRecordView>,
    rs2: Seq<crate::model::RawRecordView>,
    id: u32,
)
    requires
        snapshot_contests(s, sid1) == spec_normalize(rs1),
        snapshot_contests(s, sid2) == spec_normalize(rs2),
        records_have_id(rs1, id),
        records_have_id(rs2, id),
    ensures
        contests_have_id(snapshot_contests(s, sid1), id),
        contests_have_id(snapshot_contests(s, sid2), id),
{
    lemma_normalize_has_id(rs1, id);
    lemma_normalize_has_id(rs2, id);
}

} // verus!
