use std::cell::RefCell;
use std::collections::HashMap;

use backfill_derived_data::backfill::{backfill, backfill_plan, BackfillError, BackfillProgress, BackfillStats};
use backfill_derived_data::blobstore::{Blobstore, MemBlobstore, MemWritesBlobstore, StoreError};
use backfill_derived_data::codec::CommitEntry;
use backfill_derived_data::derive::{
    derived_data_utils, mapping_key_of, BonsaiDerived, DeriveError, DerivedUtilsFromMapping,
    RegenerateMapping,
};
use backfill_derived_data::ids::ChangesetId;
use backfill_derived_data::kinds::{DerivedDataKind, UnsupportedKind};
use backfill_derived_data::tail::{tail_iteration, tail_pending, TailOutcome, TAIL_IDLE_SLEEP_MS};

fn id(n: u8) -> ChangesetId {
    ChangesetId::new([n; 32])
}

/// Derives a root made of the kind's first letter and the commit's first byte,
/// and counts its calls per commit.
struct Counting {
    calls: RefCell<HashMap<u8, usize>>,
    fail_on: Option<u8>,
}

impl Counting {
    fn new() -> Self {
        Counting { calls: RefCell::new(HashMap::new()), fail_on: None }
    }
    fn total(&self) -> usize {
        self.calls.borrow().values().sum()
    }
    fn count(&self, n: u8) -> usize {
        *self.calls.borrow().get(&n).unwrap_or(&0)
    }
}

impl BonsaiDerived for Counting {
    fn derive_root(&self, kind: DerivedDataKind, csid: &ChangesetId) -> Result<Vec<u8>, DeriveError> {
        *self.calls.borrow_mut().entry(csid.bytes[0]).or_insert(0) += 1;
        if self.fail_on == Some(csid.bytes[0]) {
            return Err(DeriveError::Failed);
        }
        Ok(vec![kind.name_bytes()[0], csid.bytes[0]])
    }
}

struct Chunks(Vec<(usize, usize, usize)>);

impl BackfillProgress for Chunks {
    fn chunk_done(&mut self, done: usize, total: usize, chunk_len: usize) {
        self.0.push((done, total, chunk_len));
    }
}

fn utils(kind: DerivedDataKind) -> DerivedUtilsFromMapping {
    DerivedUtilsFromMapping::new(RegenerateMapping::new(kind))
}

fn chain(n: u8) -> Vec<CommitEntry> {
    (0..n)
        .map(|i| CommitEntry {
            cs_id: id(i + 1),
            gen: i as u64,
            parents: if i == 0 { vec![] } else { vec![id(i)] },
        })
        .collect()
}

#[test]
fn kinds_by_name() {
    assert_eq!(DerivedDataKind::from_name("unodes"), Ok(DerivedDataKind::Unodes));
    assert_eq!(DerivedDataKind::from_name("fastlog"), Ok(DerivedDataKind::Fastlog));
    assert_eq!(DerivedDataKind::from_name("unode"), Err(UnsupportedKind));
    assert_eq!(DerivedDataKind::from_name(""), Err(UnsupportedKind));
    assert_eq!(DerivedDataKind::Fastlog.name_bytes(), b"fastlog".to_vec());
    assert!(derived_data_utils("hgchangesets").is_err());
    assert_eq!(derived_data_utils("unodes").unwrap().get_kind(), DerivedDataKind::Unodes);
}

#[test]
fn mapping_key_layout() {
    let mut expected = b"unodes.".to_vec();
    expected.extend_from_slice(&[4u8; 32]);
    assert_eq!(mapping_key_of(DerivedDataKind::Unodes, &id(4)), expected);
}

#[test]
fn staged_writes_reach_the_durable_store_on_persist() {
    let mut store = MemWritesBlobstore::new(MemBlobstore::new());
    store.put(b"a".to_vec(), b"1".to_vec()).unwrap();
    store.put(b"a".to_vec(), b"2".to_vec()).unwrap();
    assert_eq!(store.get(&b"a".to_vec()), Ok(Some(b"2".to_vec())));
    assert_eq!(store.inner().get(&b"a".to_vec()), Ok(None));
    assert_eq!(store.inner().write_count(), 0);
    store.persist().unwrap();
    assert_eq!(store.staged_len(), 0);
    assert_eq!(store.inner().get(&b"a".to_vec()), Ok(Some(b"2".to_vec())));
    assert_eq!(store.get(&b"a".to_vec()), Ok(Some(b"2".to_vec())));
    assert_eq!(store.get(&b"b".to_vec()), Ok(None));
}

#[test]
fn failed_persist_keeps_the_buffer() {
    let mut durable = MemBlobstore::new();
    durable.set_read_only(true);
    let mut store = MemWritesBlobstore::new(durable);
    store.put(b"k".to_vec(), b"v".to_vec()).unwrap();
    assert_eq!(store.persist(), Err(StoreError::Rejected));
    assert_eq!(store.staged_len(), 1);
    assert_eq!(store.get(&b"k".to_vec()), Ok(Some(b"v".to_vec())));
}

#[test]
fn derive_twice_writes_once() {
    let algo = Counting::new();
    let mut store = MemWritesBlobstore::new(MemBlobstore::new());
    let mut u = utils(DerivedDataKind::Unodes);
    u.derive(&algo, &mut store, &id(1)).unwrap();
    store.persist().unwrap();
    assert_eq!(store.inner().write_count(), 1);
    let key = mapping_key_of(DerivedDataKind::Unodes, &id(1));
    let root = store.get(&key).unwrap();
    assert_eq!(root, Some(vec![b'u', 1]));
    u.derive(&algo, &mut store, &id(1)).unwrap();
    assert_eq!(store.staged_len(), 0);
    store.persist().unwrap();
    assert_eq!(store.inner().write_count(), 1);
    assert_eq!(algo.count(1), 1);
    assert_eq!(store.get(&key).unwrap(), root);
}

#[test]
fn pending_before_and_after_derive() {
    let algo = Counting::new();
    let mut store = MemBlobstore::new();
    let mut u = utils(DerivedDataKind::Fastlog);
    let all = vec![id(1), id(2), id(3)];
    assert_eq!(u.pending(&store, &all), Ok(all.clone()));
    u.derive(&algo, &mut store, &id(2)).unwrap();
    assert_eq!(u.pending(&store, &all), Ok(vec![id(1), id(3)]));
    assert_eq!(u.pending(&store, &vec![]), Ok(vec![]));
}

#[test]
fn regenerate_forces_and_derive_clears() {
    let algo = Counting::new();
    let mut store = MemBlobstore::new();
    let mut unodes = utils(DerivedDataKind::Unodes);
    let mut fastlog = utils(DerivedDataKind::Fastlog);
    unodes.derive(&algo, &mut store, &id(5)).unwrap();
    fastlog.derive(&algo, &mut store, &id(5)).unwrap();
    unodes.regenerate(&vec![id(5)]);
    assert_eq!(unodes.pending(&store, &vec![id(5)]), Ok(vec![id(5)]));
    assert_eq!(fastlog.pending(&store, &vec![id(5)]), Ok(vec![]));
    unodes.derive(&algo, &mut store, &id(5)).unwrap();
    assert_eq!(algo.count(5), 3);
    assert_eq!(unodes.pending(&store, &vec![id(5)]), Ok(vec![]));
}

#[test]
fn failed_derivation_records_nothing() {
    let mut algo = Counting::new();
    algo.fail_on = Some(2);
    let mut store = MemBlobstore::new();
    let mut u = utils(DerivedDataKind::Unodes);
    assert_eq!(u.derive(&algo, &mut store, &id(2)), Err(DeriveError::Failed));
    assert_eq!(u.pending(&store, &vec![id(2)]), Ok(vec![id(2)]));
}

#[test]
fn plan_orders_by_generation_and_skips() {
    let mut entries = vec![
        CommitEntry { cs_id: id(3), gen: 2, parents: vec![id(2)] },
        CommitEntry { cs_id: id(1), gen: 0, parents: vec![] },
        CommitEntry { cs_id: id(4), gen: 1, parents: vec![id(1)] },
        CommitEntry { cs_id: id(2), gen: 1, parents: vec![id(1)] },
    ];
    let plan = backfill_plan(&mut entries.clone(), 0);
    assert_eq!(plan, vec![id(1), id(4), id(2), id(3)]);
    assert_eq!(backfill_plan(&mut entries, 2), vec![id(2), id(3)]);
    assert_eq!(backfill_plan(&mut chain(3), 3), vec![]);
    assert_eq!(backfill_plan(&mut chain(3), 10), vec![]);
}

#[test]
fn backfill_ordering_puts_parents_first() {
    let mut entries = chain(6);
    entries.reverse();
    let plan = backfill_plan(&mut entries, 0);
    let chunk = 4;
    for (pos, c) in plan.iter().enumerate() {
        // the commit of generation g is id(g + 1); its parent is id(g)
        let gen = (c.bytes[0] - 1) as usize;
        assert_eq!(pos, gen);
        if gen > 0 {
            let parent_pos = plan.iter().position(|p| p.bytes[0] == c.bytes[0] - 1).unwrap();
            assert!(parent_pos / chunk <= pos / chunk);
        }
    }
}

#[test]
fn backfill_five_commit_chain() {
    let algo = Counting::new();
    let mut store = MemWritesBlobstore::new(MemBlobstore::new());
    let mut u = utils(DerivedDataKind::Unodes);
    let mut entries = chain(5);
    let ids = backfill_plan(&mut entries, 0);
    let mut progress = Chunks(vec![]);
    let stats = backfill(&mut u, &algo, &mut store, &ids, 2, false, &mut progress).unwrap();
    assert_eq!(stats, BackfillStats { chunks: 3, derived: 5 });
    assert_eq!(progress.0, vec![(2, 5, 2), (4, 5, 2), (5, 5, 1)]);
    assert_eq!(algo.total(), 5);
    for n in 1..=5 {
        assert_eq!(algo.count(n), 1);
    }
    assert_eq!(u.pending(&store, &ids), Ok(vec![]));
    assert_eq!(u.pending(store.inner(), &ids), Ok(vec![]));
    assert_eq!(store.staged_len(), 0);
    assert_eq!(store.inner().write_count(), 5);
}

#[test]
fn backfill_skips_derived_and_regenerates_on_request() {
    let algo = Counting::new();
    let mut store = MemWritesBlobstore::new(MemBlobstore::new());
    let mut u = utils(DerivedDataKind::Fastlog);
    let ids = backfill_plan(&mut chain(4), 0);
    let mut progress = Chunks(vec![]);
    backfill(&mut u, &algo, &mut store, &ids, 3, false, &mut progress).unwrap();
    let again = backfill(&mut u, &algo, &mut store, &ids, 3, false, &mut progress).unwrap();
    assert_eq!(again, BackfillStats { chunks: 2, derived: 0 });
    assert_eq!(algo.total(), 4);
    let forced = backfill(&mut u, &algo, &mut store, &ids, 3, true, &mut progress).unwrap();
    assert_eq!(forced, BackfillStats { chunks: 2, derived: 4 });
    assert_eq!(algo.total(), 8);
}

#[test]
fn backfill_stops_at_a_failing_commit() {
    let mut algo = Counting::new();
    algo.fail_on = Some(3);
    let mut store = MemWritesBlobstore::new(MemBlobstore::new());
    let mut u = utils(DerivedDataKind::Unodes);
    let ids = backfill_plan(&mut chain(5), 0);
    let mut progress = Chunks(vec![]);
    assert_eq!(
        backfill(&mut u, &algo, &mut store, &ids, 2, false, &mut progress),
        Err(BackfillError::Chunk(DeriveError::Failed))
    );
    assert_eq!(progress.0, vec![(2, 5, 2)]);
    assert_eq!(algo.count(4), 0);
    assert_eq!(u.pending(store.inner(), &ids), Ok(vec![id(3), id(4), id(5)]));
}

#[test]
fn backfill_of_nothing() {
    let algo = Counting::new();
    let mut store = MemWritesBlobstore::new(MemBlobstore::new());
    let mut u = utils(DerivedDataKind::Unodes);
    let mut progress = Chunks(vec![]);
    let stats = backfill(&mut u, &algo, &mut store, &vec![], 4096, false, &mut progress).unwrap();
    assert_eq!(stats, BackfillStats { chunks: 0, derived: 0 });
}

#[test]
fn tail_with_nothing_pending_is_idle() {
    let algo = Counting::new();
    let mut store = MemBlobstore::new();
    let mut us = vec![utils(DerivedDataKind::Unodes), utils(DerivedDataKind::Fastlog)];
    let heads = vec![id(1), id(2)];
    for u in us.iter_mut() {
        for h in &heads {
            u.derive(&algo, &mut store, h).unwrap();
        }
    }
    let before = algo.total();
    assert_eq!(tail_iteration(&mut us, &algo, &mut store, &heads), Ok(TailOutcome::Idle));
    assert_eq!(algo.total(), before);
    assert_eq!(TAIL_IDLE_SLEEP_MS, 250);
}

#[test]
fn tail_derives_pending_heads_of_every_kind() {
    let algo = Counting::new();
    let mut store = MemBlobstore::new();
    let mut us = vec![utils(DerivedDataKind::Unodes), utils(DerivedDataKind::Fastlog)];
    us[0].derive(&algo, &mut store, &id(1)).unwrap();
    let heads = vec![id(1), id(2)];
    assert_eq!(tail_pending(&us, &store, &heads), Ok(vec![(0, id(2)), (1, id(1)), (1, id(2))]));
    assert_eq!(tail_iteration(&mut us, &algo, &mut store, &heads), Ok(TailOutcome::Derived(3)));
    assert_eq!(tail_iteration(&mut us, &algo, &mut store, &heads), Ok(TailOutcome::Idle));
    assert_eq!(tail_iteration(&mut us, &algo, &mut store, &vec![]), Ok(TailOutcome::Idle));
}

#[test]
fn derive_into_a_read_only_store_fails() {
    let algo = Counting::new();
    let mut store = MemBlobstore::new();
    store.set_read_only(true);
    let mut u = utils(DerivedDataKind::Unodes);
    assert_eq!(u.derive(&algo, &mut store, &id(1)), Err(DeriveError::Store(StoreError::Rejected)));
    assert_eq!(store.write_count(), 0);
    store.set_read_only(false);
    u.derive(&algo, &mut store, &id(1)).unwrap();
    assert_eq!(store.write_count(), 1);
}

struct MissingParents;

impl BonsaiDerived for MissingParents {
    fn derive_root(&self, _kind: DerivedDataKind, _csid: &ChangesetId) -> Result<Vec<u8>, DeriveError> {
        Err(DeriveError::MissingDependency)
    }
}

#[test]
fn derivation_errors_propagate_from_tail() {
    let mut store = MemBlobstore::new();
    let mut us = vec![utils(DerivedDataKind::Fastlog)];
    assert_eq!(
        tail_iteration(&mut us, &MissingParents, &mut store, &vec![id(9)]),
        Err(DeriveError::MissingDependency)
    );
    assert_eq!(store.write_count(), 0);
}

#[test]
fn overlay_hands_back_the_durable_store() {
    let mut durable = MemBlobstore::new();
    durable.put(b"old".to_vec(), b"1".to_vec()).unwrap();
    let mut store = MemWritesBlobstore::new(durable);
    store.put(b"new".to_vec(), b"2".to_vec()).unwrap();
    assert_eq!(store.get(&b"old".to_vec()), Ok(Some(b"1".to_vec())));
    store.persist().unwrap();
    store.put(b"dropped".to_vec(), b"3".to_vec()).unwrap();
    let back = store.into_inner();
    assert_eq!(back.write_count(), 2);
    assert_eq!(back.writes(), &vec![(b"old".to_vec(), b"1".to_vec()), (b"new".to_vec(), b"2".to_vec())]);
    assert_eq!(back.get(&b"dropped".to_vec()), Ok(None));
}

#[test]
fn pending_of_marked_commits_needs_no_lookup() {
    let algo = Counting::new();
    let mut store = MemBlobstore::new();
    let mut u = utils(DerivedDataKind::Unodes);
    u.derive(&algo, &mut store, &id(1)).unwrap();
    u.regenerate(&vec![id(1), id(2)]);
    assert_eq!(u.pending(&store, &vec![id(2), id(1)]), Ok(vec![id(2), id(1)]));
}

#[test]
fn persist_of_an_empty_buffer_succeeds() {
    let mut durable = MemBlobstore::new();
    durable.set_read_only(true);
    let mut store = MemWritesBlobstore::new(durable);
    assert_eq!(store.persist(), Ok(()));
}

#[test]
fn backfill_resumes_after_the_persisted_chunks() {
    let mut algo = Counting::new();
    algo.fail_on = Some(4);
    let mut store = MemWritesBlobstore::new(MemBlobstore::new());
    let mut u = utils(DerivedDataKind::Fastlog);
    let ids = backfill_plan(&mut chain(6), 0);
    let mut progress = Chunks(vec![]);
    assert!(backfill(&mut u, &algo, &mut store, &ids, 2, false, &mut progress).is_err());
    assert_eq!(u.pending(store.inner(), &ids), Ok(vec![id(3), id(4), id(5), id(6)]));
    // the run stopped in the second chunk: commit 3 was derived but not persisted
    assert_eq!(u.pending(&store, &ids), Ok(vec![id(4), id(5), id(6)]));
    store.persist().unwrap();
    algo.fail_on = None;
    let rest = backfill_plan(&mut chain(6), 2);
    let stats = backfill(&mut u, &algo, &mut store, &rest, 2, false, &mut progress).unwrap();
    // commit 3 was derived into the overlay before commit 4 failed, and stays there
    assert_eq!(stats, BackfillStats { chunks: 2, derived: 3 });
    assert_eq!(algo.count(3), 1);
    assert_eq!(u.pending(store.inner(), &ids), Ok(vec![]));
}

#[test]
fn backfill_keeps_the_chunk_staged_when_persist_fails() {
    let algo = Counting::new();
    let mut durable = MemBlobstore::new();
    durable.set_read_only(true);
    let mut store = MemWritesBlobstore::new(durable);
    let mut u = utils(DerivedDataKind::Unodes);
    let ids = backfill_plan(&mut chain(3), 0);
    let mut progress = Chunks(vec![]);
    assert_eq!(
        backfill(&mut u, &algo, &mut store, &ids, 2, false, &mut progress),
        Err(BackfillError::Persist(StoreError::Rejected))
    );
    assert_eq!(store.staged_len(), 2);
    assert_eq!(u.pending(&store, &ids), Ok(vec![id(3)]));
    assert_eq!(u.pending(store.inner(), &ids), Ok(ids.clone()));
    assert!(progress.0.is_empty());
}

#[test]
fn backfill_of_a_derived_plan_succeeds_without_deriving() {
    let algo = Counting::new();
    let mut store = MemWritesBlobstore::new(MemBlobstore::new());
    let mut u = utils(DerivedDataKind::Unodes);
    let ids = backfill_plan(&mut chain(5), 0);
    let mut progress = Chunks(vec![]);
    backfill(&mut u, &algo, &mut store, &ids, 2, false, &mut progress).unwrap();
    let again = backfill(&mut u, &algo, &mut store, &ids, 2, false, &mut progress).unwrap();
    assert_eq!(again, BackfillStats { chunks: 3, derived: 0 });
    assert_eq!(algo.total(), 5);
}

#[test]
fn record_root_passes_on_a_failed_derivation() {
    let mut store = MemBlobstore::new();
    let mut u = utils(DerivedDataKind::Unodes);
    assert_eq!(u.record_root(&mut store, &id(7), Err(DeriveError::MissingDependency)), Err(DeriveError::MissingDependency));
    assert_eq!(store.write_count(), 0);
    u.record_root(&mut store, &id(7), Ok(vec![9, 9])).unwrap();
    assert_eq!(store.get(&mapping_key_of(DerivedDataKind::Unodes, &id(7))), Ok(Some(vec![9, 9])));
    assert_eq!(u.pending(&store, &vec![id(7)]), Ok(vec![]));
}
