//! The backfill driver: orders a snapshot of commits by generation, then
//! derives them chunk by chunk, persisting the staged writes after each chunk.
use vstd::prelude::*;
use crate::blobstore::{Blobstore, MemWritesBlobstore, StoreError};
use crate::codec::{CommitEntry, CommitEntryModel, entries_view};
use crate::blobstore::changed_only_at;
use crate::derive::{
    lemma_derived_monotone, lemma_mapping_key_injective, lemma_pending_exact, mapping_key, BonsaiDerived,
    DeriveError, DerivedUtilsFromMapping,
};
use crate::ids::{ChangesetId, ids_view, ID_LEN};
use crate::kinds::DerivedDataKind;
use crate::windows::{lemma_window_count, lemma_window_seq_tiles, next_window, tiles, window_seq};

verus! {

/// Generations never decrease along `s`.
pub open spec fn gens_sorted(s: Seq<CommitEntryModel>) -> bool {
    forall|i: int, j: int| 0 <= i < j < s.len() ==> s[i].gen <= s[j].gen
}

/// The entries of generation `g`, in their order.
pub open spec fn of_generation(s: Seq<CommitEntryModel>, g: u64) -> Seq<CommitEntryModel> {
    s.filter(|e: CommitEntryModel| e.gen == g)
}

/// `s` is `es` sorted by generation, entries of one generation in the order
/// they had.
pub open spec fn generation_order(s: Seq<CommitEntryModel>, es: Seq<CommitEntryModel>) -> bool {
    &&& gens_sorted(s)
    &&& forall|g: u64| #[trigger] of_generation(s, g) == of_generation(es, g)
}

/// The identifiers of `s` after its first `skip` entries.
pub open spec fn plan_of(s: Seq<CommitEntryModel>, skip: nat) -> Seq<Seq<u8>> {
    if skip >= s.len() {
        Seq::empty()
    } else {
        s.skip(skip as int).map_values(|e: CommitEntryModel| e.id)
    }
}

/// Relies on `slice::sort_by_key` with the generation as key: it sorts, and
/// it is stable, so entries of one generation keep their order.
#[verifier::external_body]
fn sort_by_generation(entries: &mut Vec<CommitEntry>)
    ensures
        generation_order(entries_view(final(entries)@), entries_view(old(entries)@)),
{
    entries.sort_by_key(|e| e.gen);
}

/// Sorts the snapshot by generation and gives the identifiers to derive,
/// after the first `skip`.
pub fn backfill_plan(entries: &mut Vec<CommitEntry>, skip: usize) -> (r: Vec<ChangesetId>)
    ensures
        generation_order(entries_view(final(entries)@), entries_view(old(entries)@)),
        ids_view(r@) == plan_of(entries_view(final(entries)@), skip as nat),
{
    sort_by_generation(entries);
    let mut out: Vec<ChangesetId> = Vec::new();
    if skip >= entries.len() {
        assert(ids_view(out@) =~= Seq::<Seq<u8>>::empty());
        return out;
    }
    let mut i: usize = skip;
    while i < entries.len()
        invariant
            skip <= i <= entries@.len(),
            ids_view(out@) == entries_view(entries@).subrange(skip as int, i as int).map_values(
                |e: CommitEntryModel| e.id,
            ),
        decreases entries@.len() - i,
    {
        let ghost before = out@;
        out.push(entries[i].cs_id);
        assert(ids_view(out@) =~= ids_view(before).push(entries@[i as int].cs_id@));
        assert(entries_view(entries@)[i as int].id == entries@[i as int].cs_id@);
        assert(ids_view(out@) =~= entries_view(entries@).subrange(skip as int, i + 1).map_values(
            |e: CommitEntryModel| e.id,
        ));
        i += 1;
    }
    assert(entries_view(entries@).subrange(skip as int, entries@.len() as int) =~= entries_view(
        entries@,
    ).skip(skip as int));
    out
}

/// Reports the progress of a backfill.
pub trait BackfillProgress {
    /// Called after each persisted chunk, with the number of commits derived
    /// so far, the number of commits in the plan, and the number derived in
    /// the chunk.
    fn chunk_done(&mut self, derived: usize, total: usize, chunk_derived: usize);
}

/// What a backfill did.
#[derive(Clone, Copy, Debug, PartialEq, Eq, Structural)]
pub struct BackfillStats {
    /// The chunks derived and persisted.
    pub chunks: usize,
    /// The commits derived, those already derived left out.
    pub derived: usize,
}

/// The key of a commit's own blob: `changeset.` followed by its identifier.
pub open spec fn changeset_key(id: Seq<u8>) -> Seq<u8> {
    seq![99u8, 104, 97, 110, 103, 101, 115, 101, 116, 46] + id
}

fn changeset_key_of(csid: &ChangesetId) -> (r: Vec<u8>)
    ensures
        r@ == changeset_key(csid@),
{
    let mut r: Vec<u8> = vec![99u8, 104, 97, 110, 103, 101, 115, 101, 116, 46];
    let ghost head = r@;
    let mut i: usize = 0;
    while i < ID_LEN
        invariant
            0 <= i <= ID_LEN,
            csid@.len() == ID_LEN,
            r@ == head + csid@.take(i as int),
            head == seq![99u8, 104, 97, 110, 103, 101, 115, 101, 116, 46],
        decreases ID_LEN - i,
    {
        r.push(csid.bytes[i]);
        assert(csid@.take(i + 1) =~= csid@.take(i as int).push(csid@[i as int]));
        i += 1;
    }
    assert(csid@.take(ID_LEN as int) =~= csid@);
    r
}

/// The mapping keys of those of `ids` that are due: all of them with
/// `regenerate`, else those not derived in `contents`.
pub open spec fn due_keys(
    u: DerivedUtilsFromMapping,
    contents: Map<Seq<u8>, Seq<u8>>,
    ids: Seq<Seq<u8>>,
    regenerate: bool,
) -> Set<Seq<u8>> {
    Set::new(
        |key: Seq<u8>|
            exists|j: int|
                0 <= j < ids.len() && (regenerate || !u.derived(contents, ids[j])) && key
                    == mapping_key(u.kind(), #[trigger] ids[j]),
    )
}

/// Why a backfill stopped.
#[derive(Clone, Copy, Debug, PartialEq, Eq, Structural)]
pub enum BackfillError {
    /// Reading, finding the pending commits of, or deriving a chunk failed.
    Chunk(DeriveError),
    /// Persisting a derived chunk failed; its writes stay staged.
    Persist(StoreError),
}

/// Whether a backfill stopped because persisting failed.
pub open spec fn is_persist_failure(r: Result<BackfillStats, BackfillError>) -> bool {
    r matches Err(BackfillError::Persist(_))
}

/// Where the chunk that starts at `start` ends, in a plan of `n` commits.
pub open spec fn chunk_end(start: int, size: int, n: int) -> int {
    if start + size < n {
        start + size
    } else {
        n
    }
}

/// Where chunk `c` of width `size` starts.
pub open spec fn chunk_start(c: int, size: int) -> int {
    c * size
}

/// The first `len` commits of `ids` are derived.
pub open spec fn derived_prefix(
    u: DerivedUtilsFromMapping,
    contents: Map<Seq<u8>, Seq<u8>>,
    ids: Seq<ChangesetId>,
    len: int,
) -> bool {
    forall|j: int| 0 <= j < len ==> u.derived(contents, #[trigger] ids[j]@)
}

/// The mapping keys under `kind` of the first `len` commits of `ids`.
pub open spec fn prefix_keys(kind: DerivedDataKind, ids: Seq<ChangesetId>, len: int) -> Set<Seq<u8>> {
    Set::new(
        |key: Seq<u8>|
            exists|j: int| 0 <= j < len && j < ids.len() && key == mapping_key(kind, #[trigger] ids[j]@),
    )
}

/// A run over `ids` in chunks of `size` stopped in chunk `c`: the chunks
/// before it are derived in the durable store, the store changed only at the
/// mapping keys of commits up to the end of chunk `c`, and the durable store,
/// unless persisting chunk `c` failed, only at those of the chunks before it.
/// When persisting failed, the writes of chunk `c` are still seen by reads.
pub open spec fn stopped_at(
    u: DerivedUtilsFromMapping,
    before: Map<Seq<u8>, Seq<u8>>,
    after: Map<Seq<u8>, Seq<u8>>,
    durable_before: Map<Seq<u8>, Seq<u8>>,
    durable_after: Map<Seq<u8>, Seq<u8>>,
    ids: Seq<ChangesetId>,
    size: int,
    c: int,
    persist_failed: bool,
) -> bool {
    let start = chunk_start(c, size);
    let end = chunk_end(start, size, ids.len() as int);
    &&& 0 <= start < ids.len()
    &&& derived_prefix(u, durable_after, ids, start)
    &&& changed_only_at(before, after, prefix_keys(u.kind(), ids, end))
    &&& !persist_failed ==> changed_only_at(
        durable_before,
        durable_after,
        prefix_keys(u.kind(), ids, start),
    )
    &&& persist_failed ==> derived_prefix(u, after, ids, end)
}

proof fn lemma_changed_only_at_weaken(
    a: Map<Seq<u8>, Seq<u8>>,
    b: Map<Seq<u8>, Seq<u8>>,
    s1: Set<Seq<u8>>,
    s2: Set<Seq<u8>>,
)
    requires
        changed_only_at(a, b, s1),
        s1.subset_of(s2),
    ensures
        changed_only_at(a, b, s2),
{
}

proof fn lemma_prefix_keys_grow(kind: DerivedDataKind, ids: Seq<ChangesetId>, l1: int, l2: int)
    requires
        l1 <= l2,
    ensures
        prefix_keys(kind, ids, l1).subset_of(prefix_keys(kind, ids, l2)),
{
    assert forall|key: Seq<u8>| prefix_keys(kind, ids, l1).contains(key) implies prefix_keys(
        kind,
        ids,
        l2,
    ).contains(key) by {
        let j = choose|j: int| 0 <= j < l1 && j < ids.len() && key == mapping_key(kind, #[trigger] ids[j]@);
        assert(key == mapping_key(kind, ids[j]@));
    }
}

proof fn lemma_filter_all<A>(s: Seq<A>, pred: spec_fn(A) -> bool)
    requires
        forall|i: int| 0 <= i < s.len() ==> pred(#[trigger] s[i]),
    ensures
        s.filter(pred) == s,
    decreases s.len(),
{
    reveal(Seq::filter);
    if s.len() > 0 {
        let init = s.drop_last();
        assert forall|i: int| 0 <= i < init.len() implies pred(#[trigger] init[i]) by {
            assert(init[i] == s[i]);
        }
        lemma_filter_all(init, pred);
        assert(init.push(s.last()) =~= s);
    }
}

fn chunk_of(ids: &Vec<ChangesetId>, low: usize, hi: usize) -> (r: Vec<ChangesetId>)
    requires
        low <= hi <= ids@.len(),
    ensures
        r@ == ids@.subrange(low as int, hi as int),
{
    let mut chunk: Vec<ChangesetId> = Vec::new();
    let mut p: usize = low;
    while p < hi
        invariant
            low <= p <= hi <= ids@.len(),
            chunk@ == ids@.subrange(low as int, p as int),
        decreases hi - p,
    {
        chunk.push(ids[p]);
        assert(chunk@ =~= ids@.subrange(low as int, p + 1));
        p += 1;
    }
    chunk
}

/// Reads each commit's own blob, to warm the store before derivation.
fn prefetch<S: Blobstore>(store: &S, chunk: &Vec<ChangesetId>) -> (r: Result<(), StoreError>)
    ensures
        store.reliable() ==> r is Ok,
{
    let mut q: usize = 0;
    while q < chunk.len()
        invariant
            0 <= q <= chunk@.len(),
        decreases chunk@.len() - q,
    {
        match store.get(&changeset_key_of(&chunk[q])) {
            Ok(_) => {},
            Err(e) => {
                return Err(e);
            },
        }
        q += 1;
    }
    Ok(())
}

/// Derives every commit of `ids`, in chunks of `chunk_size` taken in order:
/// for each chunk, reads each commit's blob to warm the store, finds the
/// pending commits, derives them, and persists the staged writes. With
/// `regenerate`, every commit of `ids` is first marked for regeneration. The
/// first failure ends the run; the chunks persisted before it stay derived in
/// the durable store, so a run can resume after them.
pub fn backfill<A: BonsaiDerived, B: Blobstore, P: BackfillProgress>(
    utils: &mut DerivedUtilsFromMapping,
    algorithm: &A,
    store: &mut MemWritesBlobstore<B>,
    ids: &Vec<ChangesetId>,
    chunk_size: usize,
    regenerate: bool,
    progress: &mut P,
) -> (r: Result<BackfillStats, BackfillError>)
    requires
        chunk_size > 0,
        old(store).staged() == Map::<Seq<u8>, Seq<u8>>::empty(),
    ensures
        final(utils).kind() == old(utils).kind(),
        !regenerate && old(store).reliable() && (forall|j: int|
            0 <= j < ids@.len() ==> old(utils).derived(old(store).contents(), #[trigger] ids@[j]@))
            ==> r is Ok,
        ids@.len() == 0 ==> r == Ok::<BackfillStats, BackfillError>(
            BackfillStats { chunks: 0, derived: 0 },
        ),
        r is Ok ==> forall|j: int|
            0 <= j < ids@.len() ==> final(utils).derived(final(store).contents(), #[trigger] ids@[j]@),
        r is Ok ==> final(store).staged() == Map::<Seq<u8>, Seq<u8>>::empty(),
        r matches Ok(st) ==> st.chunks == window_seq(0, ids@.len() as u64, chunk_size as u64).len()
            && st.chunks == (ids@.len() + chunk_size - 1) / (chunk_size as int) && st.derived
            <= ids@.len(),
        r matches Ok(st) ==> (ids_view(ids@).no_duplicates() && (regenerate || forall|j: int|
            0 <= j < ids@.len() ==> !old(utils).derived(old(store).contents(), #[trigger] ids@[j]@))
            ==> st.derived == ids@.len()),
        r is Err ==> exists|c: int|
            #[trigger] stopped_at(
                *final(utils),
                old(store).contents(),
                final(store).contents(),
                old(store).durable(),
                final(store).durable(),
                ids@,
                chunk_size as int,
                c,
                is_persist_failure(r),
            ),
        r matches Err(BackfillError::Persist(_)) ==> final(store).staged() != Map::<
            Seq<u8>,
            Seq<u8>,
        >::empty(),
        changed_only_at(
            old(store).contents(),
            final(store).contents(),
            due_keys(*old(utils), old(store).contents(), ids_view(ids@), regenerate),
        ),
{
    if regenerate {
        utils.regenerate(ids);
    }
    let ghost kind = utils.kind();
    let ghost keys = due_keys(*old(utils), old(store).contents(), ids_view(ids@), regenerate);
    let ghost c_start = store.contents();
    let ghost u_s = *utils;
    let ghost d_start = store.durable();
    assert(c_start =~= d_start);
    let ghost fresh = ids_view(ids@).no_duplicates() && forall|j: int|
        0 <= j < ids@.len() ==> !utils.derived(c_start, #[trigger] ids@[j]@);
    proof {
        if regenerate {
            assert forall|j: int| 0 <= j < ids@.len() implies !utils.derived(
                c_start,
                #[trigger] ids@[j]@,
            ) by {
                assert(ids_view(ids@)[j] == ids@[j]@);
                assert(ids_view(ids@).to_set().contains(ids@[j]@));
            }
        }
    }
    let n = ids.len();
    let step = chunk_size as u64;
    let mut low: usize = 0;
    let mut chunks: usize = 0;
    let mut derived: usize = 0;
    let mut done = false;
    while !done
        invariant
            n == ids@.len(),
            step == chunk_size,
            step > 0,
            0 <= low <= n,
            done ==> low == n,
            low == n || low == chunks * chunk_size,
            utils.kind() == kind,
            kind == old(utils).kind(),
            keys == due_keys(*old(utils), old(store).contents(), ids_view(ids@), regenerate),
            c_start == old(store).contents(),
            u_s.kind() == kind,
            regenerate ==> forall|j: int| 0 <= j < ids@.len() ==> !u_s.derived(c_start, #[trigger] ids@[j]@),
            !regenerate ==> u_s.marked() == old(utils).marked(),
            forall|id: Seq<u8>| #[trigger] u_s.derived(c_start, id) ==> utils.derived(store.contents(), id),
            fresh ==> (ids_view(ids@).no_duplicates() && (regenerate || forall|j: int|
                0 <= j < ids@.len() ==> !old(utils).derived(old(store).contents(), #[trigger] ids@[j]@))),
            (ids_view(ids@).no_duplicates() && (regenerate || forall|j: int|
                0 <= j < ids@.len() ==> !old(utils).derived(old(store).contents(), #[trigger] ids@[j]@)))
                ==> fresh,
            chunks + window_seq(low as u64, n as u64, step).len() == window_seq(0, n as u64, step).len(),
            derived <= low,
            chunks <= low,
            forall|j: int| 0 <= j < low ==> utils.derived(store.contents(), #[trigger] ids@[j]@),
            forall|j: int| 0 <= j < low ==> utils.derived(store.durable(), #[trigger] ids@[j]@),
            store.staged() == Map::<Seq<u8>, Seq<u8>>::empty(),
            changed_only_at(c_start, store.contents(), keys),
            store.reliable() == old(store).reliable(),
            d_start == old(store).durable(),
            c_start == d_start,
            changed_only_at(c_start, store.contents(), prefix_keys(kind, ids@, low as int)),
            changed_only_at(d_start, store.durable(), prefix_keys(kind, ids@, low as int)),
            fresh ==> derived == low,
            fresh ==> forall|j: int| low <= j < n ==> !utils.derived(store.contents(), #[trigger] ids@[j]@),
        decreases n - low + if done { 0int } else { 1int },
    {
        let w = next_window(low as u64, n as u64, step);
        match w {
            None => {
                done = true;
            },
            Some((_, hi64)) => {
                let hi = hi64 as usize;
                proof {
                    lemma_window_seq_tiles(low as u64, n as u64, step);
                    assert(window_seq(low as u64, n as u64, step) == seq![(low as u64, hi64)].add(
                        window_seq(hi64, n as u64, step),
                    ));
                }
                let chunk = chunk_of(ids, low, hi);
                match prefetch(store, &chunk) {
                    Ok(()) => {},
                    Err(e) => {
                        proof {
                            assert(chunk_start(chunks as int, chunk_size as int) == low);
                            lemma_prefix_keys_grow(kind, ids@, low as int, hi as int);
                            assert(chunk_end(low as int, chunk_size as int, n as int) == hi);
                            assert(stopped_at(*utils, old(store).contents(), store.contents(), old(store).durable(), store.durable(), ids@, chunk_size as int, chunks as int, false));
                        }
                        let res: Result<BackfillStats, BackfillError> = Err(BackfillError::Chunk(DeriveError::Store(e)));
                        assert(stopped_at(*utils, old(store).contents(), store.contents(), old(store).durable(), store.durable(), ids@, chunk_size as int, chunks as int, is_persist_failure(res)));
                        return res;
                    },
                }
                let pending = match utils.pending(store, &chunk) {
                    Ok(pending) => pending,
                    Err(e) => {
                        proof {
                            assert(chunk_start(chunks as int, chunk_size as int) == low);
                            lemma_prefix_keys_grow(kind, ids@, low as int, hi as int);
                            assert(chunk_end(low as int, chunk_size as int, n as int) == hi);
                            assert(stopped_at(*utils, old(store).contents(), store.contents(), old(store).durable(), store.durable(), ids@, chunk_size as int, chunks as int, false));
                        }
                        let res: Result<BackfillStats, BackfillError> = Err(BackfillError::Chunk(DeriveError::Store(e)));
                        assert(stopped_at(*utils, old(store).contents(), store.contents(), old(store).durable(), store.durable(), ids@, chunk_size as int, chunks as int, is_persist_failure(res)));
                        return res;
                    },
                };
                let ghost d0 = store.durable();
                let ghost pred = |id: Seq<u8>| !utils.derived(store.contents(), id);
                proof {
                    assert forall|j: int| low <= j < hi implies utils.derived(
                        store.contents(),
                        #[trigger] ids@[j]@,
                    ) || ids_view(pending@).contains(ids@[j]@) by {
                        assert(ids_view(chunk@)[j - low] == ids@[j]@);
                        lemma_pending_exact(*utils, store.contents(), ids_view(chunk@), ids@[j]@);
                    }
                    assert(ids_view(pending@).subrange(0, pending@.len() as int) =~= ids_view(
                        pending@,
                    ));
                    ids_view(chunk@).lemma_filter_len(pred);
                    lemma_prefix_keys_grow(kind, ids@, low as int, hi as int);
                    assert(chunk_end(low as int, chunk_size as int, n as int) == hi);
                    assert forall|m: int| 0 <= m < pending@.len() implies prefix_keys(kind, ids@, hi as int).contains(
                        mapping_key(kind, #[trigger] pending@[m]@),
                    ) by {
                        assert(ids_view(pending@)[m] == pending@[m]@);
                        ids_view(chunk@).lemma_filter_contains_rev(pred, pending@[m]@);
                        let t = choose|t: int| 0 <= t < ids_view(chunk@).len() && ids_view(chunk@)[t]
                            == pending@[m]@;
                        assert(ids@[low + t]@ == pending@[m]@);
                    }
                    if !regenerate && old(store).reliable() && (forall|j: int|
                        0 <= j < ids@.len() ==> old(utils).derived(old(store).contents(), #[trigger] ids@[j]@)) {
                        if pending@.len() > 0 {
                            assert(ids_view(pending@)[0] == pending@[0]@);
                            ids_view(chunk@).lemma_filter_contains_rev(pred, pending@[0]@);
                            ids_view(chunk@).lemma_filter_pred(pred, 0);
                            let t = choose|t: int| 0 <= t < ids_view(chunk@).len() && ids_view(chunk@)[t]
                                == pending@[0]@;
                            assert(ids@[low + t]@ == pending@[0]@);
                            assert(u_s.derived(c_start, ids@[low + t]@));
                            assert(false);
                        }
                    }
                    assert forall|m: int| 0 <= m < pending@.len() implies keys.contains(
                        mapping_key(kind, #[trigger] pending@[m]@),
                    ) by {
                        assert(ids_view(pending@)[m] == pending@[m]@);
                        ids_view(chunk@).lemma_filter_contains_rev(pred, pending@[m]@);
                        ids_view(chunk@).lemma_filter_pred(pred, m);
                        let t = choose|t: int| 0 <= t < ids_view(chunk@).len() && ids_view(chunk@)[t]
                            == pending@[m]@;
                        let j = low + t;
                        assert(ids_view(ids@)[j] == pending@[m]@);
                        assert(!utils.derived(store.contents(), pending@[m]@));
                        assert(!u_s.derived(c_start, pending@[m]@));
                        if !regenerate {
                            assert(!old(utils).derived(old(store).contents(), ids_view(ids@)[j]));
                        }
                        assert(old(utils).kind() == kind);
                    }
                    if fresh {
                        assert forall|t: int| 0 <= t < ids_view(chunk@).len() implies pred(
                            #[trigger] ids_view(chunk@)[t],
                        ) by {
                            assert(ids_view(chunk@)[t] == ids@[low + t]@);
                        }
                        lemma_filter_all(ids_view(chunk@), pred);
                    }
                }
                proof {
                    lemma_changed_only_at_weaken(
                        c_start,
                        store.contents(),
                        prefix_keys(kind, ids@, low as int),
                        prefix_keys(kind, ids@, hi as int),
                    );
                }
                let mut k: usize = 0;
                while k < pending.len()
                    invariant
                        0 <= k <= pending@.len(),
                        pending@.len() <= hi - low,
                        low < hi <= n,
                        n == ids@.len(),
                        utils.kind() == kind,
                        kind == old(utils).kind(),
                        c_start == old(store).contents(),
                        low == chunks * chunk_size,
                        keys == due_keys(*old(utils), old(store).contents(), ids_view(ids@), regenerate),
                        store.reliable() == old(store).reliable(),
                        d_start == old(store).durable(),
                        c_start == d_start,
                        chunk_end(low as int, chunk_size as int, n as int) == hi,
                        changed_only_at(c_start, store.contents(), prefix_keys(kind, ids@, hi as int)),
                        changed_only_at(d_start, d0, prefix_keys(kind, ids@, low as int)),
                        prefix_keys(kind, ids@, low as int).subset_of(prefix_keys(kind, ids@, hi as int)),
                        forall|m: int| 0 <= m < pending@.len() ==> prefix_keys(kind, ids@, hi as int).contains(
                            mapping_key(kind, #[trigger] pending@[m]@),
                        ),
                        u_s.kind() == kind,
                        regenerate ==> forall|j: int| 0 <= j < ids@.len() ==> !u_s.derived(c_start, #[trigger] ids@[j]@),
                        !regenerate ==> u_s.marked() == old(utils).marked(),
                        forall|id: Seq<u8>| #[trigger] u_s.derived(c_start, id) ==> utils.derived(store.contents(), id),
                        store.durable() == d0,
                        forall|m: int| 0 <= m < pending@.len() ==> keys.contains(
                            mapping_key(kind, #[trigger] pending@[m]@),
                        ),
                        forall|j: int| 0 <= j < low ==> utils.derived(store.contents(), #[trigger] ids@[j]@),
                        forall|j: int| 0 <= j < low ==> utils.derived(store.durable(), #[trigger] ids@[j]@),
                        forall|j: int|
                            low <= j < hi ==> utils.derived(store.contents(), #[trigger] ids@[j]@)
                                || ids_view(pending@).subrange(k as int, pending@.len() as int).contains(
                                ids@[j]@,
                            ),
                        changed_only_at(c_start, store.contents(), keys),
                        fresh ==> ids_view(pending@) == ids_view(chunk@),
                        fresh ==> chunk@ == ids@.subrange(low as int, hi as int),
                        fresh ==> ids_view(ids@).no_duplicates(),
                        fresh ==> forall|j: int| hi <= j < n ==> !utils.derived(store.contents(), #[trigger] ids@[j]@),
                    decreases pending@.len() - k,
                {
                    let ghost u0 = *utils;
                    let ghost c0 = store.contents();
                    match utils.derive(algorithm, store, &pending[k]) {
                        Ok(()) => {},
                        Err(e) => {
                            proof {
                                lemma_derived_monotone(u0, *utils, store.durable(), store.durable());
                                assert(chunk_start(chunks as int, chunk_size as int) == low);
                                assert(store.contents() == c0);
                                assert(stopped_at(*utils, old(store).contents(), store.contents(), old(store).durable(), store.durable(), ids@, chunk_size as int, chunks as int, false));
                            }
                            let res: Result<BackfillStats, BackfillError> = Err(BackfillError::Chunk(e));
                            assert(stopped_at(*utils, old(store).contents(), store.contents(), old(store).durable(), store.durable(), ids@, chunk_size as int, chunks as int, is_persist_failure(res)));
                            return res;
                        },
                    }
                    proof {
                        lemma_derived_monotone(u0, *utils, c0, store.contents());
                        lemma_derived_monotone(u0, *utils, store.durable(), store.durable());
                        assert forall|id: Seq<u8>| #[trigger] u_s.derived(c_start, id) implies utils.derived(
                            store.contents(),
                            id,
                        ) by {
                            assert(u0.derived(c0, id));
                        }
                        let key = mapping_key(kind, pending@[k as int]@);
                        assert(keys.contains(key));
                        let pk = prefix_keys(kind, ids@, hi as int);
                        assert(pk.contains(key));
                        assert forall|k3: Seq<u8>| #[trigger] c_start.contains_key(k3)
                            implies store.contents().contains_key(k3) by {
                            assert(c0.contains_key(k3));
                        }
                        assert forall|k3: Seq<u8>| !pk.contains(k3) implies (
                        #[trigger] store.contents().contains_key(k3) == c_start.contains_key(k3) && (
                        c_start.contains_key(k3) ==> store.contents()[k3] == c_start[k3])) by {
                            assert(k3 != key);
                            assert(c0.contains_key(k3) == c_start.contains_key(k3));
                        }
                        assert(changed_only_at(c_start, store.contents(), pk));
                        assert forall|k3: Seq<u8>| #[trigger] c_start.contains_key(k3)
                            implies store.contents().contains_key(k3) by {
                            assert(c0.contains_key(k3));
                        }
                        assert forall|k3: Seq<u8>| !keys.contains(k3) implies (
                        #[trigger] store.contents().contains_key(k3) == c_start.contains_key(k3) && (
                        c_start.contains_key(k3) ==> store.contents()[k3] == c_start[k3])) by {
                            assert(k3 != key);
                            assert(c0.contains_key(k3) == c_start.contains_key(k3));
                        }
                        let rest0 = ids_view(pending@).subrange(k as int, pending@.len() as int);
                        let rest1 = ids_view(pending@).subrange(k + 1, pending@.len() as int);
                        assert forall|j: int| low <= j < hi implies utils.derived(
                            store.contents(),
                            #[trigger] ids@[j]@,
                        ) || rest1.contains(ids@[j]@) by {
                            if !u0.derived(c0, ids@[j]@) {
                                assert(rest0.contains(ids@[j]@));
                                let m = choose|m: int| 0 <= m < rest0.len() && rest0[m] == ids@[j]@;
                                if m > 0 {
                                    assert(rest1[m - 1] == ids@[j]@);
                                } else {
                                    assert(ids@[j]@ == pending@[k as int]@);
                                }
                            }
                        }
                        if fresh {
                            assert forall|j: int| hi <= j < n implies !utils.derived(
                                store.contents(),
                                #[trigger] ids@[j]@,
                            ) by {
                                let c = pending@[k as int]@;
                                assert(ids_view(pending@)[k as int] == c);
                                assert(c == ids@[low + k]@) by {
                                    assert(ids_view(chunk@)[k as int] == chunk@[k as int]@);
                                }
                                assert(ids_view(ids@)[j] == ids@[j]@);
                                assert(ids_view(ids@)[low + k] == c);
                                assert(ids@[j]@ != c);
                                if store.contents().contains_key(mapping_key(kind, ids@[j]@)) && !c0.contains_key(
                                    mapping_key(kind, ids@[j]@),
                                ) {
                                    lemma_mapping_key_injective(kind, ids@[j]@, c);
                                }
                                assert(!u0.derived(c0, ids@[j]@));
                            }
                        }
                    }
                    k += 1;
                }
                proof {
                    assert forall|j: int| low <= j < hi implies utils.derived(
                        store.contents(),
                        #[trigger] ids@[j]@,
                    ) by {
                        assert(ids_view(pending@).subrange(k as int, pending@.len() as int).len() == 0);
                    }
                }
                let ghost c1 = store.contents();
                let ghost u1 = *utils;
                match store.persist() {
                    Ok(()) => {},
                    Err(e) => {
                        proof {
                            lemma_derived_monotone(u1, u1, d0, store.durable());
                            assert(low == chunks * chunk_size);
                            assert(store.contents() =~= c1);
                            assert(chunk_start(chunks as int, chunk_size as int) == low);
                            assert(derived_prefix(*utils, store.durable(), ids@, chunk_start(chunks as int, chunk_size as int)));
                            assert(chunk_end(low as int, chunk_size as int, n as int) == hi);
                            assert(derived_prefix(*utils, store.contents(), ids@, hi as int));
                            assert(stopped_at(*utils, old(store).contents(), store.contents(), old(store).durable(), store.durable(), ids@, chunk_size as int, chunks as int, true));
                            if store.staged() == Map::<Seq<u8>, Seq<u8>>::empty() {
                                assert(false);
                            }
                        }
                        let res: Result<BackfillStats, BackfillError> = Err(BackfillError::Persist(e));
                        assert(stopped_at(*utils, old(store).contents(), store.contents(), old(store).durable(), store.durable(), ids@, chunk_size as int, chunks as int, is_persist_failure(res)));
                        return res;
                    },
                }
                proof {
                    assert(store.contents() =~= c1);
                    assert(store.contents() =~= store.durable());
                    assert(changed_only_at(d_start, store.durable(), prefix_keys(kind, ids@, hi as int)));
                    if fresh {
                        assert(pending@.len() == ids_view(pending@).len());
                    }
                    if hi < n {
                        assert(hi == low + chunk_size);
                        assert(low + chunk_size == (chunks + 1) * chunk_size) by (nonlinear_arith)
                            requires
                                low == chunks * chunk_size,
                        ;
                    }
                }
                derived = derived + pending.len();
                chunks = chunks + 1;
                progress.chunk_done(derived, n, pending.len());
                low = hi;
            },
        }
    }
    proof {
        lemma_window_count(0, n as u64, step);
    }
    Ok(BackfillStats { chunks, derived })
}

/// Windows that tile a range come in increasing order.
proof fn lemma_tiles_ordered(w: Seq<(u64, u64)>, start: u64, stop: u64, step: u64, a: int, b: int)
    requires
        tiles(w, start, stop, step),
        0 <= a < b < w.len(),
    ensures
        w[a].1 <= w[b].0,
    decreases b - a,
{
    assert(w[(b - 1) + 1].0 == w[b - 1].1);
    if a < b - 1 {
        lemma_tiles_ordered(w, start, stop, step, a, b - 1);
    }
}

/// In a backfill plan ordered by generation, a commit of a greater
/// generation than another is never in an earlier chunk than it.
pub proof fn lemma_backfill_ordering(
    s: Seq<CommitEntryModel>,
    chunk_size: u64,
    a: int,
    b: int,
    ka: int,
    kb: int,
)
    requires
        gens_sorted(s),
        chunk_size > 0,
        s.len() <= u64::MAX,
        0 <= a < s.len(),
        0 <= b < s.len(),
        s[a].gen < s[b].gen,
        0 <= ka < window_seq(0, s.len() as u64, chunk_size).len(),
        0 <= kb < window_seq(0, s.len() as u64, chunk_size).len(),
        window_seq(0, s.len() as u64, chunk_size)[ka].0 <= a < window_seq(
            0,
            s.len() as u64,
            chunk_size,
        )[ka].1,
        window_seq(0, s.len() as u64, chunk_size)[kb].0 <= b < window_seq(
            0,
            s.len() as u64,
            chunk_size,
        )[kb].1,
    ensures
        a < b,
        ka <= kb,
{
    let w = window_seq(0, s.len() as u64, chunk_size);
    lemma_window_seq_tiles(0, s.len() as u64, chunk_size);
    if kb < ka {
        lemma_tiles_ordered(w, 0, s.len() as u64, chunk_size, kb, ka);
    }
}

} // verus!
