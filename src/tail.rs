//! One round of the tail loop: find, for every kind, the branch heads whose
//! data is not derived yet, and derive them all. The caller lists the heads,
//! and sleeps after a round that found nothing to do.
use vstd::prelude::*;
use crate::blobstore::{Blobstore, StoreError, changed_only_at};
use crate::derive::{mapping_key, BonsaiDerived, DeriveError, DerivedUtilsFromMapping, lemma_derived_monotone, lemma_pending_exact};
use crate::ids::{ChangesetId, ids_view};

verus! {

/// How long to wait, in milliseconds, after a round that found nothing to do.
pub const TAIL_IDLE_SLEEP_MS: u64 = 250;

/// What a round of tailing did.
#[derive(Clone, Copy, Debug, PartialEq, Eq, Structural)]
pub enum TailOutcome {
    /// Every head was derived for every kind: nothing was done.
    Idle,
    /// This many derivations were run.
    Derived(usize),
}

/// The work of a round: for each kind in turn, its pending heads, each with
/// the index of its kind.
pub open spec fn tail_work(
    us: Seq<DerivedUtilsFromMapping>,
    contents: Map<Seq<u8>, Seq<u8>>,
    heads: Seq<Seq<u8>>,
) -> Seq<(int, Seq<u8>)>
    decreases us.len(),
{
    if us.len() == 0 {
        Seq::empty()
    } else {
        tail_work(us.drop_last(), contents, heads) + us.last().pending_spec(contents, heads).map_values(
            |id: Seq<u8>| ((us.len() - 1) as int, id),
        )
    }
}

/// The mapping keys that the work of a round may write.
pub open spec fn work_keys(us: Seq<DerivedUtilsFromMapping>, w: Seq<(int, Seq<u8>)>) -> Set<Seq<u8>> {
    Set::new(
        |key: Seq<u8>|
            exists|m: int| 0 <= m < w.len() && key == mapping_key(us[w[m].0].kind(), #[trigger] w[m].1),
    )
}

pub open spec fn work_view(w: Seq<(usize, ChangesetId)>) -> Seq<(int, Seq<u8>)> {
    w.map_values(|p: (usize, ChangesetId)| (p.0 as int, p.1@))
}

proof fn lemma_tail_work_contains(
    us: Seq<DerivedUtilsFromMapping>,
    contents: Map<Seq<u8>, Seq<u8>>,
    heads: Seq<Seq<u8>>,
    k: int,
    id: Seq<u8>,
)
    requires
        0 <= k < us.len(),
        us[k].pending_spec(contents, heads).contains(id),
    ensures
        tail_work(us, contents, heads).contains((k, id)),
    decreases us.len(),
{
    let init = tail_work(us.drop_last(), contents, heads);
    let last = us.last().pending_spec(contents, heads).map_values(
        |x: Seq<u8>| ((us.len() - 1) as int, x),
    );
    assert(tail_work(us, contents, heads) == init + last);
    if k < us.len() - 1 {
        assert(us.drop_last()[k] == us[k]);
        lemma_tail_work_contains(us.drop_last(), contents, heads, k, id);
        let m = choose|m: int| 0 <= m < init.len() && init[m] == (k, id);
        assert((init + last)[m] == (k, id));
    } else {
        let p = us[k].pending_spec(contents, heads);
        let m = choose|m: int| 0 <= m < p.len() && p[m] == id;
        assert(last[m] == (k, id));
        assert((init + last)[init.len() + m] == (k, id));
    }
}

proof fn lemma_tail_work_bounds(
    us: Seq<DerivedUtilsFromMapping>,
    contents: Map<Seq<u8>, Seq<u8>>,
    heads: Seq<Seq<u8>>,
)
    ensures
        forall|m: int|
            0 <= m < tail_work(us, contents, heads).len() ==> 0 <= (#[trigger] tail_work(
                us,
                contents,
                heads,
            )[m]).0 < us.len(),
    decreases us.len(),
{
    if us.len() > 0 {
        lemma_tail_work_bounds(us.drop_last(), contents, heads);
        let init = tail_work(us.drop_last(), contents, heads);
        let last = us.last().pending_spec(contents, heads).map_values(
            |x: Seq<u8>| ((us.len() - 1) as int, x),
        );
        assert forall|m: int| 0 <= m < tail_work(us, contents, heads).len() implies 0 <= (
        #[trigger] tail_work(us, contents, heads)[m]).0 < us.len() by {
            if m < init.len() {
                assert(tail_work(us, contents, heads)[m] == init[m]);
            } else {
                assert(tail_work(us, contents, heads)[m] == last[m - init.len()]);
            }
        }
    }
}

/// The work of a round, computed against the store as it stands.
pub fn tail_pending<S: Blobstore>(
    utils: &Vec<DerivedUtilsFromMapping>,
    store: &S,
    heads: &Vec<ChangesetId>,
) -> (r: Result<Vec<(usize, ChangesetId)>, StoreError>)
    ensures
        r matches Ok(w) ==> work_view(w@) == tail_work(utils@, store.contents(), ids_view(heads@)),
        store.reliable() ==> r is Ok,
        heads@.len() == 0 || utils@.len() == 0 ==> (r matches Ok(w) && w@.len() == 0),
{
    let mut out: Vec<(usize, ChangesetId)> = Vec::new();
    let mut k: usize = 0;
    while k < utils.len()
        invariant
            0 <= k <= utils@.len(),
            work_view(out@) == tail_work(utils@.take(k as int), store.contents(), ids_view(heads@)),
            heads@.len() == 0 ==> out@.len() == 0,
        decreases utils@.len() - k,
    {
        let pending = match utils[k].pending(store, heads) {
            Ok(p) => p,
            Err(e) => {
                return Err(e);
            },
        };
        let ghost start = out@;
        let mut j: usize = 0;
        while j < pending.len()
            invariant
                0 <= j <= pending@.len(),
                0 <= k < utils@.len(),
                out@ == start + pending@.take(j as int).map_values(
                    |c: ChangesetId| (k, c),
                ),
                heads@.len() == 0 ==> pending@.len() == 0 && start.len() == 0,
            decreases pending@.len() - j,
        {
            out.push((k, pending[j]));
            assert(pending@.take(j + 1).map_values(|c: ChangesetId| (k, c)) =~= pending@.take(
                j as int,
            ).map_values(|c: ChangesetId| (k, c)).push((k, pending@[j as int])));
            j += 1;
        }
        proof {
            let us = utils@.take(k + 1);
            assert(us.drop_last() =~= utils@.take(k as int));
            assert(pending@.take(j as int) =~= pending@);
            assert(work_view(out@) =~= tail_work(utils@.take(k as int), store.contents(), ids_view(heads@))
                + utils@[k as int].pending_spec(store.contents(), ids_view(heads@)).map_values(
                |id: Seq<u8>| (k as int, id),
            ));
        }
        k += 1;
    }
    assert(utils@.take(k as int) =~= utils@);
    Ok(out)
}

/// One round of tailing: derives, for every kind, each head that is not
/// derived yet; where there is none, does nothing and reports `Idle`.
pub fn tail_iteration<A: BonsaiDerived, S: Blobstore>(
    utils: &mut Vec<DerivedUtilsFromMapping>,
    algorithm: &A,
    store: &mut S,
    heads: &Vec<ChangesetId>,
) -> (r: Result<TailOutcome, DeriveError>)
    ensures
        final(utils)@.len() == old(utils)@.len(),
        forall|k: int| 0 <= k < old(utils)@.len() ==> (#[trigger] final(utils)@[k]).kind() == old(utils)@[k].kind(),
        r matches Ok(TailOutcome::Idle) ==> *final(store) == *old(store) && final(utils)@ == old(utils)@
            && tail_work(old(utils)@, old(store).contents(), ids_view(heads@)).len() == 0,
        r matches Ok(TailOutcome::Derived(n)) ==> n > 0 && n == tail_work(
            old(utils)@,
            old(store).contents(),
            ids_view(heads@),
        ).len(),
        r is Ok ==> forall|k: int, h: int|
            0 <= k < final(utils)@.len() && 0 <= h < heads@.len() ==> (#[trigger] final(utils)@[k]).derived(
                final(store).contents(),
                #[trigger] heads@[h]@,
            ),
        heads@.len() == 0 || old(utils)@.len() == 0 ==> r == Ok::<TailOutcome, DeriveError>(
            TailOutcome::Idle,
        ),
        old(store).reliable() && tail_work(old(utils)@, old(store).contents(), ids_view(heads@)).len()
            == 0 ==> r == Ok::<TailOutcome, DeriveError>(TailOutcome::Idle),
        forall|k: int, id: Seq<u8>|
            0 <= k < old(utils)@.len() && #[trigger] old(utils)@[k].derived(old(store).contents(), id)
                ==> final(utils)@[k].derived(final(store).contents(), id),
        changed_only_at(
            old(store).contents(),
            final(store).contents(),
            work_keys(old(utils)@, tail_work(old(utils)@, old(store).contents(), ids_view(heads@))),
        ),
{
    let work = match tail_pending(utils, store, heads) {
        Ok(w) => w,
        Err(e) => {
            return Err(DeriveError::Store(e));
        },
    };
    proof {
        assert forall|k: int, h: int|
            0 <= k < utils@.len() && 0 <= h < heads@.len() implies (#[trigger] utils@[k]).derived(
                store.contents(),
                #[trigger] heads@[h]@,
            ) || work_view(work@).contains((k, heads@[h]@)) by {
            assert(ids_view(heads@)[h] == heads@[h]@);
            lemma_pending_exact(utils@[k], store.contents(), ids_view(heads@), heads@[h]@);
            if !utils@[k].derived(store.contents(), heads@[h]@) {
                lemma_tail_work_contains(utils@, store.contents(), ids_view(heads@), k, heads@[h]@);
            }
        }
        assert(work_view(work@).subrange(0, work@.len() as int) =~= work_view(work@));
    }
    if work.len() == 0 {
        return Ok(TailOutcome::Idle);
    }
    let mut i: usize = 0;
    while i < work.len()
        invariant
            0 <= i <= work@.len(),
            utils@.len() == old(utils)@.len(),
            forall|k: int| 0 <= k < old(utils)@.len() ==> (#[trigger] utils@[k]).kind() == old(utils)@[k].kind(),
            work_view(work@) == tail_work(old(utils)@, old(store).contents(), ids_view(heads@)),
            heads@.len() > 0 && old(utils)@.len() > 0,
            forall|k: int, id: Seq<u8>|
                0 <= k < old(utils)@.len() && #[trigger] old(utils)@[k].derived(old(store).contents(), id)
                    ==> utils@[k].derived(store.contents(), id),
            changed_only_at(
                old(store).contents(),
                store.contents(),
                work_keys(old(utils)@, work_view(work@)),
            ),
            forall|k: int, h: int|
                0 <= k < utils@.len() && 0 <= h < heads@.len() ==> (#[trigger] utils@[k]).derived(
                    store.contents(),
                    #[trigger] heads@[h]@,
                ) || work_view(work@).subrange(i as int, work@.len() as int).contains((k, heads@[h]@)),
        decreases work@.len() - i,
    {
        let (k, c) = work[i];
        proof {
            lemma_tail_work_bounds(old(utils)@, old(store).contents(), ids_view(heads@));
            assert(work_view(work@)[i as int] == (k as int, c@));
        }
        let ghost us0 = utils@;
        let ghost c0 = store.contents();
        match utils[k].derive(algorithm, store, &c) {
            Ok(()) => {},
            Err(e) => {
                proof {
                    assert forall|k2: int, id: Seq<u8>|
                        0 <= k2 < old(utils)@.len() && #[trigger] old(utils)@[k2].derived(
                            old(store).contents(),
                            id,
                        ) implies utils@[k2].derived(store.contents(), id) by {
                        assert(us0[k2].derived(c0, id));
                    }
                }
                return Err(e);
            },
        }
        proof {
            lemma_derived_monotone(us0[k as int], utils@[k as int], c0, store.contents());
            assert forall|k2: int, id: Seq<u8>|
                0 <= k2 < old(utils)@.len() && #[trigger] old(utils)@[k2].derived(
                    old(store).contents(),
                    id,
                ) implies utils@[k2].derived(store.contents(), id) by {
                assert(us0[k2].derived(c0, id));
                if k2 != k {
                    assert(utils@[k2] == us0[k2]);
                    lemma_derived_monotone(us0[k2], us0[k2], c0, store.contents());
                }
            }
            let key = mapping_key(us0[k as int].kind(), c@);
            let keys = work_keys(old(utils)@, work_view(work@));
            assert(work_view(work@)[i as int] == (k as int, c@));
            assert(us0[k as int].kind() == old(utils)@[k as int].kind());
            assert(key == mapping_key(
                old(utils)@[work_view(work@)[i as int].0].kind(),
                work_view(work@)[i as int].1,
            ));
            assert(keys.contains(key));
            assert(changed_only_at(old(store).contents(), store.contents(), keys)) by {
                assert forall|k3: Seq<u8>| #[trigger] old(store).contents().contains_key(k3)
                    implies store.contents().contains_key(k3) by {
                    assert(c0.contains_key(k3));
                }
                assert forall|k3: Seq<u8>| !keys.contains(k3) implies (
                #[trigger] store.contents().contains_key(k3) == old(store).contents().contains_key(k3)
                    && (old(store).contents().contains_key(k3) ==> store.contents()[k3] == old(
                    store,
                ).contents()[k3])) by {
                    assert(k3 != key);
                    assert(c0.contains_key(k3) == old(store).contents().contains_key(k3));
                }
            }
        }
        proof {
            let rest0 = work_view(work@).subrange(i as int, work@.len() as int);
            let rest1 = work_view(work@).subrange(i + 1, work@.len() as int);
            assert forall|k2: int, h: int|
                0 <= k2 < utils@.len() && 0 <= h < heads@.len() implies (#[trigger] utils@[k2]).derived(
                    store.contents(),
                    #[trigger] heads@[h]@,
                ) || rest1.contains((k2, heads@[h]@)) by {
                if k2 == k {
                    lemma_derived_monotone(us0[k2], utils@[k2], c0, store.contents());
                } else {
                    assert(utils@[k2] == us0[k2]);
                    lemma_derived_monotone(us0[k2], us0[k2], c0, store.contents());
                }
                if !us0[k2].derived(c0, heads@[h]@) {
                    assert(rest0.contains((k2, heads@[h]@)));
                    let m = choose|m: int| 0 <= m < rest0.len() && rest0[m] == (k2, heads@[h]@);
                    if m > 0 {
                        assert(rest1[m - 1] == (k2, heads@[h]@));
                    } else {
                        assert(rest0[0] == (k as int, c@));
                    }
                }
            }
        }
        i += 1;
    }
    proof {
        assert forall|k: int, h: int|
            0 <= k < utils@.len() && 0 <= h < heads@.len() implies (#[trigger] utils@[k]).derived(
                store.contents(),
                #[trigger] heads@[h]@,
            ) by {
            assert(work_view(work@).subrange(i as int, work@.len() as int).len() == 0);
        }
    }
    Ok(TailOutcome::Derived(work.len()))
}

} // verus!
