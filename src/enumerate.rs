//! Enumeration of public commits: the row-key windows to query, and the
//! filter that keeps the publicly visible entries of a window.
use vstd::prelude::*;
use crate::codec::{
    decode_spec, encode_spec, entries_view, entry_wf, lemma_round_trip, CommitEntry, CommitEntryModel,
};
use crate::ids::{ChangesetId, contains_id, ids_view};
use crate::windows::{tiles, window_seq, windows};

verus! {

/// The width of the row-key windows queried one at a time.
pub const ROW_WINDOW: u64 = 65536;

/// Why commits could not be enumerated.
#[derive(Clone, Copy, Debug, PartialEq, Eq, Structural)]
pub enum EnumerateError {
    /// The commit table has no rows.
    EmptyRepository,
}

/// The windows of `ROW_WINDOW` row keys that cover `[start, stop)`, from the
/// bounds of the commit table; an empty table has no bounds.
pub fn changeset_windows(start: Option<u64>, stop: Option<u64>) -> (r: Result<
    Vec<(u64, u64)>,
    EnumerateError,
>)
    ensures
        (start is None || stop is None) <==> r == Err::<Vec<(u64, u64)>, _>(
            EnumerateError::EmptyRepository,
        ),
        start is Some && stop is Some ==> r is Ok,
        r matches Ok(w) ==> (start.unwrap() <= stop.unwrap() ==> w@ == window_seq(
            start.unwrap(),
            stop.unwrap(),
            ROW_WINDOW,
        ) && tiles(w@, start.unwrap(), stop.unwrap(), ROW_WINDOW)) && (start.unwrap()
            > stop.unwrap() ==> w@.len() == 0),
{
    match (start, stop) {
        (Some(start), Some(stop)) => {
            if start > stop {
                Ok(Vec::new())
            } else {
                Ok(windows(start, stop, ROW_WINDOW))
            }
        },
        _ => Err(EnumerateError::EmptyRepository),
    }
}

/// Keeps the entries whose commit is among `public`, in their order.
pub fn retain_public(entries: Vec<CommitEntry>, public: &Vec<ChangesetId>) -> (r: Vec<CommitEntry>)
    ensures
        entries_view(r@) == entries_view(entries@).filter(
            |e: CommitEntryModel| ids_view(public@).contains(e.id),
        ),
{
    let mut out: Vec<CommitEntry> = Vec::new();
    let mut rest = entries;
    let ghost all = rest@;
    // reverse the entries, so that popping walks them from the front
    let mut reversed: Vec<CommitEntry> = Vec::new();
    while rest.len() > 0
        invariant
            all == rest@ + reversed@.reverse(),
        decreases rest@.len(),
    {
        let e = rest.pop().unwrap();
        let ghost before = reversed@;
        reversed.push(e);
        proof {
            assert(reversed@.reverse() =~= seq![e] + before.reverse());
        }
    }
    assert(all =~= all.take(0) + reversed@.reverse());
    while reversed.len() > 0
        invariant
            all == all.take(all.len() - reversed@.len()) + reversed@.reverse(),
            reversed@.len() <= all.len(),
            entries_view(out@) == entries_view(all.take(all.len() - reversed@.len())).filter(
                |e: CommitEntryModel| ids_view(public@).contains(e.id),
            ),
        decreases reversed@.len(),
    {
        let ghost n = all.len() - reversed@.len();
        let ghost before = out@;
        let ghost rev = reversed@;
        let e = reversed.pop().unwrap();
        proof {
            assert(rev.reverse()[0] == e);
            assert(all[n] == e);
            assert(all == all.take(n + 1) + reversed@.reverse()) by {
                assert(rev.reverse() =~= seq![e] + reversed@.reverse());
                assert(all.take(n + 1) =~= all.take(n).push(e));
                assert(all.take(n) + rev.reverse() =~= all.take(n + 1) + reversed@.reverse());
            }
        }
        let keep = contains_id(public, &e.cs_id);
        if keep {
            out.push(e);
        }
        proof {
            let pred = |x: CommitEntryModel| ids_view(public@).contains(x.id);
            let pre = entries_view(all.take(n));
            let post = entries_view(all.take(n + 1));
            assert(post =~= pre.push(e@));
            assert(post.drop_last() =~= pre);
            reveal(Seq::filter);
            if keep {
                assert(entries_view(out@) =~= entries_view(before).push(e@));
            }
            assert(all.len() - reversed@.len() == n + 1);
        }
    }
    assert(all.take(all.len() as int) =~= all);
    out
}

/// Adds the public entries of one window to those collected so far.
pub fn collect_public(all: &mut Vec<CommitEntry>, entries: Vec<CommitEntry>, public: &Vec<ChangesetId>)
    ensures
        entries_view(final(all)@) == entries_view(old(all)@) + entries_view(entries@).filter(
            |e: CommitEntryModel| ids_view(public@).contains(e.id),
        ),
{
    let mut kept = retain_public(entries, public);
    let ghost before = all@;
    let ghost k = kept@;
    all.append(&mut kept);
    assert(entries_view(all@) =~= entries_view(before) + entries_view(k));
}

/// A snapshot of the public entries decodes to exactly the entries whose
/// commit is public: each kept entry is public, and each public entry is kept.
pub proof fn lemma_prefetch_only_public(es: Seq<CommitEntryModel>, public: Seq<Seq<u8>>)
    requires
        es.len() <= u64::MAX,
        forall|i: int| 0 <= i < es.len() ==> entry_wf(#[trigger] es[i]),
    ensures
        ({
            let kept = es.filter(|e: CommitEntryModel| public.contains(e.id));
            &&& decode_spec(encode_spec(kept)) == Some(kept)
            &&& forall|i: int| 0 <= i < kept.len() ==> public.contains(#[trigger] kept[i].id)
            &&& forall|i: int| 0 <= i < es.len() && public.contains(es[i].id) ==> kept.contains(
                #[trigger] es[i],
            )
        }),
{
    broadcast use vstd::seq_lib::group_filter_ensures;

    let pred = |e: CommitEntryModel| public.contains(e.id);
    let kept = es.filter(pred);
    assert forall|i: int| 0 <= i < kept.len() implies entry_wf(#[trigger] kept[i]) by {
        es.lemma_filter_contains_rev(pred, kept[i]);
        assert(kept.contains(kept[i]));
    }
    lemma_round_trip(kept);
}

} // verus!
