//! The derivation capability of one kind: derive a commit, find the commits
//! still to derive, and force commits to be derived again.
//!
//! Which commits are derived is recorded in the blob store itself: a commit is
//! derived for a kind when the store holds its mapping entry, the key made of
//! the kind's name and the commit's identifier, and the commit is not marked
//! for regeneration.
use vstd::prelude::*;
use crate::blobstore::{Blobstore, StoreError};
use crate::ids::{ChangesetId, ids_view, ID_LEN};
use vstd::string::StringSliceAdditionalSpecFns;
use crate::kinds::{DerivedDataKind, kind_name, UnsupportedKind};

verus! {

/// The key under which a kind records the derived root of a commit.
pub open spec fn mapping_key(kind: DerivedDataKind, id: Seq<u8>) -> Seq<u8> {
    kind_name(kind) + seq![46u8] + id
}

/// Whether `id` counts as derived for `kind`, given the commits marked for
/// regeneration and what the store holds.
pub open spec fn is_derived(
    kind: DerivedDataKind,
    regen: Set<Seq<u8>>,
    contents: Map<Seq<u8>, Seq<u8>>,
    id: Seq<u8>,
) -> bool {
    contents.contains_key(mapping_key(kind, id)) && !regen.contains(id)
}

/// Why a derivation failed.
#[derive(Clone, Copy, Debug, PartialEq, Eq, Structural)]
pub enum DeriveError {
    /// The blob store failed.
    Store(StoreError),
    /// Data that the derivation depends on could not be had.
    MissingDependency,
    /// The derivation itself failed.
    Failed,
}

/// The derivation algorithms of the kinds: computes the derived root of a
/// commit for a kind, as the bytes to record for it.
pub trait BonsaiDerived {
    fn derive_root(&self, kind: DerivedDataKind, csid: &ChangesetId) -> Result<Vec<u8>, DeriveError>;
}

/// The mapping entry key of `csid` for `kind`.
pub fn mapping_key_of(kind: DerivedDataKind, csid: &ChangesetId) -> (r: Vec<u8>)
    ensures
        r@ == mapping_key(kind, csid@),
{
    let mut r = kind.name_bytes();
    r.push(46u8);
    let ghost head = r@;
    let mut i: usize = 0;
    while i < ID_LEN
        invariant
            0 <= i <= ID_LEN,
            csid@.len() == ID_LEN,
            r@ == head + csid@.take(i as int),
            head == kind_name(kind) + seq![46u8],
        decreases ID_LEN - i,
    {
        r.push(csid.bytes[i]);
        assert(csid@.take(i + 1) =~= csid@.take(i as int).push(csid@[i as int]));
        i += 1;
    }
    assert(csid@.take(ID_LEN as int) =~= csid@);
    r
}

/// The commits marked for regeneration, in front of a kind's mapping.
pub struct RegenerateMapping {
    kind: DerivedDataKind,
    regenerate: Vec<ChangesetId>,
}

impl RegenerateMapping {
    pub closed spec fn kind(&self) -> DerivedDataKind {
        self.kind
    }

    /// The identifiers marked for regeneration.
    pub closed spec fn marked(&self) -> Set<Seq<u8>> {
        ids_view(self.regenerate@).to_set()
    }

    pub fn new(kind: DerivedDataKind) -> (r: RegenerateMapping)
        ensures
            r.kind() == kind,
            r.marked() == Set::<Seq<u8>>::empty(),
    {
        let r = RegenerateMapping { kind, regenerate: Vec::new() };
        assert(r.marked() =~= Set::<Seq<u8>>::empty());
        r
    }

    pub fn get_kind(&self) -> (r: DerivedDataKind)
        ensures
            r == self.kind(),
    {
        self.kind
    }

    /// Whether `csid` is marked for regeneration.
    pub fn is_marked(&self, csid: &ChangesetId) -> (r: bool)
        ensures
            r == self.marked().contains(csid@),
    {
        crate::ids::contains_id(&self.regenerate, csid)
    }

    /// Marks each of `csids` for regeneration.
    pub fn regenerate(&mut self, csids: &Vec<ChangesetId>)
        ensures
            final(self).kind() == old(self).kind(),
            final(self).marked() == old(self).marked() + ids_view(csids@).to_set(),
    {
        let ghost start = self.regenerate@;
        let mut i: usize = 0;
        while i < csids.len()
            invariant
                0 <= i <= csids@.len(),
                self.kind == old(self).kind,
                self.regenerate@ == start + csids@.take(i as int),
            decreases csids@.len() - i,
        {
            self.regenerate.push(csids[i]);
            assert(csids@.take(i + 1) =~= csids@.take(i as int).push(csids@[i as int]));
            i += 1;
        }
        assert(csids@.take(i as int) =~= csids@);
        assert(ids_view(start + csids@) =~= ids_view(start) + ids_view(csids@));
        assert(ids_view(start + csids@).to_set() =~= ids_view(start).to_set() + ids_view(
            csids@,
        ).to_set()) by {
            let a = ids_view(start);
            let b = ids_view(csids@);
            assert forall|x: Seq<u8>| (a + b).contains(x) <==> a.contains(x) || b.contains(x) by {
                if (a + b).contains(x) {
                    let k = choose|k: int| 0 <= k < (a + b).len() && (a + b)[k] == x;
                    if k >= a.len() {
                        assert(b[k - a.len()] == x);
                    }
                }
                if b.contains(x) {
                    let k = choose|k: int| 0 <= k < b.len() && b[k] == x;
                    assert((a + b)[k + a.len()] == x);
                }
                if a.contains(x) {
                    let k = choose|k: int| 0 <= k < a.len() && a[k] == x;
                    assert((a + b)[k] == x);
                }
            }
        }
    }

    /// Removes the mark of `csid`.
    pub fn unmark(&mut self, csid: &ChangesetId)
        ensures
            final(self).kind() == old(self).kind(),
            final(self).marked() == old(self).marked().remove(csid@),
    {
        let mut kept: Vec<ChangesetId> = Vec::new();
        let mut i: usize = 0;
        while i < self.regenerate.len()
            invariant
                0 <= i <= self.regenerate@.len(),
                self.regenerate@ == old(self).regenerate@,
                self.kind == old(self).kind,
                forall|x: Seq<u8>|
                    ids_view(kept@).contains(x) <==> x != csid@ && ids_view(
                        self.regenerate@.take(i as int),
                    ).contains(x),
            decreases self.regenerate@.len() - i,
        {
            let c = self.regenerate[i];
            let ghost before = kept@;
            if !c.same(csid) {
                kept.push(c);
            }
            i += 1;
            proof {
                let pre = ids_view(self.regenerate@.take(i - 1));
                let post = ids_view(self.regenerate@.take(i as int));
                assert(post =~= pre.push(c@));
                if !(c@ == csid@) {
                    assert(ids_view(kept@) =~= ids_view(before).push(c@));
                }
                assert forall|x: Seq<u8>| #[trigger] ids_view(kept@).contains(x) <==> x != csid@
                    && ids_view(self.regenerate@.take(i as int)).contains(x) by {
                    if post.contains(x) && x != c@ {
                        let k = choose|k: int| 0 <= k < post.len() && post[k] == x;
                        assert(pre[k] == x);
                    }
                    if ids_view(before).contains(x) && x != c@ {
                        let k = choose|k: int| 0 <= k < ids_view(before).len() && ids_view(
                            before,
                        )[k] == x;
                        assert(ids_view(kept@)[k] == x);
                    }
                    if pre.contains(x) {
                        let k = choose|k: int| 0 <= k < pre.len() && pre[k] == x;
                        assert(post[k] == x);
                    }
                    if ids_view(kept@).contains(x) && !(c@ == csid@) && x != c@ {
                        let k = choose|k: int| 0 <= k < ids_view(kept@).len() && ids_view(
                            kept@,
                        )[k] == x;
                        assert(ids_view(before)[k] == x);
                    }
                    if !(c@ == csid@) && x == c@ {
                        assert(ids_view(kept@)[ids_view(kept@).len() - 1] == x);
                        assert(post[post.len() - 1] == x);
                    }
                }
            }
        }
        assert(self.regenerate@.take(i as int) =~= self.regenerate@);
        self.regenerate = kept;
        assert(self.marked() =~= old(self).marked().remove(csid@));
    }
}

/// The derivation capability of one kind, over its regenerate overlay.
pub struct DerivedUtilsFromMapping {
    mapping: RegenerateMapping,
}

impl DerivedUtilsFromMapping {
    pub open spec fn kind(&self) -> DerivedDataKind {
        self.mapping_view().kind()
    }

    /// The identifiers marked for regeneration.
    pub open spec fn marked(&self) -> Set<Seq<u8>> {
        self.mapping_view().marked()
    }

    pub closed spec fn mapping_view(&self) -> RegenerateMapping {
        self.mapping
    }

    /// Whether `id` counts as derived, given what the store holds.
    pub open spec fn derived(&self, contents: Map<Seq<u8>, Seq<u8>>, id: Seq<u8>) -> bool {
        is_derived(self.kind(), self.marked(), contents, id)
    }

    /// Those of `ids` that are not derived, in their order.
    pub open spec fn pending_spec(&self, contents: Map<Seq<u8>, Seq<u8>>, ids: Seq<Seq<u8>>) -> Seq<
        Seq<u8>,
    > {
        ids.filter(|id: Seq<u8>| !self.derived(contents, id))
    }

    pub fn new(mapping: RegenerateMapping) -> (r: Self)
        ensures
            r.kind() == mapping.kind(),
            r.marked() == mapping.marked(),
    {
        DerivedUtilsFromMapping { mapping }
    }

    pub fn get_kind(&self) -> (r: DerivedDataKind)
        ensures
            r == self.kind(),
    {
        self.mapping.get_kind()
    }

    /// Derives `csid` and records its root under its mapping key, unless it
    /// is derived already, in which case nothing is written.
    pub fn derive<A: BonsaiDerived, S: Blobstore>(
        &mut self,
        algorithm: &A,
        store: &mut S,
        csid: &ChangesetId,
    ) -> (r: Result<(), DeriveError>)
        ensures
            final(self).kind() == old(self).kind(),
            old(self).derived(old(store).contents(), csid@) ==> *final(store) == *old(store)
                && final(self).marked() == old(self).marked(),
            r is Ok ==> final(self).derived(final(store).contents(), csid@),
            r is Ok ==> final(self).marked() == old(self).marked().remove(csid@),
            r is Ok ==> final(store).contents() == old(store).contents().insert(
                mapping_key(old(self).kind(), csid@),
                final(store).contents()[mapping_key(old(self).kind(), csid@)],
            ),
            r is Err ==> final(self).marked() == old(self).marked() && final(store).contents()
                == old(store).contents(),
            old(self).derived(old(store).contents(), csid@) && old(store).reliable() ==> r is Ok,
            old(store).buffered() ==> final(store).persisted() == old(store).persisted(),
            final(store).reliable() == old(store).reliable(),
            final(store).buffered() == old(store).buffered(),
    {
        let key = mapping_key_of(self.mapping.get_kind(), csid);
        if !self.mapping.is_marked(csid) {
            match store.get(&key) {
                Ok(Some(_)) => {
                    return Ok(());
                },
                Ok(None) => {},
                Err(e) => {
                    return Err(DeriveError::Store(e));
                },
            }
        }
        let root = algorithm.derive_root(self.mapping.get_kind(), csid);
        self.record_root(store, csid, root)
    }

    /// Records the outcome of deriving `csid`: a derived root is written
    /// under the commit's mapping key and its regeneration mark is removed; a
    /// failed derivation is passed on with nothing written.
    pub fn record_root<S: Blobstore>(
        &mut self,
        store: &mut S,
        csid: &ChangesetId,
        root: Result<Vec<u8>, DeriveError>,
    ) -> (r: Result<(), DeriveError>)
        ensures
            final(self).kind() == old(self).kind(),
            root matches Err(e) ==> r == Err::<(), DeriveError>(e) && *final(self) == *old(self)
                && *final(store) == *old(store),
            root is Ok && old(store).reliable() ==> r is Ok,
            r is Ok ==> (root matches Ok(v) && final(store).contents() == old(store).contents().insert(
                mapping_key(old(self).kind(), csid@),
                v@,
            )) && final(self).marked() == old(self).marked().remove(csid@),
            root is Ok && r is Err ==> (r matches Err(DeriveError::Store(_))) && final(self).marked()
                == old(self).marked() && final(store).contents() == old(store).contents(),
            old(store).buffered() ==> final(store).persisted() == old(store).persisted(),
            final(store).reliable() == old(store).reliable(),
            final(store).buffered() == old(store).buffered(),
    {
        let root = match root {
            Ok(root) => root,
            Err(e) => {
                return Err(e);
            },
        };
        let key = mapping_key_of(self.mapping.get_kind(), csid);
        match store.put(key, root) {
            Ok(()) => {},
            Err(e) => {
                return Err(DeriveError::Store(e));
            },
        }
        self.mapping.unmark(csid);
        Ok(())
    }

    /// Those of `csids` that are not derived yet, in their order.
    pub fn pending<S: Blobstore>(&self, store: &S, csids: &Vec<ChangesetId>) -> (r: Result<
        Vec<ChangesetId>,
        StoreError,
    >)
        ensures
            r matches Ok(p) ==> ids_view(p@) == self.pending_spec(store.contents(), ids_view(csids@)),
            store.reliable() ==> r is Ok,
            (forall|j: int| 0 <= j < csids@.len() ==> self.marked().contains(#[trigger] csids@[j]@))
                ==> (r matches Ok(p) && ids_view(p@) == ids_view(csids@)),
    {
        let mut out: Vec<ChangesetId> = Vec::new();
        let mut i: usize = 0;
        while i < csids.len()
            invariant
                0 <= i <= csids@.len(),
                ids_view(out@) == self.pending_spec(store.contents(), ids_view(csids@.take(i as int))),
                (forall|j: int| 0 <= j < csids@.len() ==> self.marked().contains(#[trigger] csids@[j]@))
                    ==> out@ == csids@.take(i as int),
            decreases csids@.len() - i,
        {
            let c = csids[i];
            let done = if self.mapping.is_marked(&c) {
                false
            } else {
                match store.get(&mapping_key_of(self.mapping.get_kind(), &c)) {
                    Ok(Some(_)) => true,
                    Ok(None) => false,
                    Err(e) => {
                        return Err(e);
                    },
                }
            };
            let ghost before = out@;
            if !done {
                out.push(c);
            }
            proof {
                if forall|j: int| 0 <= j < csids@.len() ==> self.marked().contains(#[trigger] csids@[j]@) {
                    assert(self.marked().contains(csids@[i as int]@));
                    assert(out@ =~= csids@.take(i + 1));
                }
                let pre = ids_view(csids@.take(i as int));
                let post = ids_view(csids@.take(i + 1));
                assert(post =~= pre.push(c@));
                assert(post.drop_last() =~= pre);
                reveal(Seq::filter);
                assert(done == self.derived(store.contents(), c@));
                if !done {
                    assert(ids_view(out@) =~= ids_view(before).push(c@));
                }
            }
            i += 1;
        }
        assert(csids@.take(i as int) =~= csids@);
        Ok(out)
    }

    /// Marks each of `csids` for regeneration: each counts as not derived
    /// until it is derived again.
    pub fn regenerate(&mut self, csids: &Vec<ChangesetId>)
        ensures
            final(self).kind() == old(self).kind(),
            final(self).marked() == old(self).marked() + ids_view(csids@).to_set(),
    {
        self.mapping.regenerate(csids);
    }
}

/// The derivation capability of the kind named `name`.
pub fn derived_data_utils(name: &str) -> (r: Result<DerivedUtilsFromMapping, UnsupportedKind>)
    ensures
        match r {
            Ok(u) => kind_name(u.kind()) == name.spec_bytes() && u.marked() == Set::<
                Seq<u8>,
            >::empty(),
            Err(_) => forall|k: DerivedDataKind| kind_name(k) != name.spec_bytes(),
        },
{
    match DerivedDataKind::from_name(name) {
        Ok(kind) => Ok(DerivedUtilsFromMapping::new(RegenerateMapping::new(kind))),
        Err(e) => Err(e),
    }
}

/// A commit that is derived is not pending, and one that is not derived is,
/// among any list of commits that holds it.
pub proof fn lemma_pending_exact(
    u: DerivedUtilsFromMapping,
    contents: Map<Seq<u8>, Seq<u8>>,
    ids: Seq<Seq<u8>>,
    id: Seq<u8>,
)
    requires
        ids.contains(id),
    ensures
        u.derived(contents, id) ==> !u.pending_spec(contents, ids).contains(id),
        !u.derived(contents, id) ==> u.pending_spec(contents, ids).contains(id),
{
    broadcast use vstd::seq_lib::group_filter_ensures;

    let pred = |x: Seq<u8>| !u.derived(contents, x);
    let k = choose|k: int| 0 <= k < ids.len() && ids[k] == id;
    if !u.derived(contents, id) {
        ids.lemma_filter_contains(pred, k);
    } else {
        if u.pending_spec(contents, ids).contains(id) {
            let j = choose|j: int|
                0 <= j < u.pending_spec(contents, ids).len() && u.pending_spec(contents, ids)[j]
                    == id;
            ids.lemma_filter_pred(pred, j);
        }
    }
}

/// Marking a derived commit for regeneration makes it pending again, for its
/// kind alone; once derived again it is no longer pending.
pub proof fn lemma_regenerate_then_derive(
    u: DerivedUtilsFromMapping,
    marked: DerivedUtilsFromMapping,
    again: DerivedUtilsFromMapping,
    other: DerivedUtilsFromMapping,
    contents: Map<Seq<u8>, Seq<u8>>,
    rederived: Map<Seq<u8>, Seq<u8>>,
    ids: Seq<Seq<u8>>,
    id: Seq<u8>,
)
    requires
        u.derived(contents, id),
        ids.contains(id),
        marked.kind() == u.kind(),
        marked.marked() == u.marked() + ids.to_set(),
        again.kind() == marked.kind(),
        again.marked() == marked.marked().remove(id),
        rederived.contains_key(mapping_key(again.kind(), id)),
        other.kind() != u.kind(),
    ensures
        u.pending_spec(contents, seq![id]) == Seq::<Seq<u8>>::empty(),
        marked.pending_spec(contents, seq![id]) == seq![id],
        again.pending_spec(rederived, seq![id]) == Seq::<Seq<u8>>::empty(),
        mapping_key(u.kind(), id) != mapping_key(other.kind(), id),
{
    reveal_with_fuel(Seq::filter, 2);
    assert(ids.to_set().contains(id));
    assert(seq![id].drop_last() =~= Seq::<Seq<u8>>::empty());
    assert(Seq::<Seq<u8>>::empty().push(id) =~= seq![id]);
    crate::kinds::lemma_kind_names_distinct(u.kind(), other.kind());
    assert(mapping_key(u.kind(), id)[0] == kind_name(u.kind())[0]);
    assert(mapping_key(other.kind(), id)[0] == kind_name(other.kind())[0]);
}

/// After a successful `derive` of a commit, with no regeneration between,
/// the commit is derived and not pending, so a second `derive` of it takes
/// the branch that leaves the store as it is: the same root, no new write.
pub proof fn lemma_derive_idempotent(
    before: DerivedUtilsFromMapping,
    after: DerivedUtilsFromMapping,
    contents: Map<Seq<u8>, Seq<u8>>,
    derived: Map<Seq<u8>, Seq<u8>>,
    id: Seq<u8>,
)
    requires
        after.kind() == before.kind(),
        after.marked() == before.marked().remove(id),
        derived.contains_key(mapping_key(before.kind(), id)),
    ensures
        after.derived(derived, id),
        after.pending_spec(derived, seq![id]) == Seq::<Seq<u8>>::empty(),
{
    reveal_with_fuel(Seq::filter, 2);
    assert(seq![id].drop_last() =~= Seq::<Seq<u8>>::empty());
}

/// What is derived stays derived while the marks only shrink and the store
/// only gains keys.
pub proof fn lemma_derived_monotone(
    u: DerivedUtilsFromMapping,
    v: DerivedUtilsFromMapping,
    before: Map<Seq<u8>, Seq<u8>>,
    after: Map<Seq<u8>, Seq<u8>>,
)
    requires
        v.kind() == u.kind(),
        v.marked().subset_of(u.marked()),
        before.dom().subset_of(after.dom()),
    ensures
        forall|id: Seq<u8>| u.derived(before, id) ==> #[trigger] v.derived(after, id),
{
    assert forall|id: Seq<u8>| u.derived(before, id) implies #[trigger] v.derived(after, id) by {
        assert(before.dom().contains(mapping_key(u.kind(), id)));
    }
}

/// Under one kind, distinct commits have distinct mapping keys.
pub proof fn lemma_mapping_key_injective(kind: DerivedDataKind, a: Seq<u8>, b: Seq<u8>)
    requires
        mapping_key(kind, a) == mapping_key(kind, b),
    ensures
        a == b,
{
    let n = (kind_name(kind) + seq![46u8]).len() as int;
    assert(a =~= mapping_key(kind, a).subrange(n, mapping_key(kind, a).len() as int));
    assert(b =~= mapping_key(kind, b).subrange(n, mapping_key(kind, b).len() as int));
}

} // verus!
