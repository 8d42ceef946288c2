//! Key-value blob stores: the interface the pipeline writes through, an
//! in-memory store, and the staged write overlay that buffers writes in
//! front of a durable store until they are persisted in bulk.
use vstd::prelude::*;

verus! {

/// A failure reported by a store.
#[derive(Clone, Copy, Debug, PartialEq, Eq, Structural)]
pub enum StoreError {
    /// The store refused the request.
    Rejected,
}

/// The map that a list of writes leaves behind: a later write of a key wins.
pub open spec fn writes_map(w: Seq<(Vec<u8>, Vec<u8>)>) -> Map<Seq<u8>, Seq<u8>>
    decreases w.len(),
{
    if w.len() == 0 {
        Map::empty()
    } else {
        writes_map(w.drop_last()).insert(w.last().0@, w.last().1@)
    }
}

/// `after` keeps every key of `before`, and differs from it only at `keys`.
pub open spec fn changed_only_at(
    before: Map<Seq<u8>, Seq<u8>>,
    after: Map<Seq<u8>, Seq<u8>>,
    keys: Set<Seq<u8>>,
) -> bool {
    &&& forall|k: Seq<u8>| #[trigger] before.contains_key(k) ==> after.contains_key(k)
    &&& forall|k: Seq<u8>|
        !keys.contains(k) ==> (#[trigger] after.contains_key(k) == before.contains_key(k) && (
        before.contains_key(k) ==> after[k] == before[k]))
}

/// A store of blobs by key.
pub trait Blobstore {
    /// What the store holds, as reads see it.
    spec fn contents(&self) -> Map<Seq<u8>, Seq<u8>>;

    /// What has reached durable storage.
    spec fn persisted(&self) -> Map<Seq<u8>, Seq<u8>>;

    /// Whether every request succeeds.
    spec fn reliable(&self) -> bool;

    /// Whether writes wait in memory instead of reaching durable storage.
    spec fn buffered(&self) -> bool;

    /// The blob stored under `key`, if any.
    fn get(&self, key: &Vec<u8>) -> (r: Result<Option<Vec<u8>>, StoreError>)
        ensures
            self.reliable() ==> r is Ok,
            r matches Ok(Some(v)) ==> self.contents().contains_key(key@) && self.contents()[key@]
                == v@,
            r matches Ok(None) ==> !self.contents().contains_key(key@),
    ;

    /// Stores `value` under `key`. A failed write changes nothing.
    fn put(&mut self, key: Vec<u8>, value: Vec<u8>) -> (r: Result<(), StoreError>)
        ensures
            old(self).reliable() ==> r is Ok,
            r is Ok ==> final(self).contents() == old(self).contents().insert(key@, value@),
            r is Err ==> final(self).contents() == old(self).contents() && final(self).persisted()
                == old(self).persisted(),
            old(self).buffered() ==> final(self).persisted() == old(self).persisted(),
            final(self).reliable() == old(self).reliable(),
            final(self).buffered() == old(self).buffered(),
    ;
}

/// The keys that `w` writes.
pub proof fn lemma_writes_map_keys(w: Seq<(Vec<u8>, Vec<u8>)>, key: Seq<u8>)
    ensures
        writes_map(w).contains_key(key) <==> exists|j: int| 0 <= j < w.len() && (#[trigger] w[j]).0@
            == key,
    decreases w.len(),
{
    if w.len() > 0 {
        let init = w.drop_last();
        lemma_writes_map_keys(init, key);
        if exists|j: int| 0 <= j < init.len() && (#[trigger] init[j]).0@ == key {
            let j = choose|j: int| 0 <= j < init.len() && (#[trigger] init[j]).0@ == key;
            assert(w[j] == init[j]);
        }
        if exists|j: int| 0 <= j < w.len() && (#[trigger] w[j]).0@ == key {
            let j = choose|j: int| 0 <= j < w.len() && (#[trigger] w[j]).0@ == key;
            if j < w.len() - 1 {
                assert(init[j] == w[j]);
            }
        }
    }
}

/// Whether two byte strings are equal.
pub fn bytes_eq(a: &Vec<u8>, b: &Vec<u8>) -> (r: bool)
    ensures
        r == (a@ == b@),
{
    if a.len() != b.len() {
        return false;
    }
    let mut i: usize = 0;
    while i < a.len()
        invariant
            0 <= i <= a.len(),
            a@.len() == b@.len(),
            forall|j: int| 0 <= j < i ==> a@[j] == b@[j],
        decreases a.len() - i,
    {
        if a[i] != b[i] {
            return false;
        }
        i += 1;
    }
    assert(a@ =~= b@);
    true
}

proof fn lemma_writes_map_prefix(w: Seq<(Vec<u8>, Vec<u8>)>, i: int, key: Seq<u8>)
    requires
        0 <= i <= w.len(),
        forall|j: int| i <= j < w.len() ==> (#[trigger] w[j]).0@ != key,
    ensures
        writes_map(w).contains_key(key) == writes_map(w.take(i)).contains_key(key),
        writes_map(w).contains_key(key) ==> writes_map(w)[key] == writes_map(w.take(i))[key],
    decreases w.len() - i,
{
    if i < w.len() {
        let init = w.drop_last();
        assert(w.take(i) =~= init.take(i));
        lemma_writes_map_prefix(init, i, key);
    } else {
        assert(w.take(i) =~= w);
    }
}

/// The value of the last write of `key` in `w`.
fn lookup_last(w: &Vec<(Vec<u8>, Vec<u8>)>, key: &Vec<u8>) -> (r: Option<Vec<u8>>)
    ensures
        match r {
            Some(v) => writes_map(w@).contains_key(key@) && writes_map(w@)[key@] == v@,
            None => !writes_map(w@).contains_key(key@),
        },
{
    let mut i: usize = w.len();
    while i > 0
        invariant
            0 <= i <= w.len(),
            forall|j: int| i <= j < w.len() ==> (#[trigger] w@[j]).0@ != key@,
        decreases i,
    {
        if bytes_eq(&w[i - 1].0, key) {
            proof {
                lemma_writes_map_prefix(w@, i as int, key@);
                assert(w@.take(i as int).drop_last() =~= w@.take(i - 1));
            }
            return Some(w[i - 1].1.clone());
        }
        i -= 1;
    }
    proof {
        lemma_writes_map_prefix(w@, 0, key@);
    }
    None
}

/// A store that keeps its blobs in memory. A read-only store refuses every
/// write.
pub struct MemBlobstore {
    writes: Vec<(Vec<u8>, Vec<u8>)>,
    read_only: bool,
}

impl MemBlobstore {
    /// The writes the store has taken, in order.
    pub closed spec fn log(&self) -> Seq<(Vec<u8>, Vec<u8>)> {
        self.writes@
    }

    pub closed spec fn is_read_only(&self) -> bool {
        self.read_only
    }

    pub fn new() -> (r: MemBlobstore)
        ensures
            r.contents() == Map::<Seq<u8>, Seq<u8>>::empty(),
            r.log().len() == 0,
            !r.is_read_only(),
    {
        MemBlobstore { writes: Vec::new(), read_only: false }
    }

    /// Makes the store refuse writes, or take them again.
    pub fn set_read_only(&mut self, read_only: bool)
        ensures
            final(self).contents() == old(self).contents(),
            final(self).log() == old(self).log(),
            final(self).is_read_only() == read_only,
    {
        self.read_only = read_only;
    }

    /// The number of writes the store has taken.
    pub fn write_count(&self) -> (r: usize)
        ensures
            r == self.log().len(),
    {
        self.writes.len()
    }

    /// The writes the store has taken, in order: a later write of a key
    /// replaces an earlier one.
    pub fn writes(&self) -> (r: &Vec<(Vec<u8>, Vec<u8>)>)
        ensures
            r@ == self.log(),
            writes_map(r@) == self.contents(),
    {
        &self.writes
    }
}

impl Blobstore for MemBlobstore {
    open spec fn contents(&self) -> Map<Seq<u8>, Seq<u8>> {
        writes_map(self.log())
    }

    open spec fn persisted(&self) -> Map<Seq<u8>, Seq<u8>> {
        self.contents()
    }

    open spec fn reliable(&self) -> bool {
        !self.is_read_only()
    }

    open spec fn buffered(&self) -> bool {
        false
    }

    fn get(&self, key: &Vec<u8>) -> (r: Result<Option<Vec<u8>>, StoreError>) {
        Ok(lookup_last(&self.writes, key))
    }

    fn put(&mut self, key: Vec<u8>, value: Vec<u8>) -> (r: Result<(), StoreError>) {
        if self.read_only {
            return Err(StoreError::Rejected);
        }
        let ghost before = self.writes@;
        self.writes.push((key, value));
        assert(self.writes@.drop_last() =~= before);
        Ok(())
    }
}

/// A write buffer in front of a durable store: writes land in memory, reads
/// see the buffer first and the durable store after it, and `persist` writes
/// the whole buffer through in one go.
pub struct MemWritesBlobstore<B> {
    inner: B,
    cache: Vec<(Vec<u8>, Vec<u8>)>,
}

impl<B: Blobstore> MemWritesBlobstore<B> {
    /// The writes not yet persisted.
    pub closed spec fn staged(&self) -> Map<Seq<u8>, Seq<u8>> {
        writes_map(self.cache@)
    }

    /// The durable store.
    pub closed spec fn inner_store(&self) -> B {
        self.inner
    }

    /// What the durable store holds.
    pub open spec fn durable(&self) -> Map<Seq<u8>, Seq<u8>> {
        self.inner_store().contents()
    }

    pub fn new(inner: B) -> (r: Self)
        ensures
            r.inner_store() == inner,
            r.durable() == inner.contents(),
            r.staged() == Map::<Seq<u8>, Seq<u8>>::empty(),
    {
        MemWritesBlobstore { inner, cache: Vec::new() }
    }

    /// The number of writes that wait to be persisted.
    pub fn staged_len(&self) -> (r: usize)
        ensures
            (r == 0) == (self.staged() == Map::<Seq<u8>, Seq<u8>>::empty()),
    {
        proof {
            if self.cache@.len() > 0 {
                assert(self.staged().contains_key(self.cache@.last().0@));
            }
        }
        self.cache.len()
    }

    /// Gives back the durable store; staged writes not persisted are dropped.
    pub fn into_inner(self) -> (r: B)
        ensures
            r == self.inner_store(),
            r.contents() == self.durable(),
    {
        self.inner
    }

    /// The durable store.
    pub fn inner(&self) -> (r: &B)
        ensures
            *r == self.inner_store(),
            r.contents() == self.durable(),
    {
        &self.inner
    }

    /// Writes every staged blob to the durable store, then empties the
    /// buffer. Where a write fails the buffer is kept whole, for a retry, and
    /// the durable store has changed only at staged keys, gaining them.
    pub fn persist(&mut self) -> (r: Result<(), StoreError>)
        ensures
            old(self).staged() == Map::<Seq<u8>, Seq<u8>>::empty() || old(self).reliable()
                ==> r is Ok,
            r is Ok ==> final(self).durable() == old(self).durable().union_prefer_right(
                old(self).staged(),
            ) && final(self).staged() == Map::<Seq<u8>, Seq<u8>>::empty(),
            r is Err ==> final(self).staged() == old(self).staged(),
            forall|k: Seq<u8>| #[trigger]
                old(self).durable().contains_key(k) ==> final(self).durable().contains_key(k),
            forall|k: Seq<u8>|
                !old(self).staged().contains_key(k) ==> (#[trigger] final(self).durable().contains_key(k)
                    == old(self).durable().contains_key(k) && (old(self).durable().contains_key(k)
                    ==> final(self).durable()[k] == old(self).durable()[k])),
            final(self).reliable() == old(self).reliable(),
    {
        let ghost start = self.inner.contents();
        let ghost staged = self.staged();
        let mut i: usize = 0;
        while i < self.cache.len()
            invariant
                0 <= i <= self.cache@.len(),
                self.cache@ == old(self).cache@,
                staged == writes_map(self.cache@),
                start == old(self).durable(),
                self.inner.reliable() == old(self).inner.reliable(),
                self.inner.contents() == start.union_prefer_right(writes_map(self.cache@.take(i as int))),
            decreases self.cache@.len() - i,
        {
            let key = self.cache[i].0.clone();
            let value = self.cache[i].1.clone();
            match self.inner.put(key, value) {
                Ok(()) => {},
                Err(e) => {
                    proof {
                        self.lemma_prefix_keys(i as int);
                        assert(staged.contains_key(self.cache@.last().0@));
                        let m = writes_map(self.cache@.take(i as int));
                        assert(self.inner.contents() == start.union_prefer_right(m));
                        assert(self.durable() == self.inner.contents());
                        assert(old(self).durable() == start);
                        assert(old(self).staged() == staged);
                        assert forall|k: Seq<u8>| #[trigger]
                            old(self).durable().contains_key(k) implies self.durable().contains_key(k) by {}
                        assert forall|k: Seq<u8>| !old(self).staged().contains_key(k) implies (
                        #[trigger] self.durable().contains_key(k) == old(self).durable().contains_key(k) && (
                        old(self).durable().contains_key(k) ==> self.durable()[k] == old(self).durable()[k])) by {
                            assert(!m.contains_key(k));
                        }
                    }
                    return Err(e);
                },
            }
            proof {
                let w = self.cache@.take(i + 1);
                assert(w.drop_last() =~= self.cache@.take(i as int));
                assert(self.inner.contents() =~= start.union_prefer_right(writes_map(w)));
            }
            i += 1;
        }
        assert(self.cache@.take(i as int) =~= self.cache@);
        proof {
            if self.cache@.len() == 0 {
                assert(staged == Map::<Seq<u8>, Seq<u8>>::empty());
            } else {
                assert(staged.contains_key(self.cache@.last().0@));
            }
        }
        self.cache = Vec::new();
        Ok(())
    }

    proof fn lemma_prefix_keys(&self, i: int)
        requires
            0 <= i <= self.cache@.len(),
        ensures
            forall|k: Seq<u8>| #[trigger]
                writes_map(self.cache@.take(i)).contains_key(k) ==> self.staged().contains_key(k),
    {
        assert forall|k: Seq<u8>| #[trigger]
            writes_map(self.cache@.take(i)).contains_key(k) implies self.staged().contains_key(k) by {
            lemma_writes_map_keys(self.cache@.take(i), k);
            lemma_writes_map_keys(self.cache@, k);
            let j = choose|j: int| 0 <= j < i && (#[trigger] self.cache@.take(i)[j]).0@ == k;
            assert(self.cache@[j] == self.cache@.take(i)[j]);
        }
    }
}

impl<B: Blobstore> Blobstore for MemWritesBlobstore<B> {
    open spec fn contents(&self) -> Map<Seq<u8>, Seq<u8>> {
        self.durable().union_prefer_right(self.staged())
    }

    open spec fn persisted(&self) -> Map<Seq<u8>, Seq<u8>> {
        self.durable()
    }

    open spec fn reliable(&self) -> bool {
        self.inner_store().reliable()
    }

    open spec fn buffered(&self) -> bool {
        true
    }

    fn get(&self, key: &Vec<u8>) -> (r: Result<Option<Vec<u8>>, StoreError>) {
        match lookup_last(&self.cache, key) {
            Some(v) => Ok(Some(v)),
            None => self.inner.get(key),
        }
    }

    fn put(&mut self, key: Vec<u8>, value: Vec<u8>) -> (r: Result<(), StoreError>) {
        let ghost before = self.cache@;
        self.cache.push((key, value));
        assert(self.cache@.drop_last() =~= before);
        assert(self.contents() =~= old(self).contents().insert(key@, value@));
        Ok(())
    }
}

} // verus!
