//! The snapshot codec: a list of commit entries as one binary blob.
//!
//! Layout: one version byte, the number of entries as a big-endian `u64`,
//! then each entry in turn: its 32-byte identifier, its generation (`u64`),
//! the number of its parents (`u64`), and the parents' identifiers.
use vstd::prelude::*;
use crate::ids::{ChangesetId, ids_view, ID_LEN};

verus! {

/// The version byte that leads every snapshot.
pub const FORMAT_VERSION: u8 = 1;

/// Metadata of one commit: its identifier, its generation number and its
/// parents.
#[derive(Clone, Debug)]
pub struct CommitEntry {
    pub cs_id: ChangesetId,
    pub gen: u64,
    pub parents: Vec<ChangesetId>,
}

/// What a commit entry stands for.
pub struct CommitEntryModel {
    pub id: Seq<u8>,
    pub gen: u64,
    pub parents: Seq<Seq<u8>>,
}

impl View for CommitEntry {
    type V = CommitEntryModel;

    open spec fn view(&self) -> CommitEntryModel {
        CommitEntryModel { id: self.cs_id@, gen: self.gen, parents: ids_view(self.parents@) }
    }
}

impl PartialEq for CommitEntry {
    fn eq(&self, other: &CommitEntry) -> (r: bool) {
        if !self.cs_id.same(&other.cs_id) || self.gen != other.gen || self.parents.len()
            != other.parents.len() {
            assert(self@.id != other@.id || self@.gen != other@.gen || self@.parents.len()
                != other@.parents.len());
            return false;
        }
        let mut i: usize = 0;
        while i < self.parents.len()
            invariant
                0 <= i <= self.parents@.len(),
                self.parents@.len() == other.parents@.len(),
                forall|j: int| 0 <= j < i ==> self.parents@[j]@ == other.parents@[j]@,
            decreases self.parents@.len() - i,
        {
            if !self.parents[i].same(&other.parents[i]) {
                assert(self@.parents[i as int] != other@.parents[i as int]);
                return false;
            }
            i += 1;
        }
        assert(self@.parents =~= other@.parents);
        true
    }
}

impl vstd::std_specs::cmp::PartialEqSpecImpl for CommitEntry {
    open spec fn obeys_eq_spec() -> bool {
        true
    }

    open spec fn eq_spec(&self, other: &CommitEntry) -> bool {
        self@ == other@
    }
}

pub open spec fn entries_view(es: Seq<CommitEntry>) -> Seq<CommitEntryModel> {
    es.map_values(|e: CommitEntry| e@)
}

/// Every identifier in the entry is 32 bytes wide.
pub open spec fn entry_wf(e: CommitEntryModel) -> bool {
    &&& e.id.len() == ID_LEN
    &&& e.parents.len() <= u64::MAX
    &&& forall|i: int| 0 <= i < e.parents.len() ==> (#[trigger] e.parents[i]).len() == ID_LEN
}

/// The eight big-endian bytes of `x`.
pub open spec fn be_bytes(x: u64) -> Seq<u8> {
    seq![
        (x >> 56u64) as u8,
        (x >> 48u64) as u8,
        (x >> 40u64) as u8,
        (x >> 32u64) as u8,
        (x >> 24u64) as u8,
        (x >> 16u64) as u8,
        (x >> 8u64) as u8,
        x as u8,
    ]
}

/// The big-endian `u64` held by the eight bytes of `b` from `at` on.
pub open spec fn read_be(b: Seq<u8>, at: int) -> u64 {
    ((b[at] as u64) << 56u64) | ((b[at + 1] as u64) << 48u64) | ((b[at + 2] as u64) << 40u64) | ((
    b[at + 3] as u64) << 32u64) | ((b[at + 4] as u64) << 24u64) | ((b[at + 5] as u64) << 16u64) | ((
    b[at + 6] as u64) << 8u64) | (b[at + 7] as u64)
}

/// The identifiers one after the other.
pub open spec fn concat_ids(ps: Seq<Seq<u8>>) -> Seq<u8>
    decreases ps.len(),
{
    if ps.len() == 0 {
        Seq::empty()
    } else {
        concat_ids(ps.drop_last()) + ps.last()
    }
}

pub open spec fn encode_entry(e: CommitEntryModel) -> Seq<u8> {
    e.id + be_bytes(e.gen) + be_bytes(e.parents.len() as u64) + concat_ids(e.parents)
}

pub open spec fn encode_list(es: Seq<CommitEntryModel>) -> Seq<u8>
    decreases es.len(),
{
    if es.len() == 0 {
        Seq::empty()
    } else {
        encode_list(es.drop_last()) + encode_entry(es.last())
    }
}

/// The snapshot of a list of entries.
pub open spec fn encode_spec(es: Seq<CommitEntryModel>) -> Seq<u8> {
    seq![FORMAT_VERSION] + be_bytes(es.len() as u64) + encode_list(es)
}

fn push_be(out: &mut Vec<u8>, x: u64)
    ensures
        final(out)@ == old(out)@ + be_bytes(x),
{
    out.push((x >> 56u64) as u8);
    out.push((x >> 48u64) as u8);
    out.push((x >> 40u64) as u8);
    out.push((x >> 32u64) as u8);
    out.push((x >> 24u64) as u8);
    out.push((x >> 16u64) as u8);
    out.push((x >> 8u64) as u8);
    out.push(x as u8);
    assert(final(out)@ =~= old(out)@ + be_bytes(x));
}

fn push_id(out: &mut Vec<u8>, id: &ChangesetId)
    ensures
        final(out)@ == old(out)@ + id@,
{
    let ghost start = out@;
    let mut i: usize = 0;
    while i < ID_LEN
        invariant
            0 <= i <= ID_LEN,
            id@.len() == ID_LEN,
            out@ =~= start + id@.take(i as int),
        decreases ID_LEN - i,
    {
        out.push(id.bytes[i]);
        assert(id@.take(i + 1) =~= id@.take(i as int).push(id@[i as int]));
        i += 1;
    }
    assert(id@.take(ID_LEN as int) =~= id@);
}

fn push_entry(out: &mut Vec<u8>, e: &CommitEntry)
    ensures
        final(out)@ == old(out)@ + encode_entry(e@),
{
    let ghost start = out@;
    push_id(out, &e.cs_id);
    push_be(out, e.gen);
    push_be(out, e.parents.len() as u64);
    let ghost head = out@;
    let mut i: usize = 0;
    while i < e.parents.len()
        invariant
            0 <= i <= e.parents.len(),
            out@ == head + concat_ids(ids_view(e.parents@).take(i as int)),
        decreases e.parents.len() - i,
    {
        push_id(out, &e.parents[i]);
        assert(ids_view(e.parents@).take(i + 1).drop_last() =~= ids_view(e.parents@).take(
            i as int,
        ));
        i += 1;
    }
    assert(ids_view(e.parents@).take(i as int) =~= ids_view(e.parents@));
    assert(out@ =~= start + encode_entry(e@));
}

/// Encodes a list of commit entries as one snapshot.
pub fn serialize_cs_entries(entries: &Vec<CommitEntry>) -> (r: Vec<u8>)
    ensures
        r@ == encode_spec(entries_view(entries@)),
{
    let mut out: Vec<u8> = Vec::new();
    out.push(FORMAT_VERSION);
    push_be(&mut out, entries.len() as u64);
    let ghost head = out@;
    let mut i: usize = 0;
    while i < entries.len()
        invariant
            0 <= i <= entries.len(),
            out@ == head + encode_list(entries_view(entries@).take(i as int)),
        decreases entries.len() - i,
    {
        push_entry(&mut out, &entries[i]);
        assert(entries_view(entries@).take(i + 1).drop_last() =~= entries_view(entries@).take(
            i as int,
        ));
        i += 1;
    }
    assert(entries_view(entries@).take(i as int) =~= entries_view(entries@));
    assert(out@ =~= encode_spec(entries_view(entries@)));
    out
}

/// Why a snapshot could not be decoded.
#[derive(Clone, Copy, Debug, PartialEq, Eq, Structural)]
pub enum DecodeError {
    /// The first byte is not a version this codec reads.
    UnknownVersion,
    /// The bytes end early, or go on past the last entry.
    Malformed,
}

/// Width of an entry's fixed part: identifier, generation, parent count.
pub open spec fn entry_head_len() -> int {
    ID_LEN + 16
}

/// The entry that starts at `at`, and where the next one starts.
#[verifier::opaque]
pub open spec fn parse_entry(b: Seq<u8>, at: int) -> Option<(CommitEntryModel, int)> {
    if at < 0 || at + entry_head_len() > b.len() {
        None
    } else {
        let np = read_be(b, at + 40) as int;
        let end = at + entry_head_len() + ID_LEN * np;
        if end > b.len() {
            None
        } else {
            Some(
                (
                    CommitEntryModel {
                        id: b.subrange(at, at + ID_LEN),
                        gen: read_be(b, at + 32),
                        parents: Seq::new(
                            np as nat,
                            |i: int|
                                b.subrange(
                                    at + entry_head_len() + ID_LEN * i,
                                    at + entry_head_len() + ID_LEN * i + ID_LEN,
                                ),
                        ),
                    },
                    end,
                ),
            )
        }
    }
}

/// The `n` entries that start at `at` and take up the rest of `b`.
pub open spec fn parse_list(b: Seq<u8>, at: int, n: nat) -> Option<Seq<CommitEntryModel>>
    decreases n,
{
    if n == 0 {
        if at == b.len() {
            Some(Seq::empty())
        } else {
            None
        }
    } else {
        match parse_entry(b, at) {
            None => None,
            Some((e, next)) => match parse_list(b, next, (n - 1) as nat) {
                None => None,
                Some(rest) => Some(seq![e] + rest),
            },
        }
    }
}

/// The entries of a snapshot, or `None` where `b` is none.
pub open spec fn decode_spec(b: Seq<u8>) -> Option<Seq<CommitEntryModel>> {
    if b.len() < 9 || b[0] != FORMAT_VERSION {
        None
    } else {
        parse_list(b, 9, read_be(b, 1) as nat)
    }
}

fn read_u64_be(b: &Vec<u8>, at: usize) -> (r: u64)
    requires
        at + 8 <= b@.len(),
    ensures
        r == read_be(b@, at as int),
{
    let _len = b.len();
    ((b[at] as u64) << 56u64) | ((b[at + 1] as u64) << 48u64) | ((b[at + 2] as u64) << 40u64) | ((
    b[at + 3] as u64) << 32u64) | ((b[at + 4] as u64) << 24u64) | ((b[at + 5] as u64) << 16u64) | ((
    b[at + 6] as u64) << 8u64) | (b[at + 7] as u64)
}

fn read_id(b: &Vec<u8>, at: usize) -> (r: ChangesetId)
    requires
        at + ID_LEN <= b@.len(),
    ensures
        r@ == b@.subrange(at as int, at + ID_LEN),
{
    let len = b.len();
    let mut bytes: [u8; 32] = [0u8; 32];
    let mut i: usize = 0;
    while i < ID_LEN
        invariant
            0 <= i <= ID_LEN,
            len == b@.len(),
            at + ID_LEN <= b@.len(),
            bytes@.len() == ID_LEN,
            forall|j: int| 0 <= j < i ==> bytes@[j] == b@[at + j],
        decreases ID_LEN - i,
    {
        bytes[i] = b[at + i];
        i += 1;
    }
    let r = ChangesetId { bytes };
    assert(r@ =~= b@.subrange(at as int, at + ID_LEN));
    r
}

fn read_entry(b: &Vec<u8>, at: usize) -> (r: Option<(CommitEntry, usize)>)
    requires
        at <= b@.len(),
    ensures
        match r {
            None => parse_entry(b@, at as int) is None,
            Some((e, next)) => parse_entry(b@, at as int) == Some((e@, next as int)) && at < next
                <= b@.len(),
        },
{
    reveal(parse_entry);
    if b.len() - at < 48 {
        return None;
    }
    let cs_id = read_id(b, at);
    let gen = read_u64_be(b, at + 32);
    let np = read_u64_be(b, at + 40);
    let base = at + 48;
    if np > ((b.len() - base) / 32) as u64 {
        return None;
    }
    let np = np as usize;
    let mut parents: Vec<ChangesetId> = Vec::new();
    let mut i: usize = 0;
    let len = b.len();
    while i < np
        invariant
            0 <= i <= np,
            len == b@.len(),
            base == at + 48,
            base + 32 * np <= b@.len(),
            parents@.len() == i,
            forall|j: int|
                0 <= j < i ==> (#[trigger] parents@[j])@ == b@.subrange(
                    base + 32 * j,
                    base + 32 * j + 32,
                ),
        decreases np - i,
    {
        proof {
            assert(base + 32 * i + 32 <= base + 32 * np) by (nonlinear_arith)
                requires
                    i < np,
            ;
        }
        let p = read_id(b, base + 32 * i);
        parents.push(p);
        i += 1;
    }
    let e = CommitEntry { cs_id, gen, parents };
    let next = base + 32 * np;
    assert(e@.parents =~= parse_entry(b@, at as int).unwrap().0.parents);
    Some((e, next))
}

/// Decodes a snapshot into the list of entries it holds.
pub fn deserialize_cs_entries(b: &Vec<u8>) -> (r: Result<Vec<CommitEntry>, DecodeError>)
    ensures
        match r {
            Ok(v) => decode_spec(b@) == Some(entries_view(v@)),
            Err(DecodeError::UnknownVersion) => b@.len() > 0 && b@[0] != FORMAT_VERSION,
            Err(DecodeError::Malformed) => decode_spec(b@) is None && (b@.len() == 0 || b@[0]
                == FORMAT_VERSION),
        },
{
    if b.len() == 0 {
        return Err(DecodeError::Malformed);
    }
    if b[0] != FORMAT_VERSION {
        return Err(DecodeError::UnknownVersion);
    }
    if b.len() < 9 {
        return Err(DecodeError::Malformed);
    }
    let n = read_u64_be(b, 1);
    let ghost total = n as nat;
    let mut out: Vec<CommitEntry> = Vec::new();
    let mut at: usize = 9;
    let mut i: u64 = 0;
    while i < n
        invariant
            9 <= at <= b@.len(),
            b@[0] == FORMAT_VERSION,
            i <= n,
            decode_spec(b@) == (match parse_list(b@, at as int, (n - i) as nat) {
                None => None,
                Some(rest) => Some(entries_view(out@) + rest),
            }),
        decreases b@.len() - at,
    {
        match read_entry(b, at) {
            None => {
                proof {
                    let k = (n - i) as nat;
                    assert(k > 0);
                    assert(parse_list(b@, at as int, k) is None);
                }
                return Err(DecodeError::Malformed);
            },
            Some((e, next)) => {
                let ghost old_out = out@;
                out.push(e);
                proof {
                    assert(entries_view(out@) =~= entries_view(old_out) + seq![e@]);
                    match parse_list(b@, next as int, (n - i - 1) as nat) {
                        None => {},
                        Some(rest) => {
                            assert(entries_view(out@) + rest =~= entries_view(old_out) + (seq![e@]
                                + rest));
                        },
                    }
                }
                at = next;
                i += 1;
            },
        }
    }
    if at != b.len() {
        return Err(DecodeError::Malformed);
    }
    assert(entries_view(out@) + Seq::<CommitEntryModel>::empty() =~= entries_view(out@));
    Ok(out)
}

proof fn lemma_read_be(x: u64, b: Seq<u8>, at: int)
    requires
        0 <= at,
        at + 8 <= b.len(),
        forall|k: int| 0 <= k < 8 ==> b[at + k] == #[trigger] be_bytes(x)[k],
    ensures
        read_be(b, at) == x,
{
    let b0 = b[at];
    let b1 = b[at + 1];
    let b2 = b[at + 2];
    let b3 = b[at + 3];
    let b4 = b[at + 4];
    let b5 = b[at + 5];
    let b6 = b[at + 6];
    let b7 = b[at + 7];
    assert(b0 == be_bytes(x)[0] && b1 == be_bytes(x)[1] && b2 == be_bytes(x)[2] && b3 == be_bytes(
        x,
    )[3] && b4 == be_bytes(x)[4] && b5 == be_bytes(x)[5] && b6 == be_bytes(x)[6] && b7 == be_bytes(
        x,
    )[7]);
    assert(((b0 as u64) << 56u64) | ((b1 as u64) << 48u64) | ((b2 as u64) << 40u64) | ((b3 as u64)
        << 32u64) | ((b4 as u64) << 24u64) | ((b5 as u64) << 16u64) | ((b6 as u64) << 8u64) | (
    b7 as u64) == x) by (bit_vector)
        requires
            b0 == (x >> 56u64) as u8,
            b1 == (x >> 48u64) as u8,
            b2 == (x >> 40u64) as u8,
            b3 == (x >> 32u64) as u8,
            b4 == (x >> 24u64) as u8,
            b5 == (x >> 16u64) as u8,
            b6 == (x >> 8u64) as u8,
            b7 == x as u8,
    ;
}

proof fn lemma_concat_ids(ps: Seq<Seq<u8>>)
    requires
        forall|i: int| 0 <= i < ps.len() ==> (#[trigger] ps[i]).len() == ID_LEN,
    ensures
        concat_ids(ps).len() == ID_LEN * ps.len(),
        forall|i: int|
            0 <= i < ps.len() ==> concat_ids(ps).subrange(ID_LEN * i, ID_LEN * i + ID_LEN)
                == #[trigger] ps[i],
    decreases ps.len(),
{
    if ps.len() > 0 {
        let init = ps.drop_last();
        lemma_concat_ids(init);
        let c = concat_ids(ps);
        assert(c == concat_ids(init) + ps.last());
        assert forall|i: int| 0 <= i < ps.len() implies c.subrange(
            ID_LEN * i,
            ID_LEN * i + ID_LEN,
        ) == #[trigger] ps[i] by {
            if i < ps.len() - 1 {
                assert(init[i] == ps[i]);
                assert(ID_LEN * i + ID_LEN <= ID_LEN * init.len()) by (nonlinear_arith)
                    requires
                        i < init.len(),
                ;
                assert(c.subrange(ID_LEN * i, ID_LEN * i + ID_LEN) =~= concat_ids(init).subrange(
                    ID_LEN * i,
                    ID_LEN * i + ID_LEN,
                ));
            } else {
                assert(c.subrange(ID_LEN * i, ID_LEN * i + ID_LEN) =~= ps.last());
            }
        }
    }
}

proof fn lemma_parse_entry(p: Seq<u8>, e: CommitEntryModel, s: Seq<u8>)
    requires
        entry_wf(e),
    ensures
        parse_entry(p + encode_entry(e) + s, p.len() as int) == Some(
            (e, p.len() + encode_entry(e).len() as int),
        ),
{
    reveal(parse_entry);
    let enc = encode_entry(e);
    let b = p + enc + s;
    let at = p.len() as int;
    let np = e.parents.len();
    lemma_concat_ids(e.parents);
    assert forall|k: int| 0 <= k < enc.len() implies b[at + k] == enc[k] by {}
    assert(b.subrange(at, at + ID_LEN) =~= e.id);
    assert forall|k: int| 0 <= k < 8 implies b[at + 32 + k] == #[trigger] be_bytes(e.gen)[k] by {
        assert(enc[32 + k] == be_bytes(e.gen)[k]);
    }
    lemma_read_be(e.gen, b, at + 32);
    assert forall|k: int| 0 <= k < 8 implies b[at + 40 + k] == #[trigger] be_bytes(
        np as u64,
    )[k] by {
        assert(enc[40 + k] == be_bytes(np as u64)[k]);
    }
    lemma_read_be(np as u64, b, at + 40);
    let c = concat_ids(e.parents);
    let parsed = Seq::new(
        np as nat,
        |i: int|
            b.subrange(
                at + entry_head_len() + ID_LEN * i,
                at + entry_head_len() + ID_LEN * i + ID_LEN,
            ),
    );
    assert forall|i: int| 0 <= i < np implies parsed[i] == e.parents[i] by {
        assert(ID_LEN * i + ID_LEN <= ID_LEN * np) by (nonlinear_arith)
            requires
                i < np,
        ;
        assert(c.subrange(ID_LEN * i, ID_LEN * i + ID_LEN) == e.parents[i]);
        assert(parsed[i] =~= c.subrange(ID_LEN * i, ID_LEN * i + ID_LEN));
    }
    assert(parsed =~= e.parents);
}

proof fn lemma_encode_list_front(es: Seq<CommitEntryModel>)
    requires
        es.len() > 0,
    ensures
        encode_list(es) == encode_entry(es[0]) + encode_list(es.drop_first()),
    decreases es.len(),
{
    if es.len() > 1 {
        let init = es.drop_last();
        let tail = es.drop_first();
        lemma_encode_list_front(init);
        assert(init.drop_first() =~= tail.drop_last());
        assert(init[0] == es[0]);
        assert(tail.last() == es.last());
        assert(encode_list(es) == encode_list(init) + encode_entry(es.last()));
        assert(encode_list(tail) == encode_list(tail.drop_last()) + encode_entry(tail.last()));
        assert(encode_list(es) =~= encode_entry(es[0]) + encode_list(tail));
    } else {
        let init = es.drop_last();
        let tail = es.drop_first();
        assert(init.len() == 0);
        assert(tail.len() == 0);
        assert(encode_list(init) =~= Seq::<u8>::empty());
        assert(encode_list(tail) =~= Seq::<u8>::empty());
        assert(es.last() == es[0]);
        assert(encode_list(es) =~= encode_entry(es[0]) + encode_list(tail));
    }
}

proof fn lemma_parse_list(p: Seq<u8>, es: Seq<CommitEntryModel>)
    requires
        forall|i: int| 0 <= i < es.len() ==> entry_wf(#[trigger] es[i]),
    ensures
        parse_list(p + encode_list(es), p.len() as int, es.len()) == Some(es),
    decreases es.len(),
{
    if es.len() == 0 {
        assert(p + encode_list(es) =~= p);
    } else {
        lemma_encode_list_front(es);
        let rest = es.drop_first();
        let head = encode_entry(es[0]);
        let b = p + encode_list(es);
        assert(b =~= p + head + encode_list(rest));
        lemma_parse_entry(p, es[0], encode_list(rest));
        assert forall|i: int| 0 <= i < rest.len() implies entry_wf(#[trigger] rest[i]) by {
            assert(rest[i] == es[i + 1]);
        }
        lemma_parse_list(p + head, rest);
        assert(b =~= (p + head) + encode_list(rest));
        assert(seq![es[0]] + rest =~= es);
    }
}

/// Decoding the snapshot of a list of well-formed entries gives back that
/// same list, whether it is empty or its entries have no or many parents.
pub proof fn lemma_round_trip(es: Seq<CommitEntryModel>)
    requires
        es.len() <= u64::MAX,
        forall|i: int| 0 <= i < es.len() ==> entry_wf(#[trigger] es[i]),
    ensures
        decode_spec(encode_spec(es)) == Some(es),
{
    let p = seq![FORMAT_VERSION] + be_bytes(es.len() as u64);
    let b = encode_spec(es);
    assert(b =~= p + encode_list(es));
    assert forall|k: int| 0 <= k < 8 implies b[1 + k] == #[trigger] be_bytes(es.len() as u64)[k] by {
        assert(b[1 + k] == p[1 + k]);
    }
    lemma_read_be(es.len() as u64, b, 1);
    lemma_parse_list(p, es);
}

} // verus!
