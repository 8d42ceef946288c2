//! Commit identifiers.
use vstd::prelude::*;

verus! {

/// Width in bytes of a commit identifier.
pub const ID_LEN: usize = 32;

/// A content-derived identifier of a commit.
#[derive(Clone, Copy, Debug, Eq, Hash)]
pub struct ChangesetId {
    pub bytes: [u8; 32],
}

impl View for ChangesetId {
    type V = Seq<u8>;

    open spec fn view(&self) -> Seq<u8> {
        self.bytes@
    }
}

/// The views of a list of identifiers.
pub open spec fn ids_view(ids: Seq<ChangesetId>) -> Seq<Seq<u8>> {
    ids.map_values(|c: ChangesetId| c@)
}

impl ChangesetId {
    pub fn new(bytes: [u8; 32]) -> (r: ChangesetId)
        ensures
            r@ == bytes@,
    {
        ChangesetId { bytes }
    }

    /// Whether both identifiers hold the same bytes.
    pub fn same(&self, other: &ChangesetId) -> (r: bool)
        ensures
            r == (self@ == other@),
    {
        let mut i: usize = 0;
        while i < ID_LEN
            invariant
                0 <= i <= ID_LEN,
                self@.len() == ID_LEN,
                other@.len() == ID_LEN,
                forall|j: int| 0 <= j < i ==> self@[j] == other@[j],
            decreases ID_LEN - i,
        {
            if self.bytes[i] != other.bytes[i] {
                return false;
            }
            i += 1;
        }
        assert(self@ =~= other@);
        true
    }
}

impl PartialEq for ChangesetId {
    fn eq(&self, other: &ChangesetId) -> (r: bool) {
        self.same(other)
    }
}

impl vstd::std_specs::cmp::PartialEqSpecImpl for ChangesetId {
    open spec fn obeys_eq_spec() -> bool {
        true
    }

    open spec fn eq_spec(&self, other: &ChangesetId) -> bool {
        self@ == other@
    }
}

/// Whether `id` occurs in `ids`.
pub fn contains_id(ids: &Vec<ChangesetId>, id: &ChangesetId) -> (r: bool)
    ensures
        r == ids_view(ids@).contains(id@),
{
    let mut i: usize = 0;
    while i < ids.len()
        invariant
            0 <= i <= ids.len(),
            forall|j: int| 0 <= j < i ==> ids@[j]@ != id@,
        decreases ids.len() - i,
    {
        if ids[i].same(id) {
            assert(ids_view(ids@)[i as int] == id@);
            return true;
        }
        i += 1;
    }
    proof {
        if ids_view(ids@).contains(id@) {
            let k = choose|k: int| 0 <= k < ids_view(ids@).len() && ids_view(ids@)[k] == id@;
            assert(ids@[k]@ == id@);
        }
    }
    false
}

} // verus!
