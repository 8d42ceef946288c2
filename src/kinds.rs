//! The kinds of derived data, and their names.
use vstd::prelude::*;
use vstd::string::StringSliceAdditionalSpecFns;

verus! {

/// A kind of derived data.
#[derive(Clone, Copy, Debug, PartialEq, Eq, Structural)]
pub enum DerivedDataKind {
    /// Per-commit unode manifests.
    Unodes,
    /// Per-path history indexes.
    Fastlog,
}

/// The name of a kind, as it appears on command lines and in storage keys:
/// `unodes` or `fastlog`, in ASCII.
pub open spec fn kind_name(k: DerivedDataKind) -> Seq<u8> {
    match k {
        DerivedDataKind::Unodes => seq![117u8, 110, 111, 100, 101, 115],
        DerivedDataKind::Fastlog => seq![102u8, 97, 115, 116, 108, 111, 103],
    }
}

/// A name that no kind has.
#[derive(Clone, Copy, Debug, PartialEq, Eq, Structural)]
pub struct UnsupportedKind;

fn slice_matches(a: &[u8], b: &Vec<u8>) -> (r: bool)
    ensures
        r == (a@ == b@),
{
    if a.len() != b.len() {
        return false;
    }
    let mut i: usize = 0;
    while i < a.len()
        invariant
            0 <= i <= a@.len(),
            a@.len() == b@.len(),
            forall|j: int| 0 <= j < i ==> a@[j] == b@[j],
        decreases a@.len() - i,
    {
        if a[i] != b[i] {
            return false;
        }
        i += 1;
    }
    assert(a@ =~= b@);
    true
}

impl DerivedDataKind {
    /// The bytes of the kind's name.
    pub fn name_bytes(&self) -> (r: Vec<u8>)
        ensures
            r@ == kind_name(*self),
    {
        let r = match self {
            DerivedDataKind::Unodes => vec![117u8, 110, 111, 100, 101, 115],
            DerivedDataKind::Fastlog => vec![102u8, 97, 115, 116, 108, 111, 103],
        };
        assert(r@ =~= kind_name(*self));
        r
    }

    /// The kind that bears `name`.
    pub fn from_name(name: &str) -> (r: Result<DerivedDataKind, UnsupportedKind>)
        ensures
            match r {
                Ok(k) => kind_name(k) == name.spec_bytes(),
                Err(_) => forall|k: DerivedDataKind| kind_name(k) != name.spec_bytes(),
            },
    {
        let b = name.as_bytes();
        if slice_matches(b, &DerivedDataKind::Unodes.name_bytes()) {
            Ok(DerivedDataKind::Unodes)
        } else if slice_matches(b, &DerivedDataKind::Fastlog.name_bytes()) {
            Ok(DerivedDataKind::Fastlog)
        } else {
            proof {
                assert forall|k: DerivedDataKind| kind_name(k) != name.spec_bytes() by {
                    match k {
                        DerivedDataKind::Unodes => {},
                        DerivedDataKind::Fastlog => {},
                    }
                }
            }
            Err(UnsupportedKind)
        }
    }
}

/// Distinct kinds have distinct names.
pub proof fn lemma_kind_names_distinct(a: DerivedDataKind, b: DerivedDataKind)
    requires
        a != b,
    ensures
        kind_name(a) != kind_name(b),
        kind_name(a)[0] != kind_name(b)[0],
{
}

} // verus!
