//! Identifiers shared by the stores: changeset hashes, repositories and
//! dense vertex ids.
use vstd::prelude::*;

verus! {

/// A 32-byte changeset hash. Two ids are equal exactly when their bytes are.
#[derive(Clone, Copy, Debug)]
pub struct ChangesetId {
    pub bytes: [u8; 32],
}

impl View for ChangesetId {
    type V = Seq<u8>;

    open spec fn view(&self) -> Seq<u8> {
        self.bytes@
    }
}

impl PartialEq for ChangesetId {
    fn eq(&self, o: &ChangesetId) -> (r: bool) {
        let mut i: usize = 0;
        while i < 32
            invariant
                i <= 32,
                self.bytes@.len() == 32,
                o.bytes@.len() == 32,
                forall|j: int| 0 <= j < i ==> self.bytes@[j] == o.bytes@[j],
            decreases 32 - i,
        {
            if self.bytes[i] != o.bytes[i] {
                return false;
            }
            i = i + 1;
        }
        assert(self.bytes =~= o.bytes);
        true
    }
}

impl vstd::std_specs::cmp::PartialEqSpecImpl for ChangesetId {
    open spec fn obeys_eq_spec() -> bool {
        true
    }

    open spec fn eq_spec(&self, o: &ChangesetId) -> bool {
        *self == *o
    }
}

impl Eq for ChangesetId {}

impl ChangesetId {
    pub fn from_bytes(bytes: [u8; 32]) -> (r: ChangesetId)
        ensures
            r.bytes == bytes,
    {
        ChangesetId { bytes }
    }

    /// A changeset id whose 32 bytes all equal `b` (handy for fixtures).
    pub fn repeated(b: u8) -> (r: ChangesetId)
        ensures
            forall|i: int| 0 <= i < 32 ==> r.bytes@[i] == b,
    {
        ChangesetId { bytes: [b; 32] }
    }
}

/// A repository's numeric id.
#[derive(PartialEq, Eq, Structural, Clone, Copy, Debug)]
pub struct RepositoryId {
    pub id: i32,
}

impl RepositoryId {
    pub fn new(id: i32) -> (r: RepositoryId)
        ensures
            r.id == id,
    {
        RepositoryId { id }
    }
}

/// A dense vertex id assigned by the IdMap.
#[derive(PartialEq, Eq, Structural, Clone, Copy, Debug)]
pub struct Vertex(pub u64);

} // verus!
