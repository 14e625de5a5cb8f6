//! Content hashes: the identifiers of objects in the store.

use vstd::prelude::*;

verus! {

/// The identifier of an object's content: a byte string used for equality
/// tests and as the fetch key into the object store.
#[derive(Debug)]
pub struct ObjectId {
    pub bytes: Vec<u8>,
}

impl View for ObjectId {
    type V = Seq<u8>;

    open spec fn view(&self) -> Seq<u8> {
        self.bytes@
    }
}

impl PartialEq for ObjectId {
    fn eq(&self, other: &Self) -> bool {
        bytes_eq(&self.bytes, &other.bytes)
    }
}

impl vstd::std_specs::cmp::PartialEqSpecImpl for ObjectId {
    open spec fn obeys_eq_spec() -> bool {
        true
    }

    open spec fn eq_spec(&self, other: &Self) -> bool {
        self.bytes@ == other.bytes@
    }
}

impl Eq for ObjectId {}

impl Clone for ObjectId {
    fn clone(&self) -> (r: Self)
        ensures
            r@ == self@,
    {
        ObjectId { bytes: clone_bytes(&self.bytes) }
    }
}

/// Byte-for-byte equality of two byte strings.
pub fn bytes_eq(a: &Vec<u8>, b: &Vec<u8>) -> (r: bool)
    ensures
        r == (a@ == b@),
{
    if a.len() != b.len() {
        return false;
    }
    let mut i: usize = 0;
    while i < a.len()
        invariant
            i <= a.len(),
            a.len() == b.len(),
            forall|j: int| 0 <= j < i ==> a@[j] == b@[j],
        decreases a.len() - i,
    {
        if a[i] != b[i] {
            return false;
        }
        i += 1;
    }
    proof {
        assert(a@ =~= b@);
    }
    true
}

/// A fresh copy of a byte string.
pub fn clone_bytes(v: &Vec<u8>) -> (r: Vec<u8>)
    ensures
        r@ == v@,
{
    let mut r: Vec<u8> = Vec::new();
    let mut i: usize = 0;
    while i < v.len()
        invariant
            i <= v.len(),
            r@ == v@.take(i as int),
        decreases v.len() - i,
    {
        r.push(v[i]);
        i += 1;
        proof {
            assert(r@ =~= v@.take(i as int));
        }
    }
    proof {
        assert(v@.take(v.len() as int) =~= v@);
    }
    r
}

} // verus!
