use vstd::prelude::*;

verus! {

/// The identity that created a note: an opaque principal, carried as its
/// raw bytes. The host resolves the caller to such a value before any
/// store operation runs.
pub struct Owner {
    pub bytes: Vec<u8>,
}

impl View for Owner {
    type V = Seq<u8>;

    open spec fn view(&self) -> Seq<u8> {
        self.bytes@
    }
}

/// The byte form of the anonymous principal: a single byte 0x04.
pub open spec fn anonymous_bytes() -> Seq<u8> {
    seq![4u8]
}

impl Owner {
    pub fn new(bytes: Vec<u8>) -> (r: Owner)
        ensures
            r@ == bytes@,
    {
        Owner { bytes }
    }

    /// Whether this identity is the anonymous principal.
    pub fn is_anonymous(&self) -> (r: bool)
        ensures
            r == (self@ == anonymous_bytes()),
    {
        let r = self.bytes.len() == 1 && *self.bytes.get(0).unwrap() == 4u8;
        proof {
            if r {
                assert(self@ =~= anonymous_bytes());
            }
        }
        r
    }
}

impl PartialEq for Owner {
    fn eq(&self, other: &Owner) -> (r: bool) {
        let n = self.bytes.len();
        if n != other.bytes.len() {
            return false;
        }
        let mut i: usize = 0;
        while i < n
            invariant
                n == self.bytes.len() == other.bytes.len(),
                i <= n,
                forall|j: int| 0 <= j < i ==> self.bytes@[j] == other.bytes@[j],
            decreases n - i,
        {
            if self.bytes[i] != other.bytes[i] {
                return false;
            }
            i += 1;
        }
        proof {
            assert(self.bytes@ =~= other.bytes@);
        }
        true
    }
}

impl vstd::std_specs::cmp::PartialEqSpecImpl for Owner {
    open spec fn obeys_eq_spec() -> bool {
        true
    }

    open spec fn eq_spec(&self, other: &Owner) -> bool {
        self.bytes@ == other.bytes@
    }
}

impl Eq for Owner {}

} // verus!
