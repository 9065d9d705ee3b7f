//! ISV Family ID.

use vstd::prelude::*;

verus! {

/// The number of bytes in a [`FamilyId`].
pub const FAMILY_ID_SIZE: usize = 16;

/// The ISV Family ID for a given enclave.
///
/// This is used when deriving keys when the Key Separation & Sharing feature
/// is enabled.
#[derive(Debug, Eq, Hash, PartialEq)]
pub struct FamilyId {
    bytes: Vec<u8>,
}

impl View for FamilyId {
    type V = Seq<u8>;

    closed spec fn view(&self) -> Seq<u8> {
        self.bytes@
    }
}

impl FamilyId {
    /// A family identity always holds exactly [`FAMILY_ID_SIZE`] bytes.
    #[verifier::type_invariant]
    spec fn sized(&self) -> bool {
        self.bytes@.len() == FAMILY_ID_SIZE
    }

    /// The identity's bytes.
    pub fn to_bytes(&self) -> (r: Vec<u8>)
        ensures
            r@ == self@,
    {
        proof {
            use_type_invariant(self);
        }
        let mut out: Vec<u8> = Vec::new();
        let mut i: usize = 0;
        while i < self.bytes.len()
            invariant
                i <= self.bytes@.len(),
                out@ == self.bytes@.take(i as int),
            decreases self.bytes@.len() - i,
        {
            out.push(self.bytes[i]);
            proof {
                assert(out@ =~= self.bytes@.take(i + 1));
            }
            i += 1;
        }
        proof {
            assert(out@ =~= self.bytes@);
        }
        out
    }

    /// Reads an identity back from bytes; exactly [`FAMILY_ID_SIZE`] of them
    /// are accepted.
    pub fn from_bytes(bytes: &Vec<u8>) -> (r: Option<FamilyId>)
        ensures
            match r {
                Some(f) => bytes@.len() == FAMILY_ID_SIZE && f@ == bytes@,
                None => bytes@.len() != FAMILY_ID_SIZE,
            },
    {
        if bytes.len() != FAMILY_ID_SIZE {
            return None;
        }
        let mut own: Vec<u8> = Vec::new();
        let mut i: usize = 0;
        while i < bytes.len()
            invariant
                i <= bytes@.len(),
                own@ == bytes@.take(i as int),
            decreases bytes@.len() - i,
        {
            own.push(bytes[i]);
            proof {
                assert(own@ =~= bytes@.take(i + 1));
            }
            i += 1;
        }
        proof {
            assert(own@ =~= bytes@);
        }
        Some(FamilyId { bytes: own })
    }
}

impl From<[u8; 16]> for FamilyId {
    /// Wraps the raw 16-byte form.
    fn from(src: [u8; 16]) -> (r: FamilyId)
        ensures
            r@ == src@,
    {
        let mut own: Vec<u8> = Vec::new();
        let mut i: usize = 0;
        while i < 16
            invariant
                i <= 16,
                src@.len() == 16,
                own@ == src@.take(i as int),
            decreases 16 - i,
        {
            own.push(src[i]);
            proof {
                assert(own@ =~= src@.take(i + 1));
            }
            i += 1;
        }
        proof {
            assert(own@ =~= src@);
        }
        FamilyId { bytes: own }
    }
}

impl vstd::std_specs::convert::FromSpecImpl<[u8; 16]> for FamilyId {
    open spec fn obeys_from_spec() -> bool {
        false
    }

    open spec fn from_spec(src: [u8; 16]) -> FamilyId {
        vstd::pervasive::arbitrary()
    }
}

} // verus!
