//! Caller identities.

use crate::bytes::append;
use vstd::array::array_as_slice;
use vstd::prelude::*;
use vstd::slice::slice_subrange;
use vstd::std_specs::cmp::PartialEqSpecImpl;

verus! {

/// The most bytes that an identity can have.
pub const MAX_LENGTH_IN_BYTES: usize = 29;

/// The number of bytes under which an identity is stored.
pub const ENCODED_LENGTH: usize = 30;

/// An opaque identity of up to 29 bytes.
///
/// Identities are ordered by length first and by their bytes second. The
/// stored form, the length followed by the bytes padded with zeros, sorts the
/// same way as a byte string.
#[derive(Clone, Copy, Debug, Eq, PartialOrd, Ord, Hash)]
pub struct Principal {
    len: u8,
    bytes: [u8; 29],
}

impl PartialEq for Principal {
    fn eq(&self, other: &Self) -> (same: bool) {
        if self.len != other.len {
            return false;
        }
        let mut i: usize = 0;
        while i < 29
            invariant
                i <= 29,
                forall|j: int| 0 <= j < i ==> self.bytes[j] == other.bytes[j],
            decreases 29 - i,
        {
            if self.bytes[i] != other.bytes[i] {
                return false;
            }
            i += 1;
        }
        proof {
            assert(self.bytes =~= other.bytes);
        }
        true
    }
}

impl PartialEqSpecImpl for Principal {
    open spec fn obeys_eq_spec() -> bool {
        true
    }

    open spec fn eq_spec(&self, other: &Self) -> bool {
        *self == *other
    }
}

impl Principal {
    /// The bytes of the identity, without padding.
    pub closed spec fn as_bytes(self) -> Seq<u8> {
        self.bytes@.subrange(
            0,
            if self.len <= 29 {
                self.len as int
            } else {
                29
            },
        )
    }

    /// The stored form: the length, then the 29 bytes of the padded body.
    pub closed spec fn encoding(self) -> Seq<u8> {
        seq![self.len] + self.bytes@
    }

    /// The identity has at most 29 bytes, and zeros behind them.
    pub closed spec fn is_canonical(self) -> bool {
        &&& self.len <= 29
        &&& forall|i: int| self.len <= i < 29 ==> self.bytes[i] == 0
    }

    /// The stored form has 30 bytes.
    pub proof fn lemma_encoding_len(self)
        ensures
            self.encoding().len() == ENCODED_LENGTH,
    {
    }

    /// Two identities with the same stored form are the same identity.
    pub proof fn lemma_encoding_injective(self, other: Principal)
        requires
            self.encoding() == other.encoding(),
        ensures
            self == other,
    {
        assert(self.len == self.encoding()[0]);
        assert(other.len == other.encoding()[0]);
        assert forall|i: int| 0 <= i < 29 implies self.bytes[i] == other.bytes[i] by {
            assert(self.bytes[i] == self.encoding()[i + 1]);
            assert(other.bytes[i] == other.encoding()[i + 1]);
        }
        assert(self.bytes =~= other.bytes);
    }

    /// Two canonical identities with the same bytes are the same identity.
    pub proof fn lemma_as_bytes_injective(self, other: Principal)
        requires
            self.is_canonical(),
            other.is_canonical(),
            self.as_bytes() == other.as_bytes(),
        ensures
            self == other,
    {
        assert(self.as_bytes().len() == self.len);
        assert(other.as_bytes().len() == other.len);
        assert forall|i: int| 0 <= i < 29 implies self.bytes[i] == other.bytes[i] by {
            if i < self.len {
                assert(self.bytes[i] == self.as_bytes()[i]);
                assert(other.bytes[i] == other.as_bytes()[i]);
            }
        }
        assert(self.bytes =~= other.bytes);
    }

    /// The identity with the given bytes.
    pub fn from_slice(slice: &[u8]) -> (principal: Principal)
        requires
            slice@.len() <= MAX_LENGTH_IN_BYTES,
        ensures
            principal.as_bytes() == slice@,
            principal.is_canonical(),
    {
        let mut bytes = [0u8; 29];
        let mut i: usize = 0;
        while i < slice.len()
            invariant
                i <= slice@.len() <= 29,
                forall|j: int| 0 <= j < i ==> bytes[j] == slice@[j],
                forall|j: int| i <= j < 29 ==> bytes[j] == 0,
            decreases slice.len() - i,
        {
            bytes[i] = slice[i];
            i += 1;
        }
        let principal = Principal { len: slice.len() as u8, bytes };
        proof {
            assert(principal.as_bytes() =~= slice@);
        }
        principal
    }

    /// The identity with the given bytes, if they are at most 29.
    pub fn try_from_slice(slice: &[u8]) -> (principal: Option<Principal>)
        ensures
            principal.is_some() == (slice@.len() <= MAX_LENGTH_IN_BYTES),
            principal matches Some(p) ==> p.as_bytes() == slice@ && p.is_canonical(),
    {
        if slice.len() <= MAX_LENGTH_IN_BYTES {
            Some(Principal::from_slice(slice))
        } else {
            None
        }
    }

    /// The identity of the management canister: no bytes at all. It comes
    /// before every other identity.
    pub fn management_canister() -> (principal: Principal)
        ensures
            principal.as_bytes() == Seq::<u8>::empty(),
            principal.is_canonical(),
    {
        let principal = Principal { len: 0, bytes: [0u8; 29] };
        proof {
            assert(principal.as_bytes() =~= Seq::<u8>::empty());
        }
        principal
    }

    /// The anonymous identity, which stands for everyone: the one byte 4.
    pub fn anonymous() -> (principal: Principal)
        ensures
            principal == Principal::spec_anonymous(),
    {
        let mut bytes = [0u8; 29];
        bytes[0] = 4;
        let principal = Principal { len: 1, bytes };
        proof {
            Principal::lemma_anonymous();
            assert(principal.as_bytes() =~= seq![4u8]);
            principal.lemma_as_bytes_injective(Principal::spec_anonymous());
        }
        principal
    }

    /// The anonymous identity.
    pub closed spec fn spec_anonymous() -> Principal {
        Principal {
            len: 1,
            bytes: vstd::array::spec_array_update(
                vstd::array::spec_array_fill_for_copy_type::<u8, 29>(0u8),
                0,
                4u8,
            ),
        }
    }

    /// The anonymous identity is the canonical identity of the one byte 4.
    pub proof fn lemma_anonymous()
        ensures
            Principal::spec_anonymous().is_canonical(),
            Principal::spec_anonymous().as_bytes() == seq![4u8],
    {
        let p = Principal::spec_anonymous();
        assert(p.as_bytes() =~= seq![4u8]);
    }

    /// The bytes of the identity, without padding.
    pub fn as_slice(&self) -> (slice: &[u8])
        ensures
            slice@ == self.as_bytes(),
    {
        let n: usize = if self.len <= 29 {
            self.len as usize
        } else {
            29
        };
        slice_subrange(array_as_slice(&self.bytes), 0, n)
    }

    /// Appends the stored form to `out`.
    pub fn encode(&self, out: &mut Vec<u8>)
        ensures
            final(out)@ == old(out)@ + self.encoding(),
    {
        out.push(self.len);
        append(out, array_as_slice(&self.bytes));
        proof {
            assert(out@ =~= old(out)@ + self.encoding());
        }
    }

    /// The identity whose stored form stands in `bytes` at `at`.
    pub fn decode(bytes: &[u8], at: usize) -> (principal: Principal)
        requires
            at + ENCODED_LENGTH <= bytes@.len(),
        ensures
            principal.encoding() == bytes@.subrange(at as int, at + ENCODED_LENGTH),
    {
        let n: usize = bytes.len();
        let mut body = [0u8; 29];
        let mut i: usize = 0;
        while i < 29
            invariant
                i <= 29,
                n == bytes@.len(),
                at + 30 <= n,
                forall|j: int| 0 <= j < i ==> body[j] == bytes@[at + 1 + j],
            decreases 29 - i,
        {
            body[i] = bytes[at + 1 + i];
            i += 1;
        }
        let principal = Principal { len: bytes[at], bytes: body };
        proof {
            assert(principal.encoding() =~= bytes@.subrange(at as int, at + ENCODED_LENGTH));
        }
        principal
    }
}

} // verus!
