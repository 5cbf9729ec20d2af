//! Byte buffers, the names of keys and maps, and the error of initialization.

use crate::bytes::copy_range;
use crate::principal::Principal;
use vstd::prelude::*;
use vstd::std_specs::convert::FromSpecImpl;

verus! {

/// The name of a key: 32 bytes.
pub type KeyName = [u8; 32];

/// The name of a map: 32 bytes.
pub type MapName = KeyName;

/// A key: its owner and its name.
pub type KeyId = (Principal, KeyName);

/// A map: its owner and its name.
pub type MapId = KeyId;

/// A key inside a map: 32 bytes.
pub type MapKey = [u8; 32];

/// A public key under which a derived key is encrypted on its way out.
pub type TransportKey = ByteBuf;

/// A value of a map, encrypted by its writer.
pub type EncryptedMapValue = ByteBuf;

/// Why initialization was refused.
#[derive(Clone, Copy, Debug, PartialEq, Eq, Structural)]
pub enum MemoryInitializationError {
    /// A region asked for is in use already.
    AlreadyInitialized,
    /// The region of the domain separator holds a cell that cannot be read.
    DomainSeparatorUnreadable,
}

/// A buffer of bytes.
#[derive(Clone, Debug, PartialEq, Eq, PartialOrd, Ord, Hash)]
pub struct ByteBuf {
    inner: Vec<u8>,
}

impl View for ByteBuf {
    type V = Seq<u8>;

    closed spec fn view(&self) -> Seq<u8> {
        self.inner@
    }
}

impl ByteBuf {
    /// The empty buffer.
    #[must_use]
    pub fn new() -> (buf: Self)
        ensures
            buf@ == Seq::<u8>::empty(),
    {
        ByteBuf { inner: Vec::new() }
    }

    /// The bytes of the buffer.
    pub fn as_slice(&self) -> (bytes: &[u8])
        ensures
            bytes@ == self@,
    {
        self.inner.as_slice()
    }

    /// The number of bytes in the buffer.
    pub fn len(&self) -> (n: usize)
        ensures
            n == self@.len(),
    {
        self.inner.len()
    }

    /// A second buffer with the same bytes.
    pub fn duplicate(&self) -> (buf: Self)
        ensures
            buf@ == self@,
    {
        let inner = copy_range(self.inner.as_slice(), 0, self.inner.len());
        proof {
            assert(self.inner@.subrange(0, self.inner@.len() as int) =~= self.inner@);
        }
        ByteBuf { inner }
    }

    /// The buffer that holds the bytes of `inner`.
    pub fn from_vec(inner: Vec<u8>) -> (buf: Self)
        ensures
            buf == ByteBuf::spec_from_vec(inner),
            buf@ == inner@,
    {
        ByteBuf { inner }
    }

    /// The bytes of the buffer, as a vector.
    pub fn into_vec(self) -> (inner: Vec<u8>)
        ensures
            inner == self.spec_into_vec(),
            inner@ == self@,
    {
        self.inner
    }

    /// The buffer that holds the bytes of `inner`.
    pub closed spec fn spec_from_vec(inner: Vec<u8>) -> ByteBuf {
        ByteBuf { inner }
    }

    /// The bytes of the buffer, as a vector.
    pub closed spec fn spec_into_vec(self) -> Vec<u8> {
        self.inner
    }

    /// A buffer made from a vector holds the vector's bytes, and the other
    /// way round.
    pub proof fn lemma_conversions(self, inner: Vec<u8>)
        ensures
            ByteBuf::spec_from_vec(inner)@ == inner@,
            self.spec_into_vec()@ == self@,
    {
    }
}

impl From<Vec<u8>> for ByteBuf {
    fn from(inner: Vec<u8>) -> (buf: Self) {
        ByteBuf { inner }
    }
}

impl FromSpecImpl<Vec<u8>> for ByteBuf {
    open spec fn obeys_from_spec() -> bool {
        true
    }

    open spec fn from_spec(inner: Vec<u8>) -> Self {
        ByteBuf::spec_from_vec(inner)
    }
}

impl From<ByteBuf> for Vec<u8> {
    fn from(buf: ByteBuf) -> (inner: Self) {
        buf.inner
    }
}

impl FromSpecImpl<ByteBuf> for Vec<u8> {
    open spec fn obeys_from_spec() -> bool {
        true
    }

    open spec fn from_spec(buf: ByteBuf) -> Self {
        buf.spec_into_vec()
    }
}

impl AsRef<[u8]> for ByteBuf {
    /// The bytes of the buffer.
    fn as_ref(&self) -> (bytes: &[u8])
        ensures
            bytes@ == self@,
    {
        self.inner.as_slice()
    }
}

impl Default for ByteBuf {
    fn default() -> (buf: Self)
        ensures
            buf@ == Seq::<u8>::empty(),
    {
        ByteBuf::new()
    }
}

/// The text that refuses a name or a key of more than 32 bytes.
pub open spec fn too_large_input() -> Seq<char> {
    "too large input"@
}

/// The text that refuses a name or a key of fewer than 32 bytes.
pub open spec fn too_small_input() -> Seq<char> {
    "too small input"@
}

/// The name, or the key, that has the bytes of `buf`: they must be 32.
pub fn bytebuf_to_blob(buf: &ByteBuf) -> (name: Result<KeyName, String>)
    ensures
        match name {
            Ok(n) => n@ == buf@,
            Err(text) => text@ == (if buf@.len() > 32 {
                too_large_input()
            } else {
                too_small_input()
            }),
        },
        name is Ok <==> buf@.len() == 32,
{
    if buf.len() > 32 {
        return Err("too large input".to_owned());
    }
    if buf.len() < 32 {
        return Err("too small input".to_owned());
    }
    let bytes = buf.as_slice();
    let mut name = [0u8; 32];
    let mut i: usize = 0;
    while i < 32
        invariant
            i <= 32,
            bytes@.len() == 32,
            forall|j: int| 0 <= j < i ==> name[j] == bytes@[j],
        decreases 32 - i,
    {
        name[i] = bytes[i];
        i += 1;
    }
    proof {
        assert(name@ =~= buf@);
    }
    Ok(name)
}

} // verus!
