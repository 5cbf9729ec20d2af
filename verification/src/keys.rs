//! The keys under which the tables are stored.
//!
//! A stored key is the concatenation of the stored forms of its parts, each
//! of a fixed length, so that the entries of one user, or of one key, stand
//! side by side in the order of the store.

use crate::bytes::{append, lex_lt};
use crate::principal::{Principal, ENCODED_LENGTH};
use crate::types::{KeyId, KeyName, MapKey};
use vstd::array::array_as_slice;
use vstd::prelude::*;

verus! {

/// The number of bytes of a name.
pub const NAME_LENGTH: usize = 32;

/// The number of bytes under which a key's identity is stored.
pub const KEY_ID_LENGTH: usize = 62;

/// The number of bytes of a stored key of the tables of grants and of sharings.
pub const GRANT_KEY_LENGTH: usize = 92;

/// The number of bytes of a stored key of the tables of values and of tombstones.
pub const VALUE_KEY_LENGTH: usize = 94;

/// The stored form of a key's identity: its owner, then its name.
pub open spec fn key_id_encoding(key_id: KeyId) -> Seq<u8> {
    key_id.0.encoding() + key_id.1@
}

/// The stored key of the grant of `user` on `key_id`.
pub open spec fn access_key(user: Principal, key_id: KeyId) -> Seq<u8> {
    user.encoding() + key_id_encoding(key_id)
}

/// The stored key of the sharing of `key_id` with `user`.
pub open spec fn sharing_key(key_id: KeyId, user: Principal) -> Seq<u8> {
    key_id_encoding(key_id) + user.encoding()
}

/// The stored key of the entry `key` of the map `key_id`.
pub open spec fn value_key(key_id: KeyId, key: MapKey) -> Seq<u8> {
    key_id_encoding(key_id) + key@
}

pub proof fn lemma_key_lengths(user: Principal, key_id: KeyId, key: MapKey)
    ensures
        user.encoding().len() == ENCODED_LENGTH,
        key_id_encoding(key_id).len() == KEY_ID_LENGTH,
        access_key(user, key_id).len() == GRANT_KEY_LENGTH,
        sharing_key(key_id, user).len() == GRANT_KEY_LENGTH,
        value_key(key_id, key).len() == VALUE_KEY_LENGTH,
{
    user.lemma_encoding_len();
    key_id.0.lemma_encoding_len();
}

/// Two names with the same bytes are the same name.
pub proof fn lemma_name_injective(a: KeyName, b: KeyName)
    requires
        a@ == b@,
    ensures
        a == b,
{
    assert(a =~= b);
}

pub proof fn lemma_key_id_encoding_injective(a: KeyId, b: KeyId)
    requires
        key_id_encoding(a) == key_id_encoding(b),
    ensures
        a == b,
{
    a.0.lemma_encoding_len();
    b.0.lemma_encoding_len();
    assert(key_id_encoding(a).subrange(0, 30) =~= a.0.encoding());
    assert(key_id_encoding(b).subrange(0, 30) =~= b.0.encoding());
    assert(key_id_encoding(a).subrange(30, 62) =~= a.1@);
    assert(key_id_encoding(b).subrange(30, 62) =~= b.1@);
    a.0.lemma_encoding_injective(b.0);
    lemma_name_injective(a.1, b.1);
}

pub proof fn lemma_access_key_injective(u1: Principal, k1: KeyId, u2: Principal, k2: KeyId)
    requires
        access_key(u1, k1) == access_key(u2, k2),
    ensures
        u1 == u2,
        k1 == k2,
{
    lemma_key_lengths(u1, k1, k1.1);
    lemma_key_lengths(u2, k2, k2.1);
    assert(access_key(u1, k1).subrange(0, 30) =~= u1.encoding());
    assert(access_key(u2, k2).subrange(0, 30) =~= u2.encoding());
    assert(access_key(u1, k1).subrange(30, 92) =~= key_id_encoding(k1));
    assert(access_key(u2, k2).subrange(30, 92) =~= key_id_encoding(k2));
    u1.lemma_encoding_injective(u2);
    lemma_key_id_encoding_injective(k1, k2);
}

pub proof fn lemma_sharing_key_injective(k1: KeyId, u1: Principal, k2: KeyId, u2: Principal)
    requires
        sharing_key(k1, u1) == sharing_key(k2, u2),
    ensures
        u1 == u2,
        k1 == k2,
{
    lemma_key_lengths(u1, k1, k1.1);
    lemma_key_lengths(u2, k2, k2.1);
    assert(sharing_key(k1, u1).subrange(62, 92) =~= u1.encoding());
    assert(sharing_key(k2, u2).subrange(62, 92) =~= u2.encoding());
    assert(sharing_key(k1, u1).subrange(0, 62) =~= key_id_encoding(k1));
    assert(sharing_key(k2, u2).subrange(0, 62) =~= key_id_encoding(k2));
    u1.lemma_encoding_injective(u2);
    lemma_key_id_encoding_injective(k1, k2);
}

pub proof fn lemma_value_key_injective(k1: KeyId, m1: MapKey, k2: KeyId, m2: MapKey)
    requires
        value_key(k1, m1) == value_key(k2, m2),
    ensures
        k1 == k2,
        m1 == m2,
{
    lemma_key_lengths(k1.0, k1, m1);
    lemma_key_lengths(k2.0, k2, m2);
    assert(value_key(k1, m1).subrange(62, 94) =~= m1@);
    assert(value_key(k2, m2).subrange(62, 94) =~= m2@);
    assert(value_key(k1, m1).subrange(0, 62) =~= key_id_encoding(k1));
    assert(value_key(k2, m2).subrange(0, 62) =~= key_id_encoding(k2));
    lemma_name_injective(m1, m2);
    lemma_key_id_encoding_injective(k1, k2);
}

/// The keys rise strictly in the order in which they are stored: by owner,
/// then by name. None occurs twice.
pub open spec fn key_ids_rising(ids: Seq<KeyId>) -> bool {
    forall|i: int, j: int|
        0 <= i < j < ids.len() ==> lex_lt(
            key_id_encoding(#[trigger] ids[i]),
            key_id_encoding(#[trigger] ids[j]),
        )
}

/// The names rise strictly, byte by byte. None occurs twice.
pub open spec fn names_rising(names: Seq<KeyName>) -> bool {
    forall|i: int, j: int|
        0 <= i < j < names.len() ==> lex_lt((#[trigger] names[i])@, (#[trigger] names[j])@)
}

/// Appends the stored form of a key's identity to `out`.
pub fn encode_key_id(key_id: &KeyId, out: &mut Vec<u8>)
    ensures
        final(out)@ == old(out)@ + key_id_encoding(*key_id),
{
    key_id.0.encode(out);
    append(out, array_as_slice(&key_id.1));
    proof {
        assert(out@ =~= old(out)@ + key_id_encoding(*key_id));
    }
}

/// The stored form of an identity.
pub fn principal_bytes(user: &Principal) -> (bytes: Vec<u8>)
    ensures
        bytes@ == user.encoding(),
{
    let mut bytes: Vec<u8> = Vec::new();
    user.encode(&mut bytes);
    proof {
        assert(bytes@ =~= user.encoding());
    }
    bytes
}

/// The stored form of a key's identity.
pub fn key_id_bytes(key_id: &KeyId) -> (bytes: Vec<u8>)
    ensures
        bytes@ == key_id_encoding(*key_id),
{
    let mut bytes: Vec<u8> = Vec::new();
    encode_key_id(key_id, &mut bytes);
    proof {
        assert(bytes@ =~= key_id_encoding(*key_id));
    }
    bytes
}

/// The stored key of the grant of `user` on `key_id`.
pub fn access_key_bytes(user: &Principal, key_id: &KeyId) -> (bytes: Vec<u8>)
    ensures
        bytes@ == access_key(*user, *key_id),
{
    let mut bytes: Vec<u8> = Vec::new();
    user.encode(&mut bytes);
    encode_key_id(key_id, &mut bytes);
    proof {
        assert(bytes@ =~= access_key(*user, *key_id));
    }
    bytes
}

/// The stored key of the sharing of `key_id` with `user`.
pub fn sharing_key_bytes(key_id: &KeyId, user: &Principal) -> (bytes: Vec<u8>)
    ensures
        bytes@ == sharing_key(*key_id, *user),
{
    let mut bytes: Vec<u8> = Vec::new();
    encode_key_id(key_id, &mut bytes);
    user.encode(&mut bytes);
    proof {
        assert(bytes@ =~= sharing_key(*key_id, *user));
    }
    bytes
}

/// The stored key of the entry `key` of the map `key_id`.
pub fn value_key_bytes(key_id: &KeyId, key: &MapKey) -> (bytes: Vec<u8>)
    ensures
        bytes@ == value_key(*key_id, *key),
{
    let mut bytes: Vec<u8> = Vec::new();
    encode_key_id(key_id, &mut bytes);
    append(&mut bytes, array_as_slice(key));
    proof {
        assert(bytes@ =~= value_key(*key_id, *key));
    }
    bytes
}

/// The name that stands in `bytes` at `at`.
pub fn decode_name(bytes: &[u8], at: usize) -> (name: KeyName)
    requires
        at + NAME_LENGTH <= bytes@.len(),
    ensures
        name@ == bytes@.subrange(at as int, at + NAME_LENGTH),
{
    let n: usize = bytes.len();
    let mut name = [0u8; 32];
    let mut i: usize = 0;
    while i < 32
        invariant
            i <= 32,
            n == bytes@.len(),
            at + 32 <= n,
            forall|j: int| 0 <= j < i ==> name[j] == bytes@[at + j],
        decreases 32 - i,
    {
        name[i] = bytes[at + i];
        i += 1;
    }
    proof {
        assert(name@ =~= bytes@.subrange(at as int, at + NAME_LENGTH));
    }
    name
}

/// The key's identity whose stored form stands in `bytes` at `at`.
pub fn decode_key_id(bytes: &[u8], at: usize) -> (key_id: KeyId)
    requires
        at + KEY_ID_LENGTH <= bytes@.len(),
    ensures
        key_id_encoding(key_id) == bytes@.subrange(at as int, at + KEY_ID_LENGTH),
{
    let n: usize = bytes.len();
    let owner = Principal::decode(bytes, at);
    let name = decode_name(bytes, at + ENCODED_LENGTH);
    proof {
        assert(key_id_encoding((owner, name)) =~= bytes@.subrange(
            at as int,
            at + KEY_ID_LENGTH,
        ));
    }
    (owner, name)
}

/// Are the two names the same?
pub fn same_name(a: &KeyName, b: &KeyName) -> (same: bool)
    ensures
        same == (*a == *b),
{
    let same = crate::bytes::same_bytes(array_as_slice(a), array_as_slice(b));
    proof {
        if same {
            lemma_name_injective(*a, *b);
        }
    }
    same
}

} // verus!
