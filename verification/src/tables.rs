//! What the stored tables mean: each table of bytes, read as a map over keys
//! and values of the library.
//!
//! An entry whose value is not the stored form of anything is not part of
//! what a table means.

use crate::access_rights::AccessRights;
use crate::audit::AuditEntry;
use crate::audit_codec::log_decoding;
use crate::keys::{
    access_key, key_id_encoding, lemma_access_key_injective, lemma_key_id_encoding_injective,
    lemma_sharing_key_injective, lemma_value_key_injective, sharing_key, value_key,
};
use crate::principal::Principal;
use crate::tombstone::TombstoneView;
use crate::types::{KeyId, MapKey};
use vstd::prelude::*;

verus! {

/// The grants that a table of access control holds.
pub open spec fn grants_of(entries: Map<Seq<u8>, Seq<u8>>) -> Map<(Principal, KeyId), AccessRights> {
    Map::new(
        |e: (Principal, KeyId)|
            entries.contains_key(access_key(e.0, e.1)) && AccessRights::decoding(
                entries[access_key(e.0, e.1)],
            ) is Some,
        |e: (Principal, KeyId)| AccessRights::decoding(entries[access_key(e.0, e.1)]).unwrap(),
    )
}

/// The sharings that a table of shared keys holds.
pub open spec fn sharings_of(entries: Map<Seq<u8>, Seq<u8>>) -> Set<(KeyId, Principal)> {
    Set::new(|e: (KeyId, Principal)| entries.contains_key(sharing_key(e.0, e.1)))
}

/// The logs that a table of audit logs holds.
pub open spec fn logs_of(entries: Map<Seq<u8>, Seq<u8>>) -> Map<KeyId, Seq<AuditEntry>> {
    Map::new(
        |k: KeyId|
            entries.contains_key(key_id_encoding(k)) && log_decoding(
                entries[key_id_encoding(k)],
            ) is Some,
        |k: KeyId| log_decoding(entries[key_id_encoding(k)]).unwrap(),
    )
}

/// The values that a table of map values holds.
pub open spec fn values_of(entries: Map<Seq<u8>, Seq<u8>>) -> Map<(KeyId, MapKey), Seq<u8>> {
    Map::new(
        |e: (KeyId, MapKey)| entries.contains_key(value_key(e.0, e.1)),
        |e: (KeyId, MapKey)| entries[value_key(e.0, e.1)],
    )
}

/// The tombstones that a table of tombstones holds.
pub open spec fn tombstones_of(entries: Map<Seq<u8>, Seq<u8>>) -> Map<
    (KeyId, MapKey),
    TombstoneView,
> {
    Map::new(
        |e: (KeyId, MapKey)|
            entries.contains_key(value_key(e.0, e.1)) && TombstoneView::decoding(
                entries[value_key(e.0, e.1)],
            ) is Some,
        |e: (KeyId, MapKey)| TombstoneView::decoding(entries[value_key(e.0, e.1)]).unwrap(),
    )
}

pub proof fn lemma_grants_insert(
    entries: Map<Seq<u8>, Seq<u8>>,
    user: Principal,
    key_id: KeyId,
    bytes: Seq<u8>,
)
    ensures
        grants_of(entries.insert(access_key(user, key_id), bytes)) == (match AccessRights::decoding(
            bytes,
        ) {
            Some(grant) => grants_of(entries).insert((user, key_id), grant),
            None => grants_of(entries).remove((user, key_id)),
        }),
{
    assert forall|u: Principal, k: KeyId| #[trigger]
        access_key(u, k) == access_key(user, key_id) implies u == user && k == key_id by {
        lemma_access_key_injective(u, k, user, key_id);
    }
    let after = grants_of(entries.insert(access_key(user, key_id), bytes));
    match AccessRights::decoding(bytes) {
        Some(grant) => {
            assert(after =~= grants_of(entries).insert((user, key_id), grant));
        },
        None => {
            assert(after =~= grants_of(entries).remove((user, key_id)));
        },
    }
}

pub proof fn lemma_grants_remove(entries: Map<Seq<u8>, Seq<u8>>, user: Principal, key_id: KeyId)
    ensures
        grants_of(entries.remove(access_key(user, key_id))) == grants_of(entries).remove(
            (user, key_id),
        ),
{
    assert forall|u: Principal, k: KeyId| #[trigger]
        access_key(u, k) == access_key(user, key_id) implies u == user && k == key_id by {
        lemma_access_key_injective(u, k, user, key_id);
    }
    assert(grants_of(entries.remove(access_key(user, key_id))) =~= grants_of(entries).remove(
        (user, key_id),
    ));
}

pub proof fn lemma_sharings_insert(
    entries: Map<Seq<u8>, Seq<u8>>,
    key_id: KeyId,
    user: Principal,
    bytes: Seq<u8>,
)
    ensures
        sharings_of(entries.insert(sharing_key(key_id, user), bytes)) == sharings_of(
            entries,
        ).insert((key_id, user)),
{
    assert forall|k: KeyId, u: Principal| #[trigger]
        sharing_key(k, u) == sharing_key(key_id, user) implies u == user && k == key_id by {
        lemma_sharing_key_injective(k, u, key_id, user);
    }
    assert(sharings_of(entries.insert(sharing_key(key_id, user), bytes)) =~= sharings_of(
        entries,
    ).insert((key_id, user)));
}

pub proof fn lemma_sharings_remove(entries: Map<Seq<u8>, Seq<u8>>, key_id: KeyId, user: Principal)
    ensures
        sharings_of(entries.remove(sharing_key(key_id, user))) == sharings_of(entries).remove(
            (key_id, user),
        ),
{
    assert forall|k: KeyId, u: Principal| #[trigger]
        sharing_key(k, u) == sharing_key(key_id, user) implies u == user && k == key_id by {
        lemma_sharing_key_injective(k, u, key_id, user);
    }
    assert(sharings_of(entries.remove(sharing_key(key_id, user))) =~= sharings_of(
        entries,
    ).remove((key_id, user)));
}

pub proof fn lemma_logs_insert(entries: Map<Seq<u8>, Seq<u8>>, key_id: KeyId, bytes: Seq<u8>)
    ensures
        logs_of(entries.insert(key_id_encoding(key_id), bytes)) == (match log_decoding(bytes) {
            Some(log) => logs_of(entries).insert(key_id, log),
            None => logs_of(entries).remove(key_id),
        }),
{
    assert forall|k: KeyId| #[trigger]
        key_id_encoding(k) == key_id_encoding(key_id) implies k == key_id by {
        lemma_key_id_encoding_injective(k, key_id);
    }
    let after = logs_of(entries.insert(key_id_encoding(key_id), bytes));
    match log_decoding(bytes) {
        Some(log) => {
            assert(after =~= logs_of(entries).insert(key_id, log));
        },
        None => {
            assert(after =~= logs_of(entries).remove(key_id));
        },
    }
}

pub proof fn lemma_values_insert(
    entries: Map<Seq<u8>, Seq<u8>>,
    key_id: KeyId,
    key: MapKey,
    bytes: Seq<u8>,
)
    ensures
        values_of(entries.insert(value_key(key_id, key), bytes)) == values_of(entries).insert(
            (key_id, key),
            bytes,
        ),
{
    assert forall|k: KeyId, m: MapKey| #[trigger]
        value_key(k, m) == value_key(key_id, key) implies k == key_id && m == key by {
        lemma_value_key_injective(k, m, key_id, key);
    }
    assert(values_of(entries.insert(value_key(key_id, key), bytes)) =~= values_of(
        entries,
    ).insert((key_id, key), bytes));
}

pub proof fn lemma_values_remove(entries: Map<Seq<u8>, Seq<u8>>, key_id: KeyId, key: MapKey)
    ensures
        values_of(entries.remove(value_key(key_id, key))) == values_of(entries).remove(
            (key_id, key),
        ),
{
    assert forall|k: KeyId, m: MapKey| #[trigger]
        value_key(k, m) == value_key(key_id, key) implies k == key_id && m == key by {
        lemma_value_key_injective(k, m, key_id, key);
    }
    assert(values_of(entries.remove(value_key(key_id, key))) =~= values_of(entries).remove(
        (key_id, key),
    ));
}

pub proof fn lemma_tombstones_insert(
    entries: Map<Seq<u8>, Seq<u8>>,
    key_id: KeyId,
    key: MapKey,
    bytes: Seq<u8>,
)
    ensures
        tombstones_of(entries.insert(value_key(key_id, key), bytes)) == (
        match TombstoneView::decoding(bytes) {
            Some(t) => tombstones_of(entries).insert((key_id, key), t),
            None => tombstones_of(entries).remove((key_id, key)),
        }),
{
    assert forall|k: KeyId, m: MapKey| #[trigger]
        value_key(k, m) == value_key(key_id, key) implies k == key_id && m == key by {
        lemma_value_key_injective(k, m, key_id, key);
    }
    let after = tombstones_of(entries.insert(value_key(key_id, key), bytes));
    match TombstoneView::decoding(bytes) {
        Some(t) => {
            assert(after =~= tombstones_of(entries).insert((key_id, key), t));
        },
        None => {
            assert(after =~= tombstones_of(entries).remove((key_id, key)));
        },
    }
}

pub proof fn lemma_tombstones_remove(entries: Map<Seq<u8>, Seq<u8>>, key_id: KeyId, key: MapKey)
    ensures
        tombstones_of(entries.remove(value_key(key_id, key))) == tombstones_of(entries).remove(
            (key_id, key),
        ),
{
    assert forall|k: KeyId, m: MapKey| #[trigger]
        value_key(k, m) == value_key(key_id, key) implies k == key_id && m == key by {
        lemma_value_key_injective(k, m, key_id, key);
    }
    assert(tombstones_of(entries.remove(value_key(key_id, key))) =~= tombstones_of(
        entries,
    ).remove((key_id, key)));
}

} // verus!
