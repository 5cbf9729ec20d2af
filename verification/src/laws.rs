//! What holds of the library whatever the state and the inputs.

use crate::access_rights::AccessRights;
use crate::audit::AuditEntry;
use crate::model::{Denial, EncryptedMapsState, KeyManagerState};
use crate::principal::Principal;
use crate::types::{KeyId, MapKey};
use vstd::prelude::*;

verus! {

/// A key manager without grants and sharings.
pub open spec fn empty_key_manager(
    domain_separator: Seq<char>,
    audit_logs: Option<Map<KeyId, Seq<AuditEntry>>>,
    regions: Seq<u8>,
) -> KeyManagerState {
    KeyManagerState {
        domain_separator,
        access_control: Map::empty(),
        shared_keys: Set::empty(),
        audit_logs,
        regions,
    }
}

/// After the owner of a key has granted `user` the rights `access_rights`,
/// the owner is told at any time `later` that the user has exactly these
/// rights if, and only if, their window is live then.
///
/// A grant that starts at time 0 comes back from storage without its start;
/// the law leaves out the times at which such a grant is live.
pub proof fn lemma_rights_after_grant(
    state: KeyManagerState,
    key_id: KeyId,
    user: Principal,
    access_rights: AccessRights,
    now: u64,
    later: u64,
)
    requires
        state.set_user_rights_denial(key_id.0, key_id, user, access_rights, now) is None,
        !(access_rights.start == Some(0u64) && access_rights.is_live(later)),
    ensures
        state.set_user_rights(key_id.0, key_id, user, access_rights, now).can_read(
            key_id.0,
            key_id,
            later,
        ) is Some,
        state.set_user_rights(key_id.0, key_id, user, access_rights, now).can_read(
            user,
            key_id,
            later,
        ) == Some(access_rights) <==> access_rights.is_live(later),
{
    let after = state.set_user_rights(key_id.0, key_id, user, access_rights, now);
    assert(after.access_control.contains_key((user, key_id)));
    assert(after.access_control[(user, key_id)] == access_rights.stored());
}

/// Grants and sharings go together in a state without any, and every
/// operation of the key manager keeps them together: each grant has its
/// sharing and each sharing its grant.
pub proof fn lemma_index_is_kept(
    state: KeyManagerState,
    caller: Principal,
    key_id: KeyId,
    user: Principal,
    access_rights: AccessRights,
    entry: AuditEntry,
    now: u64,
)
    requires
        state.is_indexed(),
    ensures
        empty_key_manager(state.domain_separator, state.audit_logs, state.regions).is_indexed(),
        state.record(key_id, entry).is_indexed(),
        state.key_handed_out(caller, key_id, access_rights, now).is_indexed(),
        state.set_user_rights(caller, key_id, user, access_rights, now).is_indexed(),
        state.remove_user(caller, key_id, user, now).is_indexed(),
{
    let granted = state.set_user_rights(caller, key_id, user, access_rights, now);
    assert forall|u: Principal, k: KeyId|
        granted.access_control.contains_key((u, k)) <==> granted.shared_keys.contains((k, u)) by {
        if (u, k) != (user, key_id) {
            assert(state.access_control.contains_key((u, k)) <==> state.shared_keys.contains(
                (k, u),
            ));
        }
    }
    let removed = state.remove_user(caller, key_id, user, now);
    assert forall|u: Principal, k: KeyId|
        removed.access_control.contains_key((u, k)) <==> removed.shared_keys.contains((k, u)) by {
        if (u, k) != (user, key_id) {
            assert(state.access_control.contains_key((u, k)) <==> state.shared_keys.contains(
                (k, u),
            ));
        }
    }
}

/// No operation of the key manager brings in a grant whose window ends
/// before it starts: `set_user_rights` refuses such a grant, and what it
/// stores of a valid one is valid.
pub proof fn lemma_valid_grants_are_kept(
    state: KeyManagerState,
    caller: Principal,
    key_id: KeyId,
    user: Principal,
    access_rights: AccessRights,
    now: u64,
)
    requires
        state.has_valid_grants(),
        state.set_user_rights_denial(caller, key_id, user, access_rights, now) is None,
    ensures
        access_rights.is_valid(),
        state.set_user_rights(caller, key_id, user, access_rights, now).has_valid_grants(),
        state.remove_user(caller, key_id, user, now).has_valid_grants(),
{
    access_rights.lemma_decoding_of_encoding();
    let granted = state.set_user_rights(caller, key_id, user, access_rights, now);
    assert forall|u: Principal, k: KeyId| #[trigger]
        granted.access_control.contains_key((u, k)) implies granted.access_control[(
        u,
        k,
    )].is_valid() by {
        if (u, k) != (user, key_id) {
            assert(state.access_control.contains_key((u, k)));
        }
    }
    let removed = state.remove_user(caller, key_id, user, now);
    assert forall|u: Principal, k: KeyId| #[trigger]
        removed.access_control.contains_key((u, k)) implies removed.access_control[(
        u,
        k,
    )].is_valid() by {
        assert(state.access_control.contains_key((u, k)));
    }
}

/// What is stored for a valid grant reads back as the grant.
///
/// A bound at time 0 is stored as no bound; the law leaves such grants out.
pub proof fn lemma_access_rights_round_trip(access_rights: AccessRights)
    requires
        access_rights.is_valid(),
        access_rights.is_storable(),
    ensures
        AccessRights::decoding(access_rights.encoding()) == Some(access_rights),
{
    access_rights.lemma_decoding_of_encoding();
}

/// No key of a map is live and a tombstone at once: so it is in a state
/// without values and tombstones, and every operation of the maps keeps it
/// so.
pub proof fn lemma_separation_is_kept(
    state: EncryptedMapsState,
    caller: Principal,
    key_id: KeyId,
    key: MapKey,
    value: Seq<u8>,
    hard_delete: bool,
    soft_delete: bool,
    now: u64,
)
    requires
        state.is_separated(),
    ensures
        (EncryptedMapsState {
            key_manager: state.key_manager,
            mapkey_vals: Map::empty(),
            tombstones: Map::empty(),
            regions: state.regions,
        }).is_separated(),
        state.insert(caller, key_id, key, value, now).is_separated(),
        state.remove(caller, key_id, key, hard_delete, now).is_separated(),
        state.remove_map(caller, key_id, soft_delete, now).is_separated(),
        state.restore(caller, key_id, key, now).is_separated(),
        state.purge(caller, key_id, key, now).is_separated(),
{
    let after = state.insert(caller, key_id, key, value, now);
    assert forall|k: KeyId, m: MapKey|
        !(after.mapkey_vals.contains_key((k, m)) && after.tombstones.contains_key((k, m))) by {
        assert(!(state.mapkey_vals.contains_key((k, m)) && state.tombstones.contains_key((k, m))));
    }
    let removed = state.remove(caller, key_id, key, hard_delete, now);
    assert forall|k: KeyId, m: MapKey|
        !(removed.mapkey_vals.contains_key((k, m)) && removed.tombstones.contains_key((k, m))) by {
        assert(!(state.mapkey_vals.contains_key((k, m)) && state.tombstones.contains_key((k, m))));
    }
    let emptied = state.remove_map(caller, key_id, soft_delete, now);
    assert forall|k: KeyId, m: MapKey|
        !(emptied.mapkey_vals.contains_key((k, m)) && emptied.tombstones.contains_key((k, m))) by {
        assert(!(state.mapkey_vals.contains_key((k, m)) && state.tombstones.contains_key((k, m))));
    }
    let restored = state.restore(caller, key_id, key, now);
    assert forall|k: KeyId, m: MapKey|
        !(restored.mapkey_vals.contains_key((k, m)) && restored.tombstones.contains_key(
            (k, m),
        )) by {
        assert(!(state.mapkey_vals.contains_key((k, m)) && state.tombstones.contains_key((k, m))));
    }
    let purged = state.purge(caller, key_id, key, now);
    assert forall|k: KeyId, m: MapKey|
        !(purged.mapkey_vals.contains_key((k, m)) && purged.tombstones.contains_key((k, m))) by {
        assert(!(state.mapkey_vals.contains_key((k, m)) && state.tombstones.contains_key((k, m))));
    }
}

/// A value that was put under a key is the value under the key, and the key
/// has no tombstone.
pub proof fn lemma_get_after_insert(
    state: EncryptedMapsState,
    caller: Principal,
    key_id: KeyId,
    key: MapKey,
    value: Seq<u8>,
    now: u64,
)
    ensures
        state.insert(caller, key_id, key, value, now).value(key_id, key) == Some(value),
        state.insert(caller, key_id, key, value, now).tombstone(key_id, key) is None,
{
}

/// A value that was put under a key, deleted softly and restored is the
/// value under the key again, whoever did each step and when.
pub proof fn lemma_get_after_restore(
    state: EncryptedMapsState,
    writer: Principal,
    remover: Principal,
    restorer: Principal,
    key_id: KeyId,
    key: MapKey,
    value: Seq<u8>,
    written: u64,
    removed: u64,
    restored: u64,
)
    ensures
        state.insert(writer, key_id, key, value, written).remove(
            remover,
            key_id,
            key,
            false,
            removed,
        ).restore(restorer, key_id, key, restored).value(key_id, key) == Some(value),
        state.insert(writer, key_id, key, value, written).remove(
            remover,
            key_id,
            key,
            false,
            removed,
        ).restore(restorer, key_id, key, restored).tombstone(key_id, key) is None,
{
    let put = state.insert(writer, key_id, key, value, written);
    assert(put.mapkey_vals.contains_key((key_id, key)));
    let gone = put.remove(remover, key_id, key, false, removed);
    assert(gone.tombstones.contains_key((key_id, key)));
    assert(gone.tombstones[(key_id, key)].value == value);
}

/// A value that was put under a key and deleted hard is gone: the key has no
/// value, and no tombstone.
pub proof fn lemma_get_after_hard_delete(
    state: EncryptedMapsState,
    writer: Principal,
    remover: Principal,
    key_id: KeyId,
    key: MapKey,
    value: Seq<u8>,
    written: u64,
    removed: u64,
)
    ensures
        state.insert(writer, key_id, key, value, written).remove(
            remover,
            key_id,
            key,
            true,
            removed,
        ).value(key_id, key) is None,
        state.insert(writer, key_id, key, value, written).remove(
            remover,
            key_id,
            key,
            true,
            removed,
        ).tombstone(key_id, key) is None,
{
    let put = state.insert(writer, key_id, key, value, written);
    assert(put.mapkey_vals.contains_key((key_id, key)));
}

/// The audit log only grows: what an operation records stands behind what
/// was recorded before.
pub proof fn lemma_log_only_grows(state: KeyManagerState, key_id: KeyId, entry: AuditEntry, other: KeyId)
    ensures
        state.audit_logs is Some ==> state.record(key_id, entry).log_of(key_id) == state.log_of(
            key_id,
        ).push(entry),
        state.audit_logs is None ==> state.record(key_id, entry) == state,
        other != key_id ==> state.record(key_id, entry).log_of(other) == state.log_of(other),
{
}

/// The anonymous identity never manages a key that it does not own, whatever
/// it was granted: it cannot grant, revoke or purge.
pub proof fn lemma_anonymous_never_manages(
    state: KeyManagerState,
    key_id: KeyId,
    user: Principal,
    access_rights: AccessRights,
    now: u64,
)
    requires
        key_id.0 != Principal::spec_anonymous(),
    ensures
        state.can_manage(Principal::spec_anonymous(), key_id, now) is None,
        state.set_user_rights_denial(
            Principal::spec_anonymous(),
            key_id,
            user,
            access_rights,
            now,
        ) == Some(Denial::Unauthorized),
        state.remove_user_denial(Principal::spec_anonymous(), key_id, user, now) == Some(
            Denial::Unauthorized,
        ),
{
}

/// The creation of a key is recorded once: where auditing is on, a derived
/// key that is handed out a second time adds the access to the log and
/// nothing else, whoever asks and whatever happened in between to the
/// sharings.
pub proof fn lemma_creation_is_recorded_once(
    state: KeyManagerState,
    first: Principal,
    second: Principal,
    key_id: KeyId,
    grant: AccessRights,
    again: AccessRights,
    now: u64,
    later: u64,
)
    requires
        state.audit_logs is Some,
    ensures
        state.key_handed_out(first, key_id, grant, now).key_handed_out(
            second,
            key_id,
            again,
            later,
        ).log_of(key_id) == state.key_handed_out(first, key_id, grant, now).log_of(key_id).push(
            AuditEntry::spec_access_vet_key(later, second, again),
        ),
        state.is_first_touch(first, key_id) ==> state.key_handed_out(
            first,
            key_id,
            grant,
            now,
        ).log_of(key_id) == seq![
            AuditEntry::spec_created(now, first),
            AuditEntry::spec_access_vet_key(now, first, grant),
        ],
{
    let once = state.key_handed_out(first, key_id, grant, now);
    assert(once.log_of(key_id).len() > 0);
    if state.is_first_touch(first, key_id) {
        assert(once.log_of(key_id) =~= seq![
            AuditEntry::spec_created(now, first),
            AuditEntry::spec_access_vet_key(now, first, grant),
        ]);
    }
}

/// The users with whom a key is shared are listed with the grants that the
/// table holds: where grants and sharings go together, every user with a
/// sharing has a grant to be listed with, live or not.
pub proof fn lemma_every_sharing_has_its_grant(state: KeyManagerState, key_id: KeyId, user: Principal)
    requires
        state.is_indexed(),
        state.shared_keys.contains((key_id, user)),
    ensures
        state.stored_grant(user, key_id) is Some,
{
}

} // verus!
