//! The state of the library as mathematics: what the tables hold, who may do
//! what, and what each operation makes of a state.

use crate::access_rights::AccessRights;
use crate::audit::AuditEntry;
use crate::bytes::lex_lt;
use crate::principal::Principal;
use crate::tombstone::TombstoneView;
use crate::types::{KeyId, MapKey};
use vstd::prelude::*;

verus! {

/// Why an operation was refused.
pub enum Denial {
    /// The caller lacks the rights that the operation asks for.
    Unauthorized,
    /// An owner tried to change the owner's own rights.
    OwnerRightsFixed,
    /// An owner tried to remove the owner.
    OwnerNotRemovable,
    /// The window of a grant ends before it starts.
    WindowInvalid,
}

impl Denial {
    /// The text under which the refusal reaches the caller.
    pub open spec fn message(self) -> Seq<char> {
        match self {
            Denial::Unauthorized => "unauthorized"@,
            Denial::OwnerRightsFixed => "cannot change key owner's user rights"@,
            Denial::OwnerNotRemovable => "cannot remove key owner"@,
            Denial::WindowInvalid => "start time must be before or equal to end time"@,
        }
    }
}

/// The state of a key manager.
pub struct KeyManagerState {
    /// The string that sets this system's derived keys apart from others'.
    pub domain_separator: Seq<char>,
    /// The grants: for a user and a key, what the user may do.
    pub access_control: Map<(Principal, KeyId), AccessRights>,
    /// The sharings: for a key, the users it is shared with.
    pub shared_keys: Set<(KeyId, Principal)>,
    /// The audit log of each key, oldest entry first; `None` where auditing
    /// is off.
    pub audit_logs: Option<Map<KeyId, Seq<AuditEntry>>>,
    /// The regions of stable memory that hold the state: those of the
    /// domain separator, of the grants and of the sharings, and that of the
    /// audit log where auditing is on.
    pub regions: Seq<u8>,
}

impl KeyManagerState {
    /// The grant under which `user` may read `key_id` at `now`, if any: the
    /// owner's full rights, else the user's own grant if its window is live,
    /// else the grant to everyone if its window is live. A user's own grant
    /// that is not live hides the grant to everyone.
    pub open spec fn can_read(self, user: Principal, key_id: KeyId, now: u64) -> Option<
        AccessRights,
    > {
        if user == key_id.0 {
            Some(AccessRights::spec_read_write_manage())
        } else if self.access_control.contains_key((user, key_id)) {
            let grant = self.access_control[(user, key_id)];
            if grant.is_live(now) {
                Some(grant)
            } else {
                None
            }
        } else if self.access_control.contains_key((Principal::spec_anonymous(), key_id)) {
            let grant = self.access_control[(Principal::spec_anonymous(), key_id)];
            if grant.is_live(now) {
                Some(grant)
            } else {
                None
            }
        } else {
            None
        }
    }

    /// The grant under which `user` may manage `key_id` at `now`, if any: the
    /// owner's full rights, else the user's own grant if it is live and gives
    /// management. The grant to everyone never counts, neither for another
    /// user nor for the anonymous identity itself.
    pub open spec fn can_manage(self, user: Principal, key_id: KeyId, now: u64) -> Option<
        AccessRights,
    > {
        if user == key_id.0 {
            Some(AccessRights::spec_read_write_manage())
        } else if user == Principal::spec_anonymous() {
            None
        } else if self.access_control.contains_key((user, key_id)) {
            let grant = self.access_control[(user, key_id)];
            if grant.is_live(now) && grant.rights == crate::access_rights::Rights::ReadWriteManage {
                Some(grant)
            } else {
                None
            }
        } else {
            None
        }
    }

    /// The grant under which `user` may write to `key_id` at `now`, if any:
    /// the grant under which the user may read, if it allows writing.
    pub open spec fn can_write(self, user: Principal, key_id: KeyId, now: u64) -> Option<
        AccessRights,
    > {
        match self.can_read(user, key_id, now) {
            Some(grant) => if grant.rights.allows_write() {
                Some(grant)
            } else {
                None
            },
            None => None,
        }
    }

    /// The audit log of `key_id`: empty where nothing was recorded.
    pub open spec fn log_of(self, key_id: KeyId) -> Seq<AuditEntry> {
        match self.audit_logs {
            Some(logs) => if logs.contains_key(key_id) {
                logs[key_id]
            } else {
                Seq::empty()
            },
            None => Seq::empty(),
        }
    }

    /// The state after `entry` was recorded for `key_id`: the entry stands
    /// last in the key's log, or nothing changed where auditing is off.
    pub open spec fn record(self, key_id: KeyId, entry: AuditEntry) -> KeyManagerState {
        match self.audit_logs {
            Some(logs) => KeyManagerState {
                audit_logs: Some(logs.insert(key_id, self.log_of(key_id).push(entry))),
                ..self
            },
            None => self,
        }
    }

    /// `key_id` is shared with someone.
    pub open spec fn is_shared(self, key_id: KeyId) -> bool {
        exists|user: Principal| self.shared_keys.contains((key_id, user))
    }

    /// Why `set_user_rights` refuses, if it does.
    pub open spec fn set_user_rights_denial(
        self,
        caller: Principal,
        key_id: KeyId,
        user: Principal,
        access_rights: AccessRights,
        now: u64,
    ) -> Option<Denial> {
        if self.can_manage(caller, key_id, now) is None {
            Some(Denial::Unauthorized)
        } else if caller == key_id.0 && caller == user {
            Some(Denial::OwnerRightsFixed)
        } else if !access_rights.is_valid() {
            Some(Denial::WindowInvalid)
        } else {
            None
        }
    }

    /// The state after `set_user_rights` went through.
    pub open spec fn set_user_rights(
        self,
        caller: Principal,
        key_id: KeyId,
        user: Principal,
        access_rights: AccessRights,
        now: u64,
    ) -> KeyManagerState {
        let recorded = self.record(
            key_id,
            AuditEntry::spec_share(now, caller, user, access_rights),
        );
        KeyManagerState {
            shared_keys: recorded.shared_keys.insert((key_id, user)),
            access_control: recorded.access_control.insert((user, key_id), access_rights.stored()),
            ..recorded
        }
    }

    /// Why `remove_user` refuses, if it does.
    pub open spec fn remove_user_denial(
        self,
        caller: Principal,
        key_id: KeyId,
        user: Principal,
        now: u64,
    ) -> Option<Denial> {
        if self.can_manage(caller, key_id, now) is None {
            Some(Denial::Unauthorized)
        } else if caller == user && caller == key_id.0 {
            Some(Denial::OwnerNotRemovable)
        } else {
            None
        }
    }

    /// The state after `remove_user` went through.
    pub open spec fn remove_user(
        self,
        caller: Principal,
        key_id: KeyId,
        user: Principal,
        now: u64,
    ) -> KeyManagerState {
        let entry = if user == key_id.0 {
            AuditEntry::spec_deleted(now, caller)
        } else {
            AuditEntry::spec_unshare(now, caller, user)
        };
        let recorded = self.record(key_id, entry);
        KeyManagerState {
            shared_keys: recorded.shared_keys.remove((key_id, user)),
            access_control: recorded.access_control.remove((user, key_id)),
            ..recorded
        }
    }

    /// The grant of `user` on `key_id` as the table holds it, if any.
    pub open spec fn stored_grant(self, user: Principal, key_id: KeyId) -> Option<AccessRights> {
        if self.access_control.contains_key((user, key_id)) {
            Some(self.access_control[(user, key_id)])
        } else {
            None
        }
    }

    /// The owner `caller` touches `key_id` for the first time: the key is
    /// shared with no one, and nothing was recorded for it yet.
    pub open spec fn is_first_touch(self, caller: Principal, key_id: KeyId) -> bool {
        caller == key_id.0 && !self.is_shared(key_id) && self.log_of(key_id).len() == 0
    }

    /// The state after a derived key was handed out to `caller` under
    /// `grant`: on the owner's first touch of the key the creation is
    /// recorded first; the access is recorded in any case.
    pub open spec fn key_handed_out(
        self,
        caller: Principal,
        key_id: KeyId,
        grant: AccessRights,
        now: u64,
    ) -> KeyManagerState {
        let first = if self.is_first_touch(caller, key_id) {
            self.record(key_id, AuditEntry::spec_created(now, caller))
        } else {
            self
        };
        first.record(key_id, AuditEntry::spec_access_vet_key(now, caller, grant))
    }

    /// Each grant has its sharing and each sharing its grant.
    pub open spec fn is_indexed(self) -> bool {
        forall|user: Principal, key_id: KeyId|
            self.access_control.contains_key((user, key_id)) <==> self.shared_keys.contains(
                (key_id, user),
            )
    }

    /// No window of a grant ends before it starts.
    pub open spec fn has_valid_grants(self) -> bool {
        forall|user: Principal, key_id: KeyId| #[trigger]
            self.access_control.contains_key((user, key_id)) ==> self.access_control[(
                user,
                key_id,
            )].is_valid()
    }
}

/// The state of the encrypted maps.
pub struct EncryptedMapsState {
    /// The key manager underneath.
    pub key_manager: KeyManagerState,
    /// The live values: for a map and a key in it, the value.
    pub mapkey_vals: Map<(KeyId, MapKey), Seq<u8>>,
    /// The tombstones: for a map and a key in it, the value that was deleted
    /// softly.
    pub tombstones: Map<(KeyId, MapKey), TombstoneView>,
    /// The regions of stable memory that hold the values and the tombstones.
    pub regions: Seq<u8>,
}

impl EncryptedMapsState {
    /// The value under `key` in the map `key_id`, if it is live.
    pub open spec fn value(self, key_id: KeyId, key: MapKey) -> Option<Seq<u8>> {
        if self.mapkey_vals.contains_key((key_id, key)) {
            Some(self.mapkey_vals[(key_id, key)])
        } else {
            None
        }
    }

    /// The tombstone under `key` in the map `key_id`, if there is one.
    pub open spec fn tombstone(self, key_id: KeyId, key: MapKey) -> Option<TombstoneView> {
        if self.tombstones.contains_key((key_id, key)) {
            Some(self.tombstones[(key_id, key)])
        } else {
            None
        }
    }

    /// The state after `entry` was recorded for `key_id`.
    pub open spec fn record(self, key_id: KeyId, entry: AuditEntry) -> EncryptedMapsState {
        EncryptedMapsState { key_manager: self.key_manager.record(key_id, entry), ..self }
    }

    /// The state after `insert_encrypted_value` went through: the value
    /// stands under the key, a tombstone that the key had is gone, and a
    /// creation is recorded where the key had no value, an update where it
    /// had one.
    pub open spec fn insert(
        self,
        caller: Principal,
        key_id: KeyId,
        key: MapKey,
        value: Seq<u8>,
        now: u64,
    ) -> EncryptedMapsState {
        let entry = if self.mapkey_vals.contains_key((key_id, key)) {
            AuditEntry::spec_updated(now, caller)
        } else {
            AuditEntry::spec_created(now, caller)
        };
        EncryptedMapsState {
            mapkey_vals: self.mapkey_vals.insert((key_id, key), value),
            tombstones: self.tombstones.remove((key_id, key)),
            ..self.record(key_id, entry)
        }
    }

    /// The state after `remove_encrypted_value` went through: nothing
    /// changed where the key had no value; else the value is gone, kept as a
    /// tombstone unless the deletion is hard, and the deletion is recorded.
    pub open spec fn remove(
        self,
        caller: Principal,
        key_id: KeyId,
        key: MapKey,
        hard_delete: bool,
        now: u64,
    ) -> EncryptedMapsState {
        if !self.mapkey_vals.contains_key((key_id, key)) {
            self
        } else if hard_delete {
            EncryptedMapsState {
                mapkey_vals: self.mapkey_vals.remove((key_id, key)),
                ..self.record(key_id, AuditEntry::spec_deleted(now, caller))
            }
        } else {
            EncryptedMapsState {
                mapkey_vals: self.mapkey_vals.remove((key_id, key)),
                tombstones: self.tombstones.insert(
                    (key_id, key),
                    TombstoneView::fresh(self.mapkey_vals[(key_id, key)], now, caller),
                ),
                ..self.record(key_id, AuditEntry::spec_soft_deleted(now, caller))
            }
        }
    }

    /// The map `key_id` has a live value.
    pub open spec fn is_non_empty(self, key_id: KeyId) -> bool {
        exists|key: MapKey| self.mapkey_vals.contains_key((key_id, key))
    }

    /// The state after `remove_map_values` went through: nothing changed
    /// where the map had no live value; else all its values are gone, kept as
    /// tombstones if the deletion is soft, and one deletion is recorded.
    pub open spec fn remove_map(
        self,
        caller: Principal,
        key_id: KeyId,
        soft_delete: bool,
        now: u64,
    ) -> EncryptedMapsState {
        if !self.is_non_empty(key_id) {
            self
        } else {
            let recorded = self.record(
                key_id,
                if soft_delete {
                    AuditEntry::spec_soft_deleted(now, caller)
                } else {
                    AuditEntry::spec_deleted(now, caller)
                },
            );
            EncryptedMapsState {
                mapkey_vals: Map::new(
                    |e: (KeyId, MapKey)| self.mapkey_vals.contains_key(e) && e.0 != key_id,
                    |e: (KeyId, MapKey)| self.mapkey_vals[e],
                ),
                tombstones: if soft_delete {
                    Map::new(
                        |e: (KeyId, MapKey)|
                            self.tombstones.contains_key(e) || (self.mapkey_vals.contains_key(e)
                                && e.0 == key_id),
                        |e: (KeyId, MapKey)|
                            if self.mapkey_vals.contains_key(e) && e.0 == key_id {
                                TombstoneView::fresh(self.mapkey_vals[e], now, caller)
                            } else {
                                self.tombstones[e]
                            },
                    )
                } else {
                    self.tombstones
                },
                ..recorded
            }
        }
    }

    /// The state after `restore_value` went through: nothing changed where
    /// the key had no tombstone; else the tombstone's value is live again, the
    /// tombstone is gone, and the restoring is recorded.
    pub open spec fn restore(
        self,
        caller: Principal,
        key_id: KeyId,
        key: MapKey,
        now: u64,
    ) -> EncryptedMapsState {
        if !self.tombstones.contains_key((key_id, key)) {
            self
        } else {
            EncryptedMapsState {
                mapkey_vals: self.mapkey_vals.insert(
                    (key_id, key),
                    self.tombstones[(key_id, key)].value,
                ),
                tombstones: self.tombstones.remove((key_id, key)),
                ..self.record(key_id, AuditEntry::spec_restored(now, caller))
            }
        }
    }

    /// The state after `purge_tombstone` went through: nothing changed where
    /// the key had no tombstone; else the tombstone is gone and a deletion is
    /// recorded.
    pub open spec fn purge(
        self,
        caller: Principal,
        key_id: KeyId,
        key: MapKey,
        now: u64,
    ) -> EncryptedMapsState {
        if !self.tombstones.contains_key((key_id, key)) {
            self
        } else {
            EncryptedMapsState {
                tombstones: self.tombstones.remove((key_id, key)),
                ..self.record(key_id, AuditEntry::spec_deleted(now, caller))
            }
        }
    }

    /// No key of a map is live and a tombstone at once.
    pub open spec fn is_separated(self) -> bool {
        forall|key_id: KeyId, key: MapKey|
            !(self.mapkey_vals.contains_key((key_id, key)) && self.tombstones.contains_key(
                (key_id, key),
            ))
    }
}

/// `list` holds the live values of the map `key_id`, each once with its
/// key, by rising key.
pub open spec fn lists_values(
    state: EncryptedMapsState,
    key_id: KeyId,
    list: Seq<(MapKey, Seq<u8>)>,
) -> bool {
    &&& forall|i: int|
        0 <= i < list.len() ==> state.value(key_id, (#[trigger] list[i]).0) == Some(list[i].1)
    &&& forall|key: MapKey| #[trigger]
        state.mapkey_vals.contains_key((key_id, key)) ==> exists|i: int|
            0 <= i < list.len() && (#[trigger] list[i]).0 == key
    &&& forall|i: int, j: int|
        0 <= i < j < list.len() ==> lex_lt((#[trigger] list[i]).0@, (#[trigger] list[j]).0@)
}

/// `list` holds the tombstones of the map `key_id`, each once with its key,
/// by rising key.
pub open spec fn lists_tombstones(
    state: EncryptedMapsState,
    key_id: KeyId,
    list: Seq<(MapKey, TombstoneView)>,
) -> bool {
    &&& forall|i: int|
        0 <= i < list.len() ==> state.tombstone(key_id, (#[trigger] list[i]).0) == Some(list[i].1)
    &&& forall|key: MapKey| #[trigger]
        state.tombstones.contains_key((key_id, key)) ==> exists|i: int|
            0 <= i < list.len() && (#[trigger] list[i]).0 == key
    &&& forall|i: int, j: int|
        0 <= i < j < list.len() ==> lex_lt((#[trigger] list[i]).0@, (#[trigger] list[j]).0@)
}

} // verus!
