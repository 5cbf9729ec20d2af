//! The encrypted maps: named maps of encrypted values on top of the key
//! manager, with soft deletion and restoring.

use crate::access_rights::AccessRights;
use crate::audit::{AuditEntry, AuditLog};
use crate::bytes::{
    copy_range, lemma_lex_le_antisymmetric, lemma_lex_le_of_heads, lemma_lex_le_total,
    lemma_lex_le_transitive, lex_le, lex_lt,
};
use crate::key_manager::{is_test_key, users_rising, KeyManager};
use crate::keys::{
    decode_name, key_id_bytes, key_id_encoding, key_ids_rising, lemma_name_injective,
    names_rising, principal_bytes, same_name, value_key, value_key_bytes, NAME_LENGTH,
};
use crate::memory::MemoryPool;
use crate::model::{lists_tombstones, lists_values, Denial, EncryptedMapsState};
use crate::scan::{
    is_fixed_scan, is_picked, key_at, lemma_picked_all, lemma_picked_none, lemma_picked_push,
    lemma_picked_skip, scan_fixed, scan_has, shown, value_at,
};
use crate::principal::Principal;
use crate::stable::{
    cell_open, cell_region, cell_text, store_entries, store_get, store_insert, store_open,
    store_region, store_remove, ByteStore,
    TextCell,
};
use crate::tables::{
    lemma_tombstones_insert, lemma_tombstones_remove, lemma_values_insert, lemma_values_remove,
    tombstones_of, values_of,
};
use crate::tombstone::{TombstoneEntry, TombstoneView};
use crate::types::{
    ByteBuf, EncryptedMapValue, KeyId, MapId, MapKey, MapName, MemoryInitializationError,
    TransportKey,
};
use crate::vetkd_api_types::{VetKDEncryptedKeyRequest, VetKDPublicKeyRequest};
use ic_stable_structures::cell::InitError;
use vstd::array::array_as_slice;
use vstd::prelude::*;
use vstd::slice::slice_to_vec;
use vstd::utf8::encode_utf8;

verus! {

/// The encrypted maps, over their tables in stable memory.
pub struct EncryptedMaps {
    key_manager: KeyManager,
    mapkey_vals: ByteStore,
    tombstones: ByteStore,
}

impl View for EncryptedMaps {
    type V = EncryptedMapsState;

    closed spec fn view(&self) -> EncryptedMapsState {
        EncryptedMapsState {
            key_manager: self.key_manager@,
            mapkey_vals: values_of(store_entries(self.mapkey_vals)),
            tombstones: tombstones_of(store_entries(self.tombstones)),
            regions: seq![store_region(self.mapkey_vals), store_region(self.tombstones)],
        }
    }
}

/// The value, as its bytes, where there is one.
pub open spec fn value_view(value: Option<EncryptedMapValue>) -> Option<Seq<u8>> {
    match value {
        Some(v) => Some(v@),
        None => None,
    }
}

/// The tombstone, with its value as bytes, where there is one.
pub open spec fn tombstone_view(entry: Option<TombstoneEntry>) -> Option<TombstoneView> {
    match entry {
        Some(e) => Some(e@),
        None => None,
    }
}

impl EncryptedMaps {
    /// The key manager that decides who may do what.
    pub fn key_manager(&self) -> (manager: &KeyManager)
        ensures
            manager@ == self@.key_manager,
    {
        &self.key_manager
    }

    /// The value under the stored key, as a buffer.
    fn read_value(&self, key_id: &KeyId, key: &MapKey) -> (value: Option<EncryptedMapValue>)
        ensures
            value_view(value) == self@.value(*key_id, *key),
    {
        let stored_key = value_key_bytes(key_id, key);
        match store_get(&self.mapkey_vals, &stored_key) {
            Some(bytes) => Some(ByteBuf::from_vec(bytes)),
            None => None,
        }
    }

    /// The tombstone under the stored key.
    fn read_tombstone(&self, key_id: &KeyId, key: &MapKey) -> (entry: Option<TombstoneEntry>)
        ensures
            tombstone_view(entry) == self@.tombstone(*key_id, *key),
    {
        let stored_key = value_key_bytes(key_id, key);
        match store_get(&self.tombstones, &stored_key) {
            Some(bytes) => TombstoneEntry::from_bytes(bytes.as_slice()),
            None => None,
        }
    }

    /// The value under `key` in the map `key_id`, for a caller who may read
    /// the map.
    pub fn get_encrypted_value(&self, caller: Principal, key_id: KeyId, key: MapKey, now: u64) -> (value:
        Result<Option<EncryptedMapValue>, String>)
        ensures
            match value {
                Ok(v) => self@.key_manager.can_read(caller, key_id, now) is Some && value_view(v)
                    == self@.value(key_id, key),
                Err(text) => self@.key_manager.can_read(caller, key_id, now) is None && text@
                    == Denial::Unauthorized.message(),
            },
    {
        match self.key_manager.ensure_user_can_read(caller, key_id, now) {
            Ok(_) => Ok(self.read_value(&key_id, &key)),
            Err(text) => Err(text),
        }
    }

    /// Puts `encrypted_value` under `key` in the map `key_id`, for a caller
    /// who may write to the map, and records a creation or an update. A
    /// tombstone that the key had is deleted, so that the key is not live and
    /// a tombstone at once. Returns the value that the key had.
    pub fn insert_encrypted_value(
        &mut self,
        caller: Principal,
        key_id: KeyId,
        key: MapKey,
        encrypted_value: EncryptedMapValue,
        now: u64,
    ) -> (previous: Result<Option<EncryptedMapValue>, String>)
        ensures
            match previous {
                Ok(v) => {
                    &&& old(self)@.key_manager.can_write(caller, key_id, now) is Some
                    &&& value_view(v) == old(self)@.value(key_id, key)
                    &&& final(self)@ == old(self)@.insert(
                        caller,
                        key_id,
                        key,
                        encrypted_value@,
                        now,
                    )
                },
                Err(text) => {
                    &&& old(self)@.key_manager.can_write(caller, key_id, now) is None
                    &&& text@ == Denial::Unauthorized.message()
                    &&& final(self)@ == old(self)@
                },
            },
    {
        match self.key_manager.ensure_user_can_write(caller, key_id, now) {
            Ok(_) => {},
            Err(text) => {
                return Err(text);
            },
        }
        let ghost values = store_entries(self.mapkey_vals);
        let ghost tombs = store_entries(self.tombstones);
        let stored_key = value_key_bytes(&key_id, &key);
        let _ = store_remove(&mut self.tombstones, &stored_key);
        let replaced = store_insert(&mut self.mapkey_vals, stored_key, encrypted_value.into_vec());
        proof {
            lemma_tombstones_remove(tombs, key_id, key);
            lemma_values_insert(values, key_id, key, encrypted_value@);
        }
        match replaced {
            None => {
                let audit_fn = move || -> (entry: AuditEntry)
                    ensures
                        entry == AuditEntry::spec_created(now, caller),
                    { AuditEntry::created(now, caller) };
                self.key_manager.add_audit_log(key_id, audit_fn);
                Ok(None)
            },
            Some(bytes) => {
                let audit_fn = move || -> (entry: AuditEntry)
                    ensures
                        entry == AuditEntry::spec_updated(now, caller),
                    { AuditEntry::updated(now, caller) };
                self.key_manager.add_audit_log(key_id, audit_fn);
                Ok(Some(ByteBuf::from_vec(bytes)))
            },
        }
    }

    /// Takes the value under `key` out of the map `key_id`, for a caller who
    /// may write to the map. Unless the deletion is hard, the value is kept
    /// as a tombstone. The deletion is recorded. Returns the value; where the
    /// key has none, nothing happens.
    pub fn remove_encrypted_value(
        &mut self,
        caller: Principal,
        key_id: KeyId,
        key: MapKey,
        hard_delete: bool,
        now: u64,
    ) -> (removed: Result<Option<EncryptedMapValue>, String>)
        ensures
            match removed {
                Ok(v) => {
                    &&& old(self)@.key_manager.can_write(caller, key_id, now) is Some
                    &&& value_view(v) == old(self)@.value(key_id, key)
                    &&& final(self)@ == old(self)@.remove(caller, key_id, key, hard_delete, now)
                },
                Err(text) => {
                    &&& old(self)@.key_manager.can_write(caller, key_id, now) is None
                    &&& text@ == Denial::Unauthorized.message()
                    &&& final(self)@ == old(self)@
                },
            },
    {
        match self.key_manager.ensure_user_can_write(caller, key_id, now) {
            Ok(_) => {},
            Err(text) => {
                return Err(text);
            },
        }
        let value = match self.read_value(&key_id, &key) {
            Some(value) => value,
            None => {
                return Ok(None);
            },
        };
        let ghost values = store_entries(self.mapkey_vals);
        let ghost tombs = store_entries(self.tombstones);
        if !hard_delete {
            let tombstone = TombstoneEntry {
                value,
                deletion_timestamp: now,
                deleted_by: caller,
                marked_for_purge: false,
            };
            let _ = store_insert(
                &mut self.tombstones,
                value_key_bytes(&key_id, &key),
                tombstone.to_bytes(),
            );
            proof {
                tombstone@.lemma_decoding_of_encoding();
                lemma_tombstones_insert(tombs, key_id, key, tombstone@.encoding());
            }
            let audit_fn = move || -> (entry: AuditEntry)
                ensures
                    entry == AuditEntry::spec_soft_deleted(now, caller),
                { AuditEntry::soft_deleted(now, caller) };
            self.key_manager.add_audit_log(key_id, audit_fn);
        } else {
            let audit_fn = move || -> (entry: AuditEntry)
                ensures
                    entry == AuditEntry::spec_deleted(now, caller),
                { AuditEntry::deleted(now, caller) };
            self.key_manager.add_audit_log(key_id, audit_fn);
        }
        let taken = store_remove(&mut self.mapkey_vals, &value_key_bytes(&key_id, &key));
        proof {
            lemma_values_remove(values, key_id, key);
        }
        match taken {
            Some(bytes) => Ok(Some(ByteBuf::from_vec(bytes))),
            None => Ok(None),
        }
    }

    /// `remove_encrypted_value` with a hard deletion.
    pub fn remove_encrypted_value_legacy(
        &mut self,
        caller: Principal,
        key_id: KeyId,
        key: MapKey,
        now: u64,
    ) -> (removed: Result<Option<EncryptedMapValue>, String>)
        ensures
            match removed {
                Ok(v) => {
                    &&& old(self)@.key_manager.can_write(caller, key_id, now) is Some
                    &&& value_view(v) == old(self)@.value(key_id, key)
                    &&& final(self)@ == old(self)@.remove(caller, key_id, key, true, now)
                },
                Err(text) => {
                    &&& old(self)@.key_manager.can_write(caller, key_id, now) is None
                    &&& text@ == Denial::Unauthorized.message()
                    &&& final(self)@ == old(self)@
                },
            },
    {
        self.remove_encrypted_value(caller, key_id, key, true, now)
    }

    /// Makes the tombstone under `key` in the map `key_id` a live value
    /// again, for a caller who may write to the map, and records the
    /// restoring. Returns the value; where the key has no tombstone, nothing
    /// happens.
    pub fn restore_value(&mut self, caller: Principal, key_id: KeyId, key: MapKey, now: u64) -> (restored:
        Result<Option<EncryptedMapValue>, String>)
        ensures
            match restored {
                Ok(v) => {
                    &&& old(self)@.key_manager.can_write(caller, key_id, now) is Some
                    &&& value_view(v) == (match old(self)@.tombstone(key_id, key) {
                        Some(t) => Some(t.value),
                        None => None,
                    })
                    &&& final(self)@ == old(self)@.restore(caller, key_id, key, now)
                },
                Err(text) => {
                    &&& old(self)@.key_manager.can_write(caller, key_id, now) is None
                    &&& text@ == Denial::Unauthorized.message()
                    &&& final(self)@ == old(self)@
                },
            },
    {
        match self.key_manager.ensure_user_can_write(caller, key_id, now) {
            Ok(_) => {},
            Err(text) => {
                return Err(text);
            },
        }
        let tombstone = match self.read_tombstone(&key_id, &key) {
            Some(tombstone) => tombstone,
            None => {
                return Ok(None);
            },
        };
        let ghost values = store_entries(self.mapkey_vals);
        let ghost tombs = store_entries(self.tombstones);
        let value = tombstone.value;
        let _ = store_remove(&mut self.tombstones, &value_key_bytes(&key_id, &key));
        let _ = store_insert(
            &mut self.mapkey_vals,
            value_key_bytes(&key_id, &key),
            copy_range(value.as_slice(), 0, value.len()),
        );
        proof {
            assert(value@.subrange(0, value@.len() as int) =~= value@);
            lemma_tombstones_remove(tombs, key_id, key);
            lemma_values_insert(values, key_id, key, value@);
        }
        let audit_fn = move || -> (entry: AuditEntry)
            ensures
                entry == AuditEntry::spec_restored(now, caller),
            { AuditEntry::restored(now, caller) };
        self.key_manager.add_audit_log(key_id, audit_fn);
        Ok(Some(value))
    }

    /// Deletes the tombstone under `key` in the map `key_id` for good, for a
    /// caller who may manage the map, and records a deletion. Returns the
    /// tombstone; where the key has none, nothing happens.
    pub fn purge_tombstone(&mut self, caller: Principal, key_id: KeyId, key: MapKey, now: u64) -> (purged:
        Result<Option<TombstoneEntry>, String>)
        ensures
            match purged {
                Ok(t) => {
                    &&& old(self)@.key_manager.can_manage(caller, key_id, now) is Some
                    &&& tombstone_view(t) == old(self)@.tombstone(key_id, key)
                    &&& final(self)@ == old(self)@.purge(caller, key_id, key, now)
                },
                Err(text) => {
                    &&& old(self)@.key_manager.can_manage(caller, key_id, now) is None
                    &&& text@ == Denial::Unauthorized.message()
                    &&& final(self)@ == old(self)@
                },
            },
    {
        match self.key_manager.ensure_user_can_manage(caller, key_id, now) {
            Ok(_) => {},
            Err(text) => {
                return Err(text);
            },
        }
        let tombstone = match self.read_tombstone(&key_id, &key) {
            Some(tombstone) => tombstone,
            None => {
                return Ok(None);
            },
        };
        let ghost tombs = store_entries(self.tombstones);
        let audit_fn = move || -> (entry: AuditEntry)
            ensures
                entry == AuditEntry::spec_deleted(now, caller),
            { AuditEntry::deleted(now, caller) };
        self.key_manager.add_audit_log(key_id, audit_fn);
        let _ = store_remove(&mut self.tombstones, &value_key_bytes(&key_id, &key));
        proof {
            lemma_tombstones_remove(tombs, key_id, key);
        }
        Ok(Some(tombstone))
    }

    /// The regions that the encrypted maps live in: those of the key
    /// manager, then those of the values and of the tombstones.
    pub open spec fn regions(
        memory_domain_separator: u8,
        memory_access_control: u8,
        memory_shared_keys: u8,
        memory_encrypted_maps: u8,
        memory_tombstones: u8,
        memory_audit_log: Option<u8>,
    ) -> Seq<u8> {
        KeyManager::regions(
            memory_domain_separator,
            memory_access_control,
            memory_shared_keys,
            memory_audit_log,
        ) + seq![memory_encrypted_maps, memory_tombstones]
    }

    /// The list of the regions that the encrypted maps live in.
    fn region_list(
        memory_domain_separator: u8,
        memory_access_control: u8,
        memory_shared_keys: u8,
        memory_encrypted_maps: u8,
        memory_tombstones: u8,
        memory_audit_log: Option<u8>,
    ) -> (ids: Vec<u8>)
        ensures
            ids@ == EncryptedMaps::regions(
                memory_domain_separator,
                memory_access_control,
                memory_shared_keys,
                memory_encrypted_maps,
                memory_tombstones,
                memory_audit_log,
            ),
    {
        let mut ids: Vec<u8> = Vec::new();
        ids.push(memory_domain_separator);
        ids.push(memory_access_control);
        ids.push(memory_shared_keys);
        if let Some(memory) = memory_audit_log {
            ids.push(memory);
        }
        ids.push(memory_encrypted_maps);
        ids.push(memory_tombstones);
        proof {
            assert(ids@ =~= EncryptedMaps::regions(
                memory_domain_separator,
                memory_access_control,
                memory_shared_keys,
                memory_encrypted_maps,
                memory_tombstones,
                memory_audit_log,
            ));
        }
        ids
    }

    /// Opens the encrypted maps and their key manager in the given regions of
    /// the pool, which must be free and distinct: each table lives in the
    /// region named for it. What the regions hold is loaded, and the domain
    /// separator is written where its region holds none yet. Auditing is on
    /// where a region for the audit log is given.
    ///
    /// Fails with `AlreadyInitialized`, and leaves the pool as it was, where
    /// a region is in use already or named twice; so a second call for the
    /// same regions fails.
    pub fn init(
        pool: &mut MemoryPool,
        domain_separator: &str,
        memory_domain_separator: u8,
        memory_access_control: u8,
        memory_shared_keys: u8,
        memory_encrypted_maps: u8,
        memory_tombstones: u8,
        memory_audit_log: Option<u8>,
    ) -> (maps: Result<EncryptedMaps, MemoryInitializationError>)
        ensures
            final(pool).manager() == old(pool).manager(),
            match maps {
                Ok(m) => {
                    &&& old(pool).all_free(
                        EncryptedMaps::regions(
                            memory_domain_separator,
                            memory_access_control,
                            memory_shared_keys,
                            memory_encrypted_maps,
                            memory_tombstones,
                            memory_audit_log,
                        ),
                    )
                    &&& forall|id: u8|
                        final(pool).is_claimed(id) <==> (old(pool).is_claimed(id)
                            || EncryptedMaps::regions(
                            memory_domain_separator,
                            memory_access_control,
                            memory_shared_keys,
                            memory_encrypted_maps,
                            memory_tombstones,
                            memory_audit_log,
                        ).contains(id))
                    &&& m@.key_manager.audit_logs is Some <==> memory_audit_log is Some
                    &&& m@.key_manager.regions == KeyManager::regions(
                        memory_domain_separator,
                        memory_access_control,
                        memory_shared_keys,
                        memory_audit_log,
                    )
                    &&& m@.regions == seq![memory_encrypted_maps, memory_tombstones]
                },
                Err(e) => {
                    &&& *final(pool) == *old(pool)
                    &&& e == MemoryInitializationError::AlreadyInitialized <==> !old(pool).all_free(
                        EncryptedMaps::regions(
                            memory_domain_separator,
                            memory_access_control,
                            memory_shared_keys,
                            memory_encrypted_maps,
                            memory_tombstones,
                            memory_audit_log,
                        ),
                    )
                },
            },
    {
        let ids = EncryptedMaps::region_list(
            memory_domain_separator,
            memory_access_control,
            memory_shared_keys,
            memory_encrypted_maps,
            memory_tombstones,
            memory_audit_log,
        );
        if !pool.can_claim_all(&ids) {
            return Err(MemoryInitializationError::AlreadyInitialized);
        }
        assert(ids@[0] == memory_domain_separator);
        let opened = cell_open(
            pool.regions(),
            memory_domain_separator,
            domain_separator.to_owned(),
        );
        EncryptedMaps::init_opened(
            pool,
            opened,
            memory_domain_separator,
            memory_access_control,
            memory_shared_keys,
            memory_encrypted_maps,
            memory_tombstones,
            memory_audit_log,
        )
    }

    /// The second half of `init`, for the regions found free: with the cell
    /// of the domain separator open, takes the regions into use and opens the
    /// tables; with the cell refused, fails with `DomainSeparatorUnreadable`
    /// and leaves the pool as it was.
    pub fn init_opened(
        pool: &mut MemoryPool,
        opened: Result<TextCell, InitError>,
        memory_domain_separator: u8,
        memory_access_control: u8,
        memory_shared_keys: u8,
        memory_encrypted_maps: u8,
        memory_tombstones: u8,
        memory_audit_log: Option<u8>,
    ) -> (maps: Result<EncryptedMaps, MemoryInitializationError>)
        requires
            old(pool).all_free(
                EncryptedMaps::regions(
                    memory_domain_separator,
                    memory_access_control,
                    memory_shared_keys,
                    memory_encrypted_maps,
                    memory_tombstones,
                    memory_audit_log,
                ),
            ),
        ensures
            final(pool).manager() == old(pool).manager(),
            match maps {
                Ok(m) => {
                    &&& opened matches Ok(cell)
                    &&& m@.key_manager.domain_separator == cell_text(cell)
                    &&& forall|id: u8|
                        final(pool).is_claimed(id) <==> (old(pool).is_claimed(id)
                            || EncryptedMaps::regions(
                            memory_domain_separator,
                            memory_access_control,
                            memory_shared_keys,
                            memory_encrypted_maps,
                            memory_tombstones,
                            memory_audit_log,
                        ).contains(id))
                    &&& m@.key_manager.audit_logs is Some <==> memory_audit_log is Some
                    &&& m@.key_manager.regions == KeyManager::regions(
                        cell_region(cell),
                        memory_access_control,
                        memory_shared_keys,
                        memory_audit_log,
                    )
                    &&& m@.regions == seq![memory_encrypted_maps, memory_tombstones]
                },
                Err(e) => {
                    &&& opened is Err
                    &&& e == MemoryInitializationError::DomainSeparatorUnreadable
                    &&& *final(pool) == *old(pool)
                },
            },
    {
        let ghost all = EncryptedMaps::regions(
            memory_domain_separator,
            memory_access_control,
            memory_shared_keys,
            memory_encrypted_maps,
            memory_tombstones,
            memory_audit_log,
        );
        let ghost inner = KeyManager::regions(
            memory_domain_separator,
            memory_access_control,
            memory_shared_keys,
            memory_audit_log,
        );
        let ghost n = inner.len() as int;
        proof {
            assert(all[n] == memory_encrypted_maps);
            assert(all[n + 1] == memory_tombstones);
            assert forall|i: int| 0 <= i < n implies inner[i] == all[i] by {}
            assert(old(pool).all_free(inner)) by {
                assert forall|i: int| 0 <= i < n implies !old(pool).is_claimed(
                    #[trigger] inner[i],
                ) by {
                    assert(inner[i] == all[i]);
                }
                assert forall|i: int, j: int| 0 <= i < j < n implies inner[i] != inner[j] by {
                    assert(inner[i] == all[i]);
                    assert(inner[j] == all[j]);
                }
            }
            assert forall|i: int| 0 <= i < n implies inner[i] != memory_encrypted_maps && inner[i]
                != memory_tombstones by {
                assert(inner[i] == all[i]);
            }
            assert(!inner.contains(memory_encrypted_maps));
            assert(!inner.contains(memory_tombstones));
        }
        let key_manager = match KeyManager::init_opened(
            pool,
            opened,
            memory_domain_separator,
            memory_access_control,
            memory_shared_keys,
            memory_audit_log,
        ) {
            Ok(manager) => manager,
            Err(e) => {
                return Err(e);
            },
        };
        let free = pool.is_free(memory_encrypted_maps);
        assert(free);
        let mapkey_vals = store_open(pool.regions(), memory_encrypted_maps);
        let first = pool.claim(memory_encrypted_maps);
        let free = pool.is_free(memory_tombstones);
        assert(free);
        let tombstones = store_open(pool.regions(), memory_tombstones);
        let second = pool.claim(memory_tombstones);
        proof {
            assert forall|id: u8|
                pool.is_claimed(id) <==> (old(pool).is_claimed(id) || all.contains(id)) by {
                if inner.contains(id) {
                    let i = choose|i: int| 0 <= i < n && inner[i] == id;
                    assert(all[i] == id);
                }
                if all.contains(id) {
                    let i = choose|i: int| 0 <= i < all.len() && all[i] == id;
                    if i < n {
                        assert(inner[i] == id);
                    }
                }
            }
        }
        Ok(EncryptedMaps { key_manager, mapkey_vals, tombstones })
    }

    /// The maps that are shared with `caller`.
    #[must_use]
    pub fn get_accessible_shared_map_names(&self, caller: Principal) -> (ids: Vec<KeyId>)
        ensures
            forall|key_id: KeyId|
                ids@.contains(key_id) <==> self@.key_manager.access_control.contains_key(
                    (caller, key_id),
                ),
            key_ids_rising(ids@),
    {
        self.key_manager.get_accessible_shared_key_ids(caller)
    }

    /// The users with whom the map `key_id` is shared, each with the grant
    /// that the table holds for the user; for a caller who may read the map
    /// at `now`.
    pub fn get_shared_user_access_for_map(&self, caller: Principal, key_id: KeyId, now: u64) -> (users:
        Result<Vec<(Principal, AccessRights)>, String>)
        ensures
            match users {
                Ok(list) => {
                    &&& self@.key_manager.can_read(caller, key_id, now) is Some
                    &&& forall|user: Principal, grant: AccessRights|
                        list@.contains((user, grant)) <==> self@.key_manager.shared_keys.contains(
                            (key_id, user),
                        ) && self@.key_manager.stored_grant(user, key_id) == Some(grant)
                    &&& users_rising(list@)
                },
                Err(text) => self@.key_manager.can_read(caller, key_id, now) is None && text@
                    == Denial::Unauthorized.message(),
            },
    {
        self.key_manager.get_shared_user_access_for_key(caller, key_id, now)
    }

    /// The request that asks the oracle for the verification key.
    pub fn get_vetkey_verification_key(&self) -> (request: VetKDPublicKeyRequest)
        ensures
            request.canister_id is None,
            request.derivation_path@.len() == 1,
            request.derivation_path@[0]@ == encode_utf8(self@.key_manager.domain_separator),
            is_test_key(request.key_id),
    {
        self.key_manager.get_vetkey_verification_key()
    }

    /// The request that asks the oracle for the key of the map `key_id`,
    /// encrypted under `transport_key`; for a caller who may read the map.
    pub fn get_encrypted_vetkey(
        &mut self,
        caller: Principal,
        key_id: KeyId,
        transport_key: TransportKey,
        now: u64,
    ) -> (request: Result<VetKDEncryptedKeyRequest, String>)
        ensures
            match request {
                Ok(r) => {
                    &&& old(self)@.key_manager.can_read(caller, key_id, now) matches Some(grant)
                    &&& final(self)@ == (EncryptedMapsState {
                        key_manager: old(self)@.key_manager.key_handed_out(
                            caller,
                            key_id,
                            grant,
                            now,
                        ),
                        ..old(self)@
                    })
                    &&& r.derivation_id@ == key_id.0.as_bytes() + key_id.1@
                    &&& r.public_key_derivation_path@.len() == 1
                    &&& r.public_key_derivation_path@[0]@ == encode_utf8(
                        old(self)@.key_manager.domain_separator,
                    )
                    &&& is_test_key(r.key_id)
                    &&& r.encryption_public_key@ == transport_key@
                },
                Err(text) => {
                    &&& old(self)@.key_manager.can_read(caller, key_id, now) is None
                    &&& text@ == Denial::Unauthorized.message()
                    &&& final(self)@ == old(self)@
                },
            },
    {
        self.key_manager.get_encrypted_vetkey(caller, key_id, transport_key, now)
    }

    /// The rights that `user` has on the map `key_id` at `now`, for a caller
    /// who may read the map.
    pub fn get_user_rights(&self, caller: Principal, key_id: KeyId, user: Principal, now: u64) -> (rights:
        Result<Option<AccessRights>, String>)
        ensures
            match rights {
                Ok(grant) => self@.key_manager.can_read(caller, key_id, now) is Some && grant
                    == self@.key_manager.can_read(user, key_id, now),
                Err(text) => self@.key_manager.can_read(caller, key_id, now) is None && text@
                    == Denial::Unauthorized.message(),
            },
    {
        self.key_manager.get_user_rights(caller, key_id, user, now)
    }

    /// Grants `user` the rights `access_rights` on the map `key_id`, as the
    /// key manager does.
    pub fn set_user_rights(
        &mut self,
        caller: Principal,
        key_id: KeyId,
        user: Principal,
        access_rights: AccessRights,
        now: u64,
    ) -> (previous: Result<Option<AccessRights>, String>)
        ensures
            match previous {
                Ok(grant) => {
                    &&& old(self)@.key_manager.set_user_rights_denial(
                        caller,
                        key_id,
                        user,
                        access_rights,
                        now,
                    ) is None
                    &&& grant == old(self)@.key_manager.stored_grant(user, key_id)
                    &&& final(self)@ == (EncryptedMapsState {
                        key_manager: old(self)@.key_manager.set_user_rights(
                            caller,
                            key_id,
                            user,
                            access_rights,
                            now,
                        ),
                        ..old(self)@
                    })
                },
                Err(text) => {
                    &&& old(self)@.key_manager.set_user_rights_denial(
                        caller,
                        key_id,
                        user,
                        access_rights,
                        now,
                    ) matches Some(denial)
                    &&& text@ == denial.message()
                    &&& final(self)@ == old(self)@
                },
            },
    {
        self.key_manager.set_user_rights(caller, key_id, user, access_rights, now)
    }

    /// Takes from `user` what the user was granted on the map `key_id`, as
    /// the key manager does.
    pub fn remove_user(&mut self, caller: Principal, key_id: KeyId, user: Principal, now: u64) -> (previous:
        Result<Option<AccessRights>, String>)
        ensures
            match previous {
                Ok(grant) => {
                    &&& old(self)@.key_manager.remove_user_denial(caller, key_id, user, now) is None
                    &&& grant == old(self)@.key_manager.stored_grant(user, key_id)
                    &&& final(self)@ == (EncryptedMapsState {
                        key_manager: old(self)@.key_manager.remove_user(caller, key_id, user, now),
                        ..old(self)@
                    })
                },
                Err(text) => {
                    &&& old(self)@.key_manager.remove_user_denial(caller, key_id, user, now)
                        matches Some(denial)
                    &&& text@ == denial.message()
                    &&& final(self)@ == old(self)@
                },
            },
    {
        self.key_manager.remove_user(caller, key_id, user, now)
    }

    /// The audit log of the map `key_id`, oldest entry first.
    pub fn get_audit_log(&self, key_id: KeyId) -> (log: AuditLog)
        ensures
            log@ == self@.key_manager.log_of(key_id),
    {
        self.key_manager.get_audit_log(key_id)
    }

    /// The live values of the map `key_id`, each with its key, by rising
    /// key; for a caller who may read the map.
    pub fn get_encrypted_values_for_map(&self, caller: Principal, key_id: KeyId, now: u64) -> (values:
        Result<Vec<(MapKey, EncryptedMapValue)>, String>)
        ensures
            match values {
                Ok(list) => self@.key_manager.can_read(caller, key_id, now) is Some
                    && lists_values(self@, key_id, values_view(list@)),
                Err(text) => self@.key_manager.can_read(caller, key_id, now) is None && text@
                    == Denial::Unauthorized.message(),
            },
    {
        match self.key_manager.ensure_user_can_read(caller, key_id, now) {
            Ok(_) => Ok(self.values_of_map(&key_id)),
            Err(text) => Err(text),
        }
    }

    /// The live values of the map `key_id`, each with its key, by rising key.
    fn values_of_map(&self, key_id: &KeyId) -> (list: Vec<(MapKey, EncryptedMapValue)>)
        ensures
            lists_values(self@, *key_id, values_view(list@)),
    {
        let prefix = key_id_bytes(key_id);
        let found = scan_fixed(&self.mapkey_vals, &prefix, NAME_LENGTH, true);
        let mut list: Vec<(MapKey, EncryptedMapValue)> = Vec::new();
        let mut at: usize = 0;
        while at < found.len()
            invariant
                at <= found.len(),
                at == list.len(),
                forall|i: int| 0 <= i < found.len() ==> (#[trigger] key_at(found@, i)).len() == 32,
                forall|a: int|
                    0 <= a < list.len() ==> (#[trigger] list@[a]).0@ == key_at(found@, a)
                        && list@[a].1@ == value_at(found@, a),
            decreases found.len() - at,
        {
            let ghost rest = key_at(found@, at as int);
            let key = decode_name(found[at].0.as_slice(), 0);
            let value = ByteBuf::from_vec(copy_range(found[at].1.as_slice(), 0, found[at].1.len()));
            proof {
                assert(rest.subrange(0, NAME_LENGTH as int) =~= rest);
                assert(value@ =~= value_at(found@, at as int));
            }
            list.push((key, value));
            at += 1;
        }
        proof {
            lemma_values_listed(
                store_entries(self.mapkey_vals),
                *key_id,
                found@,
                values_view(list@),
            );
        }
        list
    }

    /// The tombstones of the map `key_id`, each with its key, by rising key;
    /// for a caller who may read the map.
    pub fn get_tombstones_for_map(&self, caller: Principal, key_id: KeyId, now: u64) -> (tombstones:
        Result<Vec<(MapKey, TombstoneEntry)>, String>)
        ensures
            match tombstones {
                Ok(list) => self@.key_manager.can_read(caller, key_id, now) is Some
                    && lists_tombstones(self@, key_id, tombstones_view(list@)),
                Err(text) => self@.key_manager.can_read(caller, key_id, now) is None && text@
                    == Denial::Unauthorized.message(),
            },
    {
        match self.key_manager.ensure_user_can_read(caller, key_id, now) {
            Ok(_) => {},
            Err(text) => {
                return Err(text);
            },
        }
        let prefix = key_id_bytes(&key_id);
        let found = scan_fixed(&self.tombstones, &prefix, NAME_LENGTH, true);
        let mut list: Vec<(MapKey, TombstoneEntry)> = Vec::new();
        let ghost mut picks: Seq<int> = Seq::empty();
        let mut at: usize = 0;
        proof {
            lemma_picked_none(found@, holds_tombstone());
        }
        while at < found.len()
            invariant
                at <= found.len(),
                forall|i: int| 0 <= i < found.len() ==> (#[trigger] key_at(found@, i)).len() == 32,
                is_picked(found@, at as int, holds_tombstone(), picks),
                list.len() == picks.len(),
                forall|a: int|
                    0 <= a < list.len() ==> (#[trigger] list@[a]).0@ == key_at(found@, picks[a])
                        && TombstoneView::decoding(value_at(found@, picks[a])) == Some(
                        list@[a].1@,
                    ),
            decreases found.len() - at,
        {
            let ghost rest = key_at(found@, at as int);
            match TombstoneEntry::from_bytes(found[at].1.as_slice()) {
                Some(entry) => {
                    let key = decode_name(found[at].0.as_slice(), 0);
                    proof {
                        assert(rest.subrange(0, NAME_LENGTH as int) =~= rest);
                        lemma_picked_push(found@, at as int, holds_tombstone(), picks);
                        picks = picks.push(at as int);
                    }
                    list.push((key, entry));
                },
                None => {
                    proof {
                        lemma_picked_skip(found@, at as int, holds_tombstone(), picks);
                    }
                },
            }
            at += 1;
        }
        proof {
            lemma_tombstones_listed(
                store_entries(self.tombstones),
                key_id,
                found@,
                picks,
                tombstones_view(list@),
            );
        }
        Ok(list)
    }

    /// The names of the maps of `caller` that hold a live value, by rising
    /// name. Tombstones alone do not count.
    #[must_use]
    pub fn get_owned_non_empty_map_names(&self, caller: Principal) -> (names: Vec<MapName>)
        ensures
            forall|name: MapName| names@.contains(name) <==> self@.is_non_empty((caller, name)),
            names_rising(names@),
    {
        let prefix = principal_bytes(&caller);
        let found = scan_fixed(&self.mapkey_vals, &prefix, 64, false);
        let ghost entries = shown(store_entries(self.mapkey_vals), false);
        let mut names: Vec<MapName> = Vec::new();
        let mut at: usize = 0;
        while at < found.len()
            invariant
                at <= found.len(),
                prefix@ == caller.encoding(),
                entries == shown(store_entries(self.mapkey_vals), false),
                is_fixed_scan(entries, prefix@, 64, found@),
                names.len() <= at,
                forall|a: int|
                    0 <= a < names.len() ==> self@.is_non_empty((caller, #[trigger] names@[a])),
                names_rising(names@),
                forall|j: int|
                    0 <= j < at ==> exists|a: int|
                        0 <= a < names.len() && (#[trigger] names@[a])@ == head_of(
                            #[trigger] key_at(found@, j),
                        ),
                at > 0 ==> names.len() > 0 && names@[names.len() - 1]@ == head_of(
                    key_at(found@, at - 1),
                ),
            decreases found.len() - at,
        {
            let ghost rest = key_at(found@, at as int);
            assert(rest.len() == 64);
            let name = decode_name(found[at].0.as_slice(), 0);
            let fresh = names.len() == 0 || !same_name(&names[names.len() - 1], &name);
            if fresh {
                let key = decode_name(found[at].0.as_slice(), NAME_LENGTH);
                proof {
                    assert(prefix@ + rest =~= value_key((caller, name), key));
                    assert(self@.mapkey_vals.contains_key(((caller, name), key)));
                    lemma_next_name(found@, at as int, names@, name);
                }
                let ghost before = names@;
                names.push(name);
                proof {
                    let last = before.len() as int;
                    assert forall|a: int| 0 <= a < names.len() implies self@.is_non_empty(
                        (caller, #[trigger] names@[a]),
                    ) by {
                        if a < last {
                            assert(names@[a] == before[a]);
                        }
                    }
                    assert forall|a: int, b: int| 0 <= a < b < names.len() implies lex_lt(
                        (#[trigger] names@[a])@,
                        (#[trigger] names@[b])@,
                    ) by {
                        assert(names@[a] == before[a]);
                        if b < last {
                            assert(names@[b] == before[b]);
                        }
                    }
                    assert forall|j: int| 0 <= j < at + 1 implies exists|a: int|
                        0 <= a < names.len() && (#[trigger] names@[a])@ == head_of(
                            #[trigger] key_at(found@, j),
                        ) by {
                        if j < at {
                            let a = choose|a: int|
                                0 <= a < before.len() && (#[trigger] before[a])@ == head_of(
                                    key_at(found@, j),
                                );
                            assert(names@[a] == before[a]);
                        } else {
                            assert(names@[last]@ == head_of(key_at(found@, j)));
                        }
                    }
                }
            } else {
                proof {
                    let last = names.len() - 1;
                    assert(names@[last]@ == head_of(key_at(found@, at as int)));
                }
            }
            at += 1;
        }
        proof {
            assert forall|name: MapName| self@.is_non_empty((caller, name)) implies names@.contains(
                name,
            ) by {
                let key = choose|key: MapKey| self@.mapkey_vals.contains_key(((caller, name), key));
                let rest = name@ + key@;
                assert(prefix@ + rest =~= value_key((caller, name), key));
                assert(entries.contains_key(prefix@ + rest));
                assert(scan_has(found@, rest));
                let j = choose|j: int| 0 <= j < found@.len() && #[trigger] key_at(found@, j) == rest;
                let a = choose|a: int|
                    0 <= a < names.len() && (#[trigger] names@[a])@ == head_of(key_at(found@, j));
                assert(head_of(rest) =~= name@);
                lemma_name_injective(names@[a], name);
            }
        }
        names
    }

    /// Takes all live values out of the map `key_id`, for a caller who may
    /// write to the map. If the deletion is soft, each value is kept as a
    /// tombstone. One deletion is recorded for the whole map, unless the map
    /// had no live value. Returns the keys that were taken out, by rising
    /// key.
    pub fn remove_map_values(&mut self, caller: Principal, key_id: KeyId, soft_delete: bool, now: u64) -> (removed:
        Result<Vec<MapKey>, String>)
        ensures
            match removed {
                Ok(keys) => {
                    &&& old(self)@.key_manager.can_write(caller, key_id, now) is Some
                    &&& forall|key: MapKey|
                        keys@.contains(key) <==> old(self)@.mapkey_vals.contains_key((key_id, key))
                    &&& names_rising(keys@)
                    &&& final(self)@ == old(self)@.remove_map(caller, key_id, soft_delete, now)
                },
                Err(text) => {
                    &&& old(self)@.key_manager.can_write(caller, key_id, now) is None
                    &&& text@ == Denial::Unauthorized.message()
                    &&& final(self)@ == old(self)@
                },
            },
    {
        match self.key_manager.ensure_user_can_write(caller, key_id, now) {
            Ok(_) => {},
            Err(text) => {
                return Err(text);
            },
        }
        let list = self.values_of_map(&key_id);
        let ghost items = values_view(list@);
        let ghost before = self@;
        let mut keys: Vec<MapKey> = Vec::new();
        proof {
            lemma_map_emptiness(before, key_id, items);
        }
        if list.len() == 0 {
            proof {
                assert forall|key: MapKey| !keys@.contains(key) by {}
            }
            return Ok(keys);
        }
        if soft_delete {
            let audit_fn = move || -> (entry: AuditEntry)
                ensures
                    entry == AuditEntry::spec_soft_deleted(now, caller),
                { AuditEntry::soft_deleted(now, caller) };
            self.key_manager.add_audit_log(key_id, audit_fn);
            let mut at: usize = 0;
            proof {
                assert(self@.tombstones =~= tombstones_after(
                    before.tombstones,
                    before.mapkey_vals,
                    items,
                    key_id,
                    0,
                    now,
                    caller,
                ));
            }
            while at < list.len()
                invariant
                    at <= list.len(),
                    items == values_view(list@),
                    lists_values(before, key_id, items),
                    self@.key_manager == before.key_manager.record(
                        key_id,
                        AuditEntry::spec_soft_deleted(now, caller),
                    ),
                    self@.mapkey_vals == before.mapkey_vals,
                    self@.regions == before.regions,
                    self@.tombstones == tombstones_after(
                        before.tombstones,
                        before.mapkey_vals,
                        items,
                        key_id,
                        at as int,
                        now,
                        caller,
                    ),
                decreases list.len() - at,
            {
                let key = list[at].0;
                let tombstone = TombstoneEntry {
                    value: list[at].1.duplicate(),
                    deletion_timestamp: now,
                    deleted_by: caller,
                    marked_for_purge: false,
                };
                let ghost tombs = store_entries(self.tombstones);
                let _ = store_insert(
                    &mut self.tombstones,
                    value_key_bytes(&key_id, &key),
                    tombstone.to_bytes(),
                );
                proof {
                    assert(items[at as int] == (key, list@[at as int].1@));
                    tombstone@.lemma_decoding_of_encoding();
                    lemma_tombstones_insert(tombs, key_id, key, tombstone@.encoding());
                    lemma_tombstones_step(
                        before.tombstones,
                        before.mapkey_vals,
                        items,
                        key_id,
                        at as int,
                        now,
                        caller,
                    );
                }
                at += 1;
            }
        } else {
            let audit_fn = move || -> (entry: AuditEntry)
                ensures
                    entry == AuditEntry::spec_deleted(now, caller),
                { AuditEntry::deleted(now, caller) };
            self.key_manager.add_audit_log(key_id, audit_fn);
        }
        let ghost midway = self@;
        let mut at: usize = 0;
        proof {
            assert(self@.mapkey_vals =~= values_after(before.mapkey_vals, items, key_id, 0));
        }
        while at < list.len()
            invariant
                at <= list.len(),
                at == keys.len(),
                items == values_view(list@),
                self@.key_manager == midway.key_manager,
                self@.tombstones == midway.tombstones,
                self@.regions == midway.regions,
                self@.mapkey_vals == values_after(before.mapkey_vals, items, key_id, at as int),
                forall|a: int| 0 <= a < at ==> #[trigger] keys@[a] == items[a].0,
            decreases list.len() - at,
        {
            let key = list[at].0;
            let ghost values = store_entries(self.mapkey_vals);
            let _ = store_remove(&mut self.mapkey_vals, &value_key_bytes(&key_id, &key));
            proof {
                assert(items[at as int] == (key, list@[at as int].1@));
                lemma_values_remove(values, key_id, key);
                lemma_values_step(before.mapkey_vals, items, key_id, at as int);
            }
            keys.push(key);
            at += 1;
        }
        proof {
            lemma_map_removed(before, key_id, items, soft_delete, now, caller);
            assert forall|key: MapKey|
                keys@.contains(key) <==> before.mapkey_vals.contains_key((key_id, key)) by {
                if keys@.contains(key) {
                    let a = choose|a: int| 0 <= a < keys@.len() && keys@[a] == key;
                    assert(items[a].0 == key);
                }
                if before.mapkey_vals.contains_key((key_id, key)) {
                    let a = choose|a: int| 0 <= a < items.len() && (#[trigger] items[a]).0 == key;
                    assert(keys@[a] == key);
                }
            }
            assert forall|a: int, b: int| 0 <= a < b < keys.len() implies lex_lt(
                (#[trigger] keys@[a])@,
                (#[trigger] keys@[b])@,
            ) by {
                assert(lex_lt(items[a].0@, items[b].0@));
            }
            assert(self@ =~= before.remove_map(caller, key_id, soft_delete, now));
        }
        Ok(keys)
    }

    /// `remove_map_values` with a hard deletion.
    pub fn remove_map_values_legacy(&mut self, caller: Principal, key_id: KeyId, now: u64) -> (removed:
        Result<Vec<MapKey>, String>)
        ensures
            match removed {
                Ok(keys) => {
                    &&& old(self)@.key_manager.can_write(caller, key_id, now) is Some
                    &&& forall|key: MapKey|
                        keys@.contains(key) <==> old(self)@.mapkey_vals.contains_key((key_id, key))
                    &&& names_rising(keys@)
                    &&& final(self)@ == old(self)@.remove_map(caller, key_id, false, now)
                },
                Err(text) => {
                    &&& old(self)@.key_manager.can_write(caller, key_id, now) is None
                    &&& text@ == Denial::Unauthorized.message()
                    &&& final(self)@ == old(self)@
                },
            },
    {
        self.remove_map_values(caller, key_id, false, now)
    }

    /// The maps that `caller` may find: those shared with the caller, then
    /// the caller's own maps that hold a live value.
    fn get_accessible_map_ids_iter(&self, caller: Principal) -> (ids: Vec<KeyId>)
        ensures
            is_accessible_list(self@, caller, ids@),
    {
        let mut ids = self.get_accessible_shared_map_names(caller);
        let owned = self.get_owned_non_empty_map_names(caller);
        let ghost shared = ids@;
        let mut at: usize = 0;
        while at < owned.len()
            invariant
                at <= owned.len(),
                ids@ == shared + Seq::new(at as nat, |i: int| (caller, owned@[i])),
            decreases owned.len() - at,
        {
            ids.push((caller, owned[at]));
            at += 1;
            proof {
                assert(ids@ =~= shared + Seq::new(at as nat, |i: int| (caller, owned@[i])));
            }
        }
        proof {
            assert(ids@ == joined(caller, shared, owned@));
        }
        ids
    }

    /// The live values of every map that `caller` may find and may read at
    /// `now`: the maps shared with the caller first, then the caller's own;
    /// each map with the list of its values.
    #[must_use]
    pub fn get_all_accessible_encrypted_values(&self, caller: Principal, now: u64) -> (all: Vec<
        (MapId, Vec<(MapKey, EncryptedMapValue)>),
    >)
        ensures
            exists|ids: Seq<KeyId>| #[trigger]
                is_accessible_list(self@, caller, ids) && map_ids(all@) == ids.filter(
                    readable(self@, caller, now),
                ),
            forall|i: int|
                0 <= i < all.len() ==> lists_values(
                    self@,
                    (#[trigger] all@[i]).0,
                    values_view(all@[i].1@),
                ),
    {
        let ids = self.get_accessible_map_ids_iter(caller);
        let ghost chosen = readable(self@, caller, now);
        let mut all: Vec<(MapId, Vec<(MapKey, EncryptedMapValue)>)> = Vec::new();
        let mut at: usize = 0;
        proof {
            reveal(Seq::filter);
            assert(map_ids(all@) =~= ids@.subrange(0, 0).filter(chosen));
        }
        while at < ids.len()
            invariant
                at <= ids.len(),
                chosen == readable(self@, caller, now),
                map_ids(all@) == ids@.subrange(0, at as int).filter(chosen),
                forall|i: int|
                    0 <= i < all.len() ==> lists_values(
                        self@,
                        (#[trigger] all@[i]).0,
                        values_view(all@[i].1@),
                    ),
            decreases ids.len() - at,
        {
            let map_id = ids[at];
            proof {
                reveal(Seq::filter);
                assert(ids@.subrange(0, at + 1).drop_last() =~= ids@.subrange(0, at as int));
                assert(ids@.subrange(0, at + 1).last() == map_id);
            }
            match self.get_encrypted_values_for_map(caller, map_id, now) {
                Ok(values) => {
                    let ghost before = all@;
                    all.push((map_id, values));
                    proof {
                        assert(map_ids(all@) =~= map_ids(before).push(map_id));
                        assert forall|i: int| 0 <= i < all.len() implies lists_values(
                            self@,
                            (#[trigger] all@[i]).0,
                            values_view(all@[i].1@),
                        ) by {
                            if i < before.len() {
                                assert(all@[i] == before[i]);
                            }
                        }
                    }
                },
                Err(_) => {},
            }
            at += 1;
        }
        proof {
            assert(ids@.subrange(0, ids@.len() as int) =~= ids@);
        }
        all
    }

    /// Every map that `caller` may find and may read at `now`, in the order
    /// of `get_all_accessible_encrypted_values`: each with its owner, its
    /// name, its live values and the users it is shared with.
    #[must_use]
    pub fn get_all_accessible_encrypted_maps(&self, caller: Principal, now: u64) -> (all: Vec<
        EncryptedMapData,
    >)
        ensures
            exists|ids: Seq<KeyId>| #[trigger]
                is_accessible_list(self@, caller, ids) && data_ids(all@) == ids.filter(
                    readable(self@, caller, now),
                ),
            forall|i: int| 0 <= i < all.len() ==> describes_map(self@, #[trigger] all@[i]),
    {
        let ids = self.get_accessible_map_ids_iter(caller);
        let ghost chosen = readable(self@, caller, now);
        let mut all: Vec<EncryptedMapData> = Vec::new();
        let mut at: usize = 0;
        proof {
            reveal(Seq::filter);
            assert(data_ids(all@) =~= ids@.subrange(0, 0).filter(chosen));
        }
        while at < ids.len()
            invariant
                at <= ids.len(),
                chosen == readable(self@, caller, now),
                data_ids(all@) == ids@.subrange(0, at as int).filter(chosen),
                forall|i: int| 0 <= i < all.len() ==> describes_map(self@, #[trigger] all@[i]),
            decreases ids.len() - at,
        {
            let map_id = ids[at];
            proof {
                reveal(Seq::filter);
                assert(ids@.subrange(0, at + 1).drop_last() =~= ids@.subrange(0, at as int));
                assert(ids@.subrange(0, at + 1).last() == map_id);
            }
            match self.key_manager.ensure_user_can_read(caller, map_id, now) {
                Ok(_) => {
                    let data = self.describe_map(map_id, now);
                    let ghost before = all@;
                    all.push(data);
                    proof {
                        assert(data_ids(all@) =~= data_ids(before).push(map_id));
                        assert forall|i: int| 0 <= i < all.len() implies describes_map(
                            self@,
                            #[trigger] all@[i],
                        ) by {
                            if i < before.len() {
                                assert(all@[i] == before[i]);
                            }
                        }
                    }
                },
                Err(_) => {},
            }
            at += 1;
        }
        proof {
            assert(ids@.subrange(0, ids@.len() as int) =~= ids@);
        }
        all
    }

    /// The map `map_id` with its owner, its name, its live values and the
    /// users it is shared with.
    fn describe_map(&self, map_id: MapId, now: u64) -> (data: EncryptedMapData)
        ensures
            data.id() == map_id,
            describes_map(self@, data),
    {
        let values = self.values_of_map(&map_id);
        let mut keyvals: Vec<(ByteBuf, EncryptedMapValue)> = Vec::new();
        let mut at: usize = 0;
        while at < values.len()
            invariant
                at <= values.len(),
                at == keyvals.len(),
                forall|i: int|
                    0 <= i < at ==> (#[trigger] keyvals@[i]).0@ == values@[i].0@ && keyvals@[i].1@
                        == values@[i].1@,
            decreases values.len() - at,
        {
            let key = ByteBuf::from_vec(slice_to_vec(array_as_slice(&values[at].0)));
            keyvals.push((key, values[at].1.duplicate()));
            at += 1;
        }
        let access_control = match self.key_manager.get_shared_user_access_for_key(
            map_id.0,
            map_id,
            now,
        ) {
            Ok(list) => list,
            Err(_) => Vec::new(),
        };
        let map_name = ByteBuf::from_vec(slice_to_vec(array_as_slice(&map_id.1)));
        let data = EncryptedMapData { map_owner: map_id.0, map_name, keyvals, access_control };
        proof {
            assert(data.map_name@ == map_id.1@);
            lemma_name_injective(data.id().1, map_id.1);
            assert(lists_values(self@, map_id, values_view(values@)));
            assert(keyvals_view(data.keyvals@) =~= keyed_by_bytes(values_view(values@)));
        }
        data
    }
}

/// The items of a list of values, each value as its bytes.
pub open spec fn values_view(list: Seq<(MapKey, EncryptedMapValue)>) -> Seq<(MapKey, Seq<u8>)> {
    Seq::new(list.len(), |i: int| (list[i].0, list[i].1@))
}

/// The items of a list of tombstones, each value as its bytes.
pub open spec fn tombstones_view(list: Seq<(MapKey, TombstoneEntry)>) -> Seq<
    (MapKey, TombstoneView),
> {
    Seq::new(list.len(), |i: int| (list[i].0, list[i].1@))
}

/// Accepts the entries whose value is the stored form of a tombstone.
pub open spec fn holds_tombstone() -> spec_fn(Seq<u8>, Seq<u8>) -> bool {
    |rest: Seq<u8>, value: Seq<u8>| TombstoneView::decoding(value) is Some
}

proof fn lemma_values_listed(
    entries: Map<Seq<u8>, Seq<u8>>,
    key_id: KeyId,
    found: Seq<(Vec<u8>, Vec<u8>)>,
    list: Seq<(MapKey, Seq<u8>)>,
)
    requires
        is_fixed_scan(entries, key_id_encoding(key_id), NAME_LENGTH as nat, found),
        list.len() == found.len(),
        forall|a: int|
            0 <= a < list.len() ==> (#[trigger] list[a]).0@ == key_at(found, a) && list[a].1
                == value_at(found, a),
    ensures
        forall|i: int|
            0 <= i < list.len() ==> values_of(entries).contains_key(
                (key_id, (#[trigger] list[i]).0),
            ) && values_of(entries)[(key_id, list[i].0)] == list[i].1,
        forall|key: MapKey| #[trigger]
            values_of(entries).contains_key((key_id, key)) ==> exists|i: int|
                0 <= i < list.len() && (#[trigger] list[i]).0 == key,
        forall|i: int, j: int|
            0 <= i < j < list.len() ==> lex_lt((#[trigger] list[i]).0@, (#[trigger] list[j]).0@),
{
    let prefix = key_id_encoding(key_id);
    assert forall|i: int| 0 <= i < list.len() implies values_of(entries).contains_key(
        (key_id, (#[trigger] list[i]).0),
    ) && values_of(entries)[(key_id, list[i].0)] == list[i].1 by {
        assert(list[i].0@ == key_at(found, i));
        assert(prefix + key_at(found, i) =~= value_key(key_id, list[i].0));
    }
    assert forall|key: MapKey| #[trigger]
        values_of(entries).contains_key((key_id, key)) implies exists|i: int|
        0 <= i < list.len() && (#[trigger] list[i]).0 == key by {
        assert(prefix + key@ =~= value_key(key_id, key));
        assert(entries.contains_key(prefix + key@));
        assert(scan_has(found, key@));
        let j = choose|j: int| 0 <= j < found.len() && #[trigger] key_at(found, j) == key@;
        assert(list[j].0@ == key@);
        lemma_name_injective(list[j].0, key);
    }
    assert forall|i: int, j: int| 0 <= i < j < list.len() implies lex_lt(
        (#[trigger] list[i]).0@,
        (#[trigger] list[j]).0@,
    ) by {
        assert(lex_lt(key_at(found, i), key_at(found, j)));
    }
}

proof fn lemma_tombstones_listed(
    entries: Map<Seq<u8>, Seq<u8>>,
    key_id: KeyId,
    found: Seq<(Vec<u8>, Vec<u8>)>,
    picks: Seq<int>,
    list: Seq<(MapKey, TombstoneView)>,
)
    requires
        is_fixed_scan(entries, key_id_encoding(key_id), NAME_LENGTH as nat, found),
        is_picked(found, found.len() as int, holds_tombstone(), picks),
        list.len() == picks.len(),
        forall|a: int|
            0 <= a < list.len() ==> (#[trigger] list[a]).0@ == key_at(found, picks[a])
                && TombstoneView::decoding(value_at(found, picks[a])) == Some(list[a].1),
    ensures
        forall|i: int|
            0 <= i < list.len() ==> tombstones_of(entries).contains_key(
                (key_id, (#[trigger] list[i]).0),
            ) && tombstones_of(entries)[(key_id, list[i].0)] == list[i].1,
        forall|key: MapKey| #[trigger]
            tombstones_of(entries).contains_key((key_id, key)) ==> exists|i: int|
                0 <= i < list.len() && (#[trigger] list[i]).0 == key,
        forall|i: int, j: int|
            0 <= i < j < list.len() ==> lex_lt((#[trigger] list[i]).0@, (#[trigger] list[j]).0@),
{
    let prefix = key_id_encoding(key_id);
    lemma_picked_all(entries, prefix, NAME_LENGTH as nat, found, holds_tombstone(), picks);
    assert forall|i: int| 0 <= i < list.len() implies tombstones_of(entries).contains_key(
        (key_id, (#[trigger] list[i]).0),
    ) && tombstones_of(entries)[(key_id, list[i].0)] == list[i].1 by {
        assert(list[i].0@ == key_at(found, picks[i]));
        assert(prefix + key_at(found, picks[i]) =~= value_key(key_id, list[i].0));
    }
    assert forall|key: MapKey| #[trigger]
        tombstones_of(entries).contains_key((key_id, key)) implies exists|i: int|
        0 <= i < list.len() && (#[trigger] list[i]).0 == key by {
        assert(prefix + key@ =~= value_key(key_id, key));
        assert(entries.contains_key(prefix + key@));
        let a = choose|a: int| 0 <= a < picks.len() && key_at(found, #[trigger] picks[a]) == key@;
        assert(list[a].0@ == key@);
        lemma_name_injective(list[a].0, key);
    }
    assert forall|i: int, j: int| 0 <= i < j < list.len() implies lex_lt(
        (#[trigger] list[i]).0@,
        (#[trigger] list[j]).0@,
    ) by {
        assert(lex_lt(key_at(found, picks[i]), key_at(found, picks[j])));
    }
}

/// The first 32 bytes of the remainder of a key: the name of the map.
pub open spec fn head_of(rest: Seq<u8>) -> Seq<u8> {
    rest.subrange(0, NAME_LENGTH as int)
}

/// In a scan by rising key, a name that differs from the name before it
/// comes after every name seen so far.
proof fn lemma_next_name(
    found: Seq<(Vec<u8>, Vec<u8>)>,
    at: int,
    names: Seq<MapName>,
    name: MapName,
)
    requires
        0 <= at < found.len(),
        crate::scan::scan_sorted(found),
        forall|i: int| 0 <= i < found.len() ==> (#[trigger] key_at(found, i)).len() == 64,
        names_rising(names),
        name@ == head_of(key_at(found, at)),
        at > 0 ==> names.len() > 0 && names[names.len() - 1]@ == head_of(key_at(found, at - 1)),
        names.len() == 0 || names[names.len() - 1] != name,
        at == 0 ==> names.len() == 0,
    ensures
        forall|a: int| 0 <= a < names.len() ==> lex_lt((#[trigger] names[a])@, name@),
{
    if names.len() > 0 {
        let last = names.len() - 1;
        let before = key_at(found, at - 1);
        let here = key_at(found, at);
        assert(lex_lt(before, here));
        lemma_lex_le_total(before, here);
        lemma_lex_le_of_heads(before, here, NAME_LENGTH as int);
        if lex_le(name@, names[last]@) {
            lemma_lex_le_antisymmetric(name@, names[last]@);
            lemma_name_injective(name, names[last]);
        }
        assert forall|a: int| 0 <= a < names.len() implies lex_lt(
            (#[trigger] names[a])@,
            name@,
        ) by {
            if a < last {
                assert(lex_lt(names[a]@, names[last]@));
                if lex_le(name@, names[a]@) {
                    lemma_lex_le_transitive(names[last]@, name@, names[a]@);
                }
            }
        }
    }
}

/// The keys of the map `key_id` that stand in `list` before the place `upto`.
pub open spec fn listed_upto(list: Seq<(MapKey, Seq<u8>)>, key_id: KeyId, upto: int) -> Set<
    (KeyId, MapKey),
> {
    Set::new(
        |e: (KeyId, MapKey)| exists|a: int| 0 <= a < upto && e == (key_id, (#[trigger] list[a]).0),
    )
}

/// The values that are left when those of `list` before the place `upto`
/// are taken out.
pub open spec fn values_after(
    values: Map<(KeyId, MapKey), Seq<u8>>,
    list: Seq<(MapKey, Seq<u8>)>,
    key_id: KeyId,
    upto: int,
) -> Map<(KeyId, MapKey), Seq<u8>> {
    Map::new(
        |e: (KeyId, MapKey)| values.contains_key(e) && !listed_upto(list, key_id, upto).contains(e),
        |e: (KeyId, MapKey)| values[e],
    )
}

/// The tombstones that there are when those of `list` before the place
/// `upto` were deleted softly at `now` for `caller`.
pub open spec fn tombstones_after(
    tombstones: Map<(KeyId, MapKey), TombstoneView>,
    values: Map<(KeyId, MapKey), Seq<u8>>,
    list: Seq<(MapKey, Seq<u8>)>,
    key_id: KeyId,
    upto: int,
    now: u64,
    caller: Principal,
) -> Map<(KeyId, MapKey), TombstoneView> {
    Map::new(
        |e: (KeyId, MapKey)|
            tombstones.contains_key(e) || listed_upto(list, key_id, upto).contains(e),
        |e: (KeyId, MapKey)|
            if listed_upto(list, key_id, upto).contains(e) {
                TombstoneView::fresh(values[e], now, caller)
            } else {
                tombstones[e]
            },
    )
}

proof fn lemma_values_step(
    values: Map<(KeyId, MapKey), Seq<u8>>,
    list: Seq<(MapKey, Seq<u8>)>,
    key_id: KeyId,
    at: int,
)
    requires
        0 <= at < list.len(),
    ensures
        values_after(values, list, key_id, at).remove((key_id, list[at].0)) == values_after(
            values,
            list,
            key_id,
            at + 1,
        ),
{
    let e0 = (key_id, list[at].0);
    assert forall|e: (KeyId, MapKey)|
        listed_upto(list, key_id, at + 1).contains(e) <==> (listed_upto(list, key_id, at).contains(
            e,
        ) || e == e0) by {
        if listed_upto(list, key_id, at + 1).contains(e) {
            let a = choose|a: int| 0 <= a < at + 1 && e == (key_id, (#[trigger] list[a]).0);
            if a < at {
                assert(listed_upto(list, key_id, at).contains(e));
            }
        }
        if listed_upto(list, key_id, at).contains(e) {
            let a = choose|a: int| 0 <= a < at && e == (key_id, (#[trigger] list[a]).0);
            assert(0 <= a < at + 1);
        }
        if e == e0 {
            assert(e == (key_id, list[at].0));
        }
    }
    assert(values_after(values, list, key_id, at).remove(e0) =~= values_after(
        values,
        list,
        key_id,
        at + 1,
    ));
}

proof fn lemma_tombstones_step(
    tombstones: Map<(KeyId, MapKey), TombstoneView>,
    values: Map<(KeyId, MapKey), Seq<u8>>,
    list: Seq<(MapKey, Seq<u8>)>,
    key_id: KeyId,
    at: int,
    now: u64,
    caller: Principal,
)
    requires
        0 <= at < list.len(),
        values.contains_key((key_id, list[at].0)),
        values[(key_id, list[at].0)] == list[at].1,
    ensures
        tombstones_after(tombstones, values, list, key_id, at, now, caller).insert(
            (key_id, list[at].0),
            TombstoneView::fresh(list[at].1, now, caller),
        ) == tombstones_after(tombstones, values, list, key_id, at + 1, now, caller),
{
    let e0 = (key_id, list[at].0);
    assert forall|e: (KeyId, MapKey)|
        listed_upto(list, key_id, at + 1).contains(e) <==> (listed_upto(list, key_id, at).contains(
            e,
        ) || e == e0) by {
        if listed_upto(list, key_id, at + 1).contains(e) {
            let a = choose|a: int| 0 <= a < at + 1 && e == (key_id, (#[trigger] list[a]).0);
            if a < at {
                assert(listed_upto(list, key_id, at).contains(e));
            }
        }
        if listed_upto(list, key_id, at).contains(e) {
            let a = choose|a: int| 0 <= a < at && e == (key_id, (#[trigger] list[a]).0);
            assert(0 <= a < at + 1);
        }
        if e == e0 {
            assert(e == (key_id, list[at].0));
        }
    }
    assert(tombstones_after(tombstones, values, list, key_id, at, now, caller).insert(
        e0,
        TombstoneView::fresh(list[at].1, now, caller),
    ) =~= tombstones_after(tombstones, values, list, key_id, at + 1, now, caller));
}

/// A map has a live value exactly if the list of its values is not empty.
proof fn lemma_map_emptiness(
    state: EncryptedMapsState,
    key_id: KeyId,
    list: Seq<(MapKey, Seq<u8>)>,
)
    requires
        lists_values(state, key_id, list),
    ensures
        state.is_non_empty(key_id) <==> list.len() > 0,
{
    if list.len() > 0 {
        assert(state.value(key_id, list[0].0) == Some(list[0].1));
        assert(state.mapkey_vals.contains_key((key_id, list[0].0)));
    }
}

/// With the whole list of a map's values taken out, the map is empty, and
/// every other map is as it was.
proof fn lemma_map_removed(
    state: EncryptedMapsState,
    key_id: KeyId,
    list: Seq<(MapKey, Seq<u8>)>,
    soft_delete: bool,
    now: u64,
    caller: Principal,
)
    requires
        lists_values(state, key_id, list),
        list.len() > 0,
    ensures
        values_after(state.mapkey_vals, list, key_id, list.len() as int) == state.remove_map(
            caller,
            key_id,
            soft_delete,
            now,
        ).mapkey_vals,
        soft_delete ==> tombstones_after(
            state.tombstones,
            state.mapkey_vals,
            list,
            key_id,
            list.len() as int,
            now,
            caller,
        ) == state.remove_map(caller, key_id, soft_delete, now).tombstones,
        !soft_delete ==> state.tombstones == state.remove_map(
            caller,
            key_id,
            soft_delete,
            now,
        ).tombstones,
        state.remove_map(caller, key_id, soft_delete, now).key_manager
            == state.key_manager.record(
            key_id,
            if soft_delete {
                AuditEntry::spec_soft_deleted(now, caller)
            } else {
                AuditEntry::spec_deleted(now, caller)
            },
        ),
{
    lemma_map_emptiness(state, key_id, list);
    let n = list.len() as int;
    assert forall|e: (KeyId, MapKey)|
        listed_upto(list, key_id, n).contains(e) <==> (state.mapkey_vals.contains_key(e) && e.0
            == key_id) by {
        if listed_upto(list, key_id, n).contains(e) {
            let a = choose|a: int| 0 <= a < n && e == (key_id, (#[trigger] list[a]).0);
            assert(state.value(key_id, list[a].0) == Some(list[a].1));
        }
        if state.mapkey_vals.contains_key(e) && e.0 == key_id {
            let a = choose|a: int| 0 <= a < list.len() && (#[trigger] list[a]).0 == e.1;
            assert(e == (key_id, list[a].0));
        }
    }
    assert(values_after(state.mapkey_vals, list, key_id, n) =~= state.remove_map(
        caller,
        key_id,
        soft_delete,
        now,
    ).mapkey_vals);
    if soft_delete {
        assert(tombstones_after(
            state.tombstones,
            state.mapkey_vals,
            list,
            key_id,
            n,
            now,
            caller,
        ) =~= state.remove_map(caller, key_id, soft_delete, now).tombstones);
    }
}

/// A map with its owner, its name, its live values and the users it is
/// shared with.
#[derive(Clone, Debug, PartialEq, Eq)]
pub struct EncryptedMapData {
    pub map_owner: Principal,
    pub map_name: ByteBuf,
    pub keyvals: Vec<(ByteBuf, EncryptedMapValue)>,
    pub access_control: Vec<(Principal, AccessRights)>,
}

impl EncryptedMapData {
    /// The map that the data is about: the owner, and the name that has the
    /// bytes of `map_name`.
    pub open spec fn id(self) -> MapId {
        (self.map_owner, choose|name: MapName| (#[trigger] name@) == self.map_name@)
    }
}

/// The shared maps followed by the caller's own.
pub open spec fn joined(caller: Principal, shared: Seq<KeyId>, owned: Seq<MapName>) -> Seq<KeyId> {
    shared + Seq::new(owned.len(), |i: int| (caller, owned[i]))
}

/// `ids` lists the maps that `caller` may find: those shared with the
/// caller, by rising owner and name, then the caller's own maps that hold a
/// live value, by rising name.
pub open spec fn is_accessible_list(
    state: EncryptedMapsState,
    caller: Principal,
    ids: Seq<KeyId>,
) -> bool {
    exists|shared: Seq<KeyId>, owned: Seq<MapName>|
        {
            &&& ids == #[trigger] joined(caller, shared, owned)
            &&& forall|key_id: KeyId|
                shared.contains(key_id) <==> state.key_manager.access_control.contains_key(
                    (caller, key_id),
                )
            &&& key_ids_rising(shared)
            &&& forall|name: MapName| owned.contains(name) <==> state.is_non_empty((caller, name))
            &&& names_rising(owned)
        }
}

/// Accepts the maps that `caller` may read at `now`.
pub open spec fn readable(state: EncryptedMapsState, caller: Principal, now: u64) -> spec_fn(
    KeyId,
) -> bool {
    |key_id: KeyId| state.key_manager.can_read(caller, key_id, now) is Some
}

/// The maps of a list of maps with their values.
pub open spec fn map_ids(all: Seq<(MapId, Vec<(MapKey, EncryptedMapValue)>)>) -> Seq<KeyId> {
    Seq::new(all.len(), |i: int| all[i].0)
}

/// The maps of a list of described maps.
pub open spec fn data_ids(all: Seq<EncryptedMapData>) -> Seq<KeyId> {
    Seq::new(all.len(), |i: int| all[i].id())
}

/// The items of a list of values under keys given as buffers, as bytes.
pub open spec fn keyvals_view(list: Seq<(ByteBuf, EncryptedMapValue)>) -> Seq<(Seq<u8>, Seq<u8>)> {
    Seq::new(list.len(), |i: int| (list[i].0@, list[i].1@))
}

/// The items of a list of values, each key as its bytes.
pub open spec fn keyed_by_bytes(list: Seq<(MapKey, Seq<u8>)>) -> Seq<(Seq<u8>, Seq<u8>)> {
    Seq::new(list.len(), |i: int| (list[i].0@, list[i].1))
}

/// `data` describes its map as the state has it: the live values by rising
/// key, and the users with whom the map is shared, each with the grant that
/// the table holds for the user, by rising user.
pub open spec fn describes_map(state: EncryptedMapsState, data: EncryptedMapData) -> bool {
    &&& data.id().1@ == data.map_name@
    &&& exists|list: Seq<(MapKey, Seq<u8>)>| #[trigger]
        lists_values(state, data.id(), list) && keyvals_view(data.keyvals@) == keyed_by_bytes(
            list,
        )
    &&& forall|user: Principal, grant: AccessRights|
        data.access_control@.contains((user, grant)) <==> state.key_manager.shared_keys.contains(
            (data.id(), user),
        ) && state.key_manager.stored_grant(user, data.id()) == Some(grant)
    &&& users_rising(data.access_control@)
}

} // verus!
