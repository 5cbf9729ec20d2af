//! The key manager: who may use which key, the sharing of keys, the audit
//! log, and the requests to the key-derivation oracle.

use crate::access_rights::{AccessRights, Rights};
use crate::audit::{AuditEntry, AuditLog};
use crate::audit_codec::lemma_log_decoding_of_encoding;
use crate::bytes::{append, lex_lt};
use crate::keys::{
    access_key, access_key_bytes, decode_key_id, key_id_bytes, key_id_encoding, key_ids_rising,
    lemma_key_id_encoding_injective, lemma_key_lengths, principal_bytes, sharing_key,
    sharing_key_bytes, KEY_ID_LENGTH,
};
use crate::scan::{
    is_fixed_scan, is_picked, key_at, lemma_picked_all, lemma_picked_none, lemma_picked_push,
    lemma_picked_skip, scan_fixed, scan_has, shown,
};
use crate::memory::MemoryPool;
use crate::model::{Denial, KeyManagerState};
use crate::principal::{Principal, ENCODED_LENGTH};
use crate::stable::{
    cell_get, cell_open, cell_region, cell_text, store_entries, store_get, store_insert,
    store_open, store_region, store_remove, ByteStore, TextCell,
};
use crate::tables::{
    grants_of, lemma_grants_insert, lemma_grants_remove, lemma_logs_insert,
    lemma_sharings_insert, lemma_sharings_remove, logs_of, sharings_of,
};
use crate::types::{KeyId, MemoryInitializationError, TransportKey};
use crate::vetkd_api_types::{
    VetKDCurve, VetKDEncryptedKeyRequest, VetKDKeyId, VetKDPublicKeyRequest,
};
use ic_stable_structures::cell::InitError;
use vstd::array::array_as_slice;
use vstd::prelude::*;
use vstd::slice::slice_to_vec;
use vstd::utf8::encode_utf8;

verus! {

/// The text under which a refusal reaches the caller.
pub fn refusal(denial: Denial) -> (text: String)
    ensures
        text@ == denial.message(),
{
    match denial {
        Denial::Unauthorized => "unauthorized".to_owned(),
        Denial::OwnerRightsFixed => "cannot change key owner's user rights".to_owned(),
        Denial::OwnerNotRemovable => "cannot remove key owner".to_owned(),
        Denial::WindowInvalid => "start time must be before or equal to end time".to_owned(),
    }
}

/// The key manager, over its tables in stable memory.
pub struct KeyManager {
    domain_separator: TextCell,
    access_control: ByteStore,
    shared_keys: ByteStore,
    audit_logs: Option<ByteStore>,
}

impl View for KeyManager {
    type V = KeyManagerState;

    closed spec fn view(&self) -> KeyManagerState {
        KeyManagerState {
            domain_separator: cell_text(self.domain_separator),
            access_control: grants_of(store_entries(self.access_control)),
            shared_keys: sharings_of(store_entries(self.shared_keys)),
            audit_logs: match self.audit_logs {
                Some(store) => Some(logs_of(store_entries(store))),
                None => None,
            },
            regions: KeyManager::regions(
                cell_region(self.domain_separator),
                store_region(self.access_control),
                store_region(self.shared_keys),
                match self.audit_logs {
                    Some(store) => Some(store_region(store)),
                    None => None,
                },
            ),
        }
    }
}

impl KeyManager {
    /// The grant of `user` on `key_id` as the table holds it, if any.
    fn read_grant(&self, user: &Principal, key_id: &KeyId) -> (grant: Option<AccessRights>)
        ensures
            grant == self@.stored_grant(*user, *key_id),
    {
        let key = access_key_bytes(user, key_id);
        match store_get(&self.access_control, &key) {
            Some(bytes) => AccessRights::from_bytes(bytes.as_slice()),
            None => None,
        }
    }

    /// The grant under which `user` may read `key_id` at `now`, or the
    /// refusal.
    pub fn ensure_user_can_read(&self, user: Principal, key_id: KeyId, now: u64) -> (allowed:
        Result<AccessRights, String>)
        ensures
            match allowed {
                Ok(grant) => self@.can_read(user, key_id, now) == Some(grant),
                Err(text) => self@.can_read(user, key_id, now) is None && text@
                    == Denial::Unauthorized.message(),
            },
    {
        if user == key_id.0 {
            return Ok(AccessRights::read_write_manage());
        }
        if let Some(grant) = self.read_grant(&user, &key_id) {
            if grant.live_at(now) {
                return Ok(grant);
            }
            return Err(refusal(Denial::Unauthorized));
        }
        if let Some(grant) = self.read_grant(&Principal::anonymous(), &key_id) {
            if grant.live_at(now) {
                return Ok(grant);
            }
            return Err(refusal(Denial::Unauthorized));
        }
        Err(refusal(Denial::Unauthorized))
    }

    /// The grant under which `user` may manage `key_id` at `now`, or the
    /// refusal.
    pub fn ensure_user_can_manage(&self, user: Principal, key_id: KeyId, now: u64) -> (allowed:
        Result<AccessRights, String>)
        ensures
            match allowed {
                Ok(grant) => self@.can_manage(user, key_id, now) == Some(grant),
                Err(text) => self@.can_manage(user, key_id, now) is None && text@
                    == Denial::Unauthorized.message(),
            },
    {
        if user == key_id.0 {
            return Ok(AccessRights::read_write_manage());
        }
        if user == Principal::anonymous() {
            return Err(refusal(Denial::Unauthorized));
        }
        if let Some(grant) = self.read_grant(&user, &key_id) {
            if grant.live_at(now) {
                match grant.rights {
                    Rights::ReadWriteManage => {
                        return Ok(grant);
                    },
                    _ => {},
                }
            }
        }
        Err(refusal(Denial::Unauthorized))
    }

    /// The grant under which `user` may write to `key_id` at `now`, or the
    /// refusal.
    pub fn ensure_user_can_write(&self, user: Principal, key_id: KeyId, now: u64) -> (allowed:
        Result<AccessRights, String>)
        ensures
            match allowed {
                Ok(grant) => self@.can_write(user, key_id, now) == Some(grant),
                Err(text) => self@.can_write(user, key_id, now) is None && text@
                    == Denial::Unauthorized.message(),
            },
    {
        match self.ensure_user_can_read(user, key_id, now) {
            Ok(grant) => {
                if grant.rights.can_write() {
                    Ok(grant)
                } else {
                    Err(refusal(Denial::Unauthorized))
                }
            },
            Err(text) => Err(text),
        }
    }

    /// The rights that `user` has on `key_id` at `now`, for a caller who may
    /// read the key: the grant under which the user may read, if any.
    pub fn get_user_rights(&self, caller: Principal, key_id: KeyId, user: Principal, now: u64) -> (rights:
        Result<Option<AccessRights>, String>)
        ensures
            match rights {
                Ok(grant) => self@.can_read(caller, key_id, now) is Some && grant
                    == self@.can_read(user, key_id, now),
                Err(text) => self@.can_read(caller, key_id, now) is None && text@
                    == Denial::Unauthorized.message(),
            },
    {
        match self.ensure_user_can_read(caller, key_id, now) {
            Ok(_) => {},
            Err(text) => {
                return Err(text);
            },
        }
        match self.ensure_user_can_read(user, key_id, now) {
            Ok(grant) => Ok(Some(grant)),
            Err(_) => Ok(None),
        }
    }

    /// Records the entry that `audit_fn` makes in the log of `key_id`. Where
    /// auditing is off, `audit_fn` is not called and nothing changes.
    pub fn add_audit_log<F: FnOnce() -> AuditEntry>(&mut self, key_id: KeyId, audit_fn: F)
        requires
            audit_fn.requires(()),
        ensures
            old(self)@.audit_logs is None ==> final(self)@ == old(self)@,
            old(self)@.audit_logs is Some ==> exists|entry: AuditEntry|
                audit_fn.ensures((), entry) && final(self)@ == old(self)@.record(key_id, entry),
    {
        match self.audit_logs.take() {
            None => {
                assert(self@ == old(self)@);
            },
            Some(mut store) => {
                let entry = audit_fn();
                let key = key_id_bytes(&key_id);
                let ghost before = store_entries(store);
                let mut log: AuditLog = match store_get(&store, &key) {
                    Some(bytes) => match AuditLog::from_bytes(bytes.as_slice()) {
                        Some(log) => log,
                        None => AuditLog::default(),
                    },
                    None => AuditLog::default(),
                };
                assert(log@ == old(self)@.log_of(key_id));
                log.0.push(entry);
                let bytes = log.to_bytes();
                let _ = store_insert(&mut store, key, bytes);
                proof {
                    lemma_log_decoding_of_encoding(log@);
                    lemma_logs_insert(before, key_id, bytes@);
                }
                self.audit_logs = Some(store);
                assert(self@ == old(self)@.record(key_id, entry));
            },
        }
    }

    /// Grants `user` the rights `access_rights` on `key_id`, or changes what
    /// the user has. The caller must manage the key; an owner cannot change
    /// the owner's own rights; the window of the grant must not end before it
    /// starts. Returns the grant that the user had in the table.
    pub fn set_user_rights(
        &mut self,
        caller: Principal,
        key_id: KeyId,
        user: Principal,
        access_rights: AccessRights,
        now: u64,
    ) -> (previous: Result<Option<AccessRights>, String>)
        ensures
            match previous {
                Ok(grant) => {
                    &&& old(self)@.set_user_rights_denial(caller, key_id, user, access_rights, now)
                        is None
                    &&& grant == old(self)@.stored_grant(user, key_id)
                    &&& final(self)@ == old(self)@.set_user_rights(
                        caller,
                        key_id,
                        user,
                        access_rights,
                        now,
                    )
                },
                Err(text) => {
                    &&& old(self)@.set_user_rights_denial(caller, key_id, user, access_rights, now)
                        matches Some(denial)
                    &&& text@ == denial.message()
                    &&& final(self)@ == old(self)@
                },
            },
    {
        match self.ensure_user_can_manage(caller, key_id, now) {
            Ok(_) => {},
            Err(text) => {
                return Err(text);
            },
        }
        if caller == key_id.0 && caller == user {
            return Err(refusal(Denial::OwnerRightsFixed));
        }
        if !access_rights.has_valid_window() {
            return Err(refusal(Denial::WindowInvalid));
        }
        let audit_fn = move || -> (entry: AuditEntry)
            ensures
                entry == AuditEntry::spec_share(now, caller, user, access_rights),
            { AuditEntry::share(now, caller, user, access_rights) };
        self.add_audit_log(key_id, audit_fn);
        let ghost recorded = self@;
        let ghost sharings = store_entries(self.shared_keys);
        let ghost grants = store_entries(self.access_control);
        assert(recorded == old(self)@.record(
            key_id,
            AuditEntry::spec_share(now, caller, user, access_rights),
        ));
        let _ = store_insert(&mut self.shared_keys, sharing_key_bytes(&key_id, &user), Vec::new());
        let bytes = access_rights.to_bytes();
        let replaced = store_insert(
            &mut self.access_control,
            access_key_bytes(&user, &key_id),
            bytes,
        );
        proof {
            lemma_sharings_insert(sharings, key_id, user, Seq::<u8>::empty());
            lemma_grants_insert(grants, user, key_id, access_rights.encoding());
            access_rights.lemma_decoding_of_encoding();
        }
        let previous = match replaced {
            Some(old_bytes) => AccessRights::from_bytes(old_bytes.as_slice()),
            None => None,
        };
        Ok(previous)
    }

    /// Takes from `user` what the user was granted on `key_id`. The caller
    /// must manage the key; an owner cannot remove the owner. Returns the
    /// grant that the user had in the table.
    pub fn remove_user(&mut self, caller: Principal, key_id: KeyId, user: Principal, now: u64) -> (previous:
        Result<Option<AccessRights>, String>)
        ensures
            match previous {
                Ok(grant) => {
                    &&& old(self)@.remove_user_denial(caller, key_id, user, now) is None
                    &&& grant == old(self)@.stored_grant(user, key_id)
                    &&& final(self)@ == old(self)@.remove_user(caller, key_id, user, now)
                },
                Err(text) => {
                    &&& old(self)@.remove_user_denial(caller, key_id, user, now) matches Some(
                        denial,
                    )
                    &&& text@ == denial.message()
                    &&& final(self)@ == old(self)@
                },
            },
    {
        match self.ensure_user_can_manage(caller, key_id, now) {
            Ok(_) => {},
            Err(text) => {
                return Err(text);
            },
        }
        if caller == user && caller == key_id.0 {
            return Err(refusal(Denial::OwnerNotRemovable));
        }
        if user == key_id.0 {
            let audit_fn = move || -> (entry: AuditEntry)
                ensures
                    entry == AuditEntry::spec_deleted(now, caller),
                { AuditEntry::deleted(now, caller) };
            self.add_audit_log(key_id, audit_fn);
        } else {
            let audit_fn = move || -> (entry: AuditEntry)
                ensures
                    entry == AuditEntry::spec_unshare(now, caller, user),
                { AuditEntry::unshare(now, caller, user) };
            self.add_audit_log(key_id, audit_fn);
        }
        let ghost sharings = store_entries(self.shared_keys);
        let ghost grants = store_entries(self.access_control);
        let _ = store_remove(&mut self.shared_keys, &sharing_key_bytes(&key_id, &user));
        let removed = store_remove(&mut self.access_control, &access_key_bytes(&user, &key_id));
        proof {
            lemma_sharings_remove(sharings, key_id, user);
            lemma_grants_remove(grants, user, key_id);
        }
        let previous = match removed {
            Some(old_bytes) => AccessRights::from_bytes(old_bytes.as_slice()),
            None => None,
        };
        Ok(previous)
    }

    /// The regions that a key manager lives in: those of the domain
    /// separator, of the grants and of the sharings, and that of the audit
    /// log where there is one.
    pub open spec fn regions(
        memory_domain_separator: u8,
        memory_access_control: u8,
        memory_shared_keys: u8,
        memory_audit_log: Option<u8>,
    ) -> Seq<u8> {
        match memory_audit_log {
            Some(memory) => seq![
                memory_domain_separator,
                memory_access_control,
                memory_shared_keys,
                memory,
            ],
            None => seq![memory_domain_separator, memory_access_control, memory_shared_keys],
        }
    }

    /// The list of the regions that a key manager lives in.
    fn region_list(
        memory_domain_separator: u8,
        memory_access_control: u8,
        memory_shared_keys: u8,
        memory_audit_log: Option<u8>,
    ) -> (ids: Vec<u8>)
        ensures
            ids@ == KeyManager::regions(
                memory_domain_separator,
                memory_access_control,
                memory_shared_keys,
                memory_audit_log,
            ),
    {
        let mut ids: Vec<u8> = Vec::new();
        ids.push(memory_domain_separator);
        ids.push(memory_access_control);
        ids.push(memory_shared_keys);
        if let Some(memory) = memory_audit_log {
            ids.push(memory);
        }
        proof {
            assert(ids@ =~= KeyManager::regions(
                memory_domain_separator,
                memory_access_control,
                memory_shared_keys,
                memory_audit_log,
            ));
        }
        ids
    }

    /// Opens the key manager in the given regions of the pool, which must be
    /// free and distinct: the domain separator, the grants, the sharings and
    /// the audit log each live in the region named for them. What the regions
    /// hold is loaded, and the domain separator is written where its region
    /// holds none yet. Auditing is on where a region for the audit log is
    /// given.
    ///
    /// Fails with `AlreadyInitialized`, and leaves the pool as it was, where
    /// a region is in use already or named twice; so a second call for the
    /// same regions fails.
    pub fn init(
        pool: &mut MemoryPool,
        domain_separator: &str,
        memory_domain_separator: u8,
        memory_access_control: u8,
        memory_shared_keys: u8,
        memory_audit_log: Option<u8>,
    ) -> (manager: Result<KeyManager, MemoryInitializationError>)
        ensures
            final(pool).manager() == old(pool).manager(),
            match manager {
                Ok(m) => {
                    &&& old(pool).all_free(
                        KeyManager::regions(
                            memory_domain_separator,
                            memory_access_control,
                            memory_shared_keys,
                            memory_audit_log,
                        ),
                    )
                    &&& forall|id: u8|
                        final(pool).is_claimed(id) <==> (old(pool).is_claimed(id)
                            || KeyManager::regions(
                            memory_domain_separator,
                            memory_access_control,
                            memory_shared_keys,
                            memory_audit_log,
                        ).contains(id))
                    &&& m@.audit_logs is Some <==> memory_audit_log is Some
                    &&& m@.regions == KeyManager::regions(
                        memory_domain_separator,
                        memory_access_control,
                        memory_shared_keys,
                        memory_audit_log,
                    )
                },
                Err(e) => {
                    &&& *final(pool) == *old(pool)
                    &&& e == MemoryInitializationError::AlreadyInitialized <==> !old(pool).all_free(
                        KeyManager::regions(
                            memory_domain_separator,
                            memory_access_control,
                            memory_shared_keys,
                            memory_audit_log,
                        ),
                    )
                },
            },
    {
        let ids = KeyManager::region_list(
            memory_domain_separator,
            memory_access_control,
            memory_shared_keys,
            memory_audit_log,
        );
        if !pool.can_claim_all(&ids) {
            return Err(MemoryInitializationError::AlreadyInitialized);
        }
        assert(ids@[0] == memory_domain_separator);
        let opened = cell_open(
            pool.regions(),
            memory_domain_separator,
            domain_separator.to_owned(),
        );
        KeyManager::init_opened(
            pool,
            opened,
            memory_domain_separator,
            memory_access_control,
            memory_shared_keys,
            memory_audit_log,
        )
    }

    /// The second half of `init`, for the regions found free: with the cell
    /// of the domain separator open, takes the regions into use and opens the
    /// tables; with the cell refused, fails with `DomainSeparatorUnreadable`
    /// and leaves the pool as it was.
    pub fn init_opened(
        pool: &mut MemoryPool,
        opened: Result<TextCell, InitError>,
        memory_domain_separator: u8,
        memory_access_control: u8,
        memory_shared_keys: u8,
        memory_audit_log: Option<u8>,
    ) -> (manager: Result<KeyManager, MemoryInitializationError>)
        requires
            old(pool).all_free(
                KeyManager::regions(
                    memory_domain_separator,
                    memory_access_control,
                    memory_shared_keys,
                    memory_audit_log,
                ),
            ),
        ensures
            final(pool).manager() == old(pool).manager(),
            match manager {
                Ok(m) => {
                    &&& opened matches Ok(cell)
                    &&& m@.domain_separator == cell_text(cell)
                    &&& forall|id: u8|
                        final(pool).is_claimed(id) <==> (old(pool).is_claimed(id)
                            || KeyManager::regions(
                            memory_domain_separator,
                            memory_access_control,
                            memory_shared_keys,
                            memory_audit_log,
                        ).contains(id))
                    &&& m@.audit_logs is Some <==> memory_audit_log is Some
                    &&& m@.regions == KeyManager::regions(
                        cell_region(cell),
                        memory_access_control,
                        memory_shared_keys,
                        memory_audit_log,
                    )
                },
                Err(e) => {
                    &&& opened is Err
                    &&& e == MemoryInitializationError::DomainSeparatorUnreadable
                    &&& *final(pool) == *old(pool)
                },
            },
    {
        let cell = match opened {
            Ok(cell) => cell,
            Err(_) => {
                return Err(MemoryInitializationError::DomainSeparatorUnreadable);
            },
        };
        let ids = KeyManager::region_list(
            memory_domain_separator,
            memory_access_control,
            memory_shared_keys,
            memory_audit_log,
        );
        let free = pool.can_claim_all(&ids);
        assert(free);
        assert(ids@[1] == memory_access_control);
        assert(ids@[2] == memory_shared_keys);
        let access_control = store_open(pool.regions(), memory_access_control);
        let shared_keys = store_open(pool.regions(), memory_shared_keys);
        let audit_logs = match memory_audit_log {
            Some(memory) => {
                assert(ids@[3] == memory);
                Some(store_open(pool.regions(), memory))
            },
            None => None,
        };
        let taken = pool.claim_all(&ids);
        assert(taken is Ok);
        Ok(KeyManager { domain_separator: cell, access_control, shared_keys, audit_logs })
    }

    /// The domain separator.
    pub fn domain_separator(&self) -> (text: String)
        ensures
            text@ == self@.domain_separator,
    {
        cell_get(&self.domain_separator)
    }

    /// Is auditing on?
    pub fn is_auditing(&self) -> (on: bool)
        ensures
            on == self@.audit_logs is Some,
    {
        self.audit_logs.is_some()
    }

    /// The audit log of `key_id`, oldest entry first: empty where nothing
    /// was recorded, or auditing is off.
    pub fn get_audit_log(&self, key_id: KeyId) -> (log: AuditLog)
        ensures
            log@ == self@.log_of(key_id),
    {
        match &self.audit_logs {
            None => AuditLog::default(),
            Some(store) => {
                let key = key_id_bytes(&key_id);
                match store_get(store, &key) {
                    Some(bytes) => match AuditLog::from_bytes(bytes.as_slice()) {
                        Some(log) => log,
                        None => AuditLog::default(),
                    },
                    None => AuditLog::default(),
                }
            },
        }
    }

    /// The keys that are shared with `caller`: those on which the caller has
    /// a grant in the table, whatever its window. By rising owner and name.
    #[must_use]
    pub fn get_accessible_shared_key_ids(&self, caller: Principal) -> (ids: Vec<KeyId>)
        ensures
            forall|key_id: KeyId|
                ids@.contains(key_id) <==> self@.access_control.contains_key((caller, key_id)),
            key_ids_rising(ids@),
    {
        let prefix = principal_bytes(&caller);
        let found = scan_fixed(&self.access_control, &prefix, KEY_ID_LENGTH, true);
        let mut ids: Vec<KeyId> = Vec::new();
        let ghost mut picks: Seq<int> = Seq::empty();
        let mut at: usize = 0;
        proof {
            lemma_picked_none(found@, holds_grant());
        }
        while at < found.len()
            invariant
                at <= found.len(),
                forall|i: int| 0 <= i < found.len() ==> (#[trigger] key_at(found@, i)).len() == 62,
                is_picked(found@, at as int, holds_grant(), picks),
                ids.len() == picks.len(),
                forall|a: int|
                    0 <= a < ids.len() ==> key_id_encoding(#[trigger] ids@[a]) == key_at(
                        found@,
                        picks[a],
                    ),
            decreases found.len() - at,
        {
            let ghost rest = key_at(found@, at as int);
            if AccessRights::from_bytes(found[at].1.as_slice()).is_some() {
                let key_id = decode_key_id(found[at].0.as_slice(), 0);
                proof {
                    assert(rest.subrange(0, KEY_ID_LENGTH as int) =~= rest);
                    lemma_picked_push(found@, at as int, holds_grant(), picks);
                    picks = picks.push(at as int);
                }
                ids.push(key_id);
            } else {
                proof {
                    lemma_picked_skip(found@, at as int, holds_grant(), picks);
                }
            }
            at += 1;
        }
        proof {
            lemma_shared_key_ids(store_entries(self.access_control), caller, found@, picks, ids@);
        }
        ids
    }

    /// Is `key_id` shared with anyone?
    pub fn has_sharings(&self, key_id: &KeyId) -> (shared: bool)
        ensures
            shared == self@.is_shared(*key_id),
    {
        let prefix = key_id_bytes(key_id);
        let found = scan_fixed(&self.shared_keys, &prefix, ENCODED_LENGTH, false);
        let ghost entries = shown(store_entries(self.shared_keys), false);
        if found.len() > 0 {
            assert(key_at(found@, 0).len() == ENCODED_LENGTH);
            let user = Principal::decode(found[0].0.as_slice(), 0);
            proof {
                let rest = key_at(found@, 0);
                assert(rest.subrange(0, ENCODED_LENGTH as int) =~= rest);
                assert(prefix@ + rest =~= sharing_key(*key_id, user));
                assert(self@.shared_keys.contains((*key_id, user)));
            }
            true
        } else {
            proof {
                assert forall|user: Principal| !self@.shared_keys.contains((*key_id, user)) by {
                    user.lemma_encoding_len();
                    if entries.contains_key(sharing_key(*key_id, user)) {
                        assert(prefix@ + user.encoding() =~= sharing_key(*key_id, user));
                        assert(scan_has(found@, user.encoding()));
                    }
                }
            }
            false
        }
    }

    /// The users with whom `key_id` is shared, each with the grant that the
    /// table holds for the user, whatever its window; for a caller who may
    /// read the key at `now`. By rising user.
    pub fn get_shared_user_access_for_key(&self, caller: Principal, key_id: KeyId, now: u64) -> (users:
        Result<Vec<(Principal, AccessRights)>, String>)
        ensures
            match users {
                Ok(list) => {
                    &&& self@.can_read(caller, key_id, now) is Some
                    &&& forall|user: Principal, grant: AccessRights|
                        list@.contains((user, grant)) <==> self@.shared_keys.contains(
                            (key_id, user),
                        ) && self@.stored_grant(user, key_id) == Some(grant)
                    &&& users_rising(list@)
                },
                Err(text) => self@.can_read(caller, key_id, now) is None && text@
                    == Denial::Unauthorized.message(),
            },
    {
        match self.ensure_user_can_read(caller, key_id, now) {
            Ok(_) => {},
            Err(text) => {
                return Err(text);
            },
        }
        let prefix = key_id_bytes(&key_id);
        let found = scan_fixed(&self.shared_keys, &prefix, ENCODED_LENGTH, false);
        let mut list: Vec<(Principal, AccessRights)> = Vec::new();
        let ghost mut picks: Seq<int> = Seq::empty();
        let ghost chosen = has_grant(self@, key_id);
        let mut at: usize = 0;
        proof {
            lemma_picked_none(found@, chosen);
        }
        while at < found.len()
            invariant
                at <= found.len(),
                chosen == has_grant(self@, key_id),
                forall|i: int| 0 <= i < found.len() ==> (#[trigger] key_at(found@, i)).len() == 30,
                is_picked(found@, at as int, chosen, picks),
                list.len() == picks.len(),
                forall|a: int|
                    0 <= a < list.len() ==> (#[trigger] list@[a]).0.encoding() == key_at(
                        found@,
                        picks[a],
                    ) && self@.stored_grant(list@[a].0, key_id) == Some(list@[a].1),
            decreases found.len() - at,
        {
            let ghost rest = key_at(found@, at as int);
            let user = Principal::decode(found[at].0.as_slice(), 0);
            proof {
                assert(rest.subrange(0, ENCODED_LENGTH as int) =~= rest);
            }
            match self.read_grant(&user, &key_id) {
                Some(grant) => {
                    proof {
                        lemma_picked_push(found@, at as int, chosen, picks);
                        picks = picks.push(at as int);
                    }
                    list.push((user, grant));
                },
                None => {
                    proof {
                        assert forall|other: Principal| other.encoding() == rest implies other
                            == user by {
                            other.lemma_encoding_injective(user);
                        }
                        lemma_picked_skip(found@, at as int, chosen, picks);
                    }
                },
            }
            at += 1;
        }
        proof {
            assert(self@.shared_keys =~= sharings_of(shown(store_entries(self.shared_keys), false)));
            lemma_shared_users(
                shown(store_entries(self.shared_keys), false),
                self@,
                key_id,
                found@,
                picks,
                list@,
            );
        }
        Ok(list)
    }

    /// The request that asks the oracle for the verification key: the
    /// domain separator is the whole derivation path.
    pub fn get_vetkey_verification_key(&self) -> (request: VetKDPublicKeyRequest)
        ensures
            request.canister_id is None,
            request.derivation_path@.len() == 1,
            request.derivation_path@[0]@ == encode_utf8(self@.domain_separator),
            is_test_key(request.key_id),
    {
        let text = cell_get(&self.domain_separator);
        let mut derivation_path: Vec<Vec<u8>> = Vec::new();
        derivation_path.push(slice_to_vec(text.as_str().as_bytes()));
        VetKDPublicKeyRequest { canister_id: None, derivation_path, key_id: bls12_381_test_key_1() }
    }

    /// The request that asks the oracle for the key of `key_id`, encrypted
    /// under `transport_key`; for a caller who may read the key. The access is
    /// recorded, and before it the creation, on the owner's first touch of
    /// the key: it is shared with no one and nothing was recorded for it.
    ///
    /// The key is derived for the owner's bytes followed by the name.
    pub fn get_encrypted_vetkey(
        &mut self,
        caller: Principal,
        key_id: KeyId,
        transport_key: TransportKey,
        now: u64,
    ) -> (request: Result<VetKDEncryptedKeyRequest, String>)
        ensures
            match request {
                Ok(r) => {
                    &&& old(self)@.can_read(caller, key_id, now) matches Some(grant)
                    &&& final(self)@ == old(self)@.key_handed_out(caller, key_id, grant, now)
                    &&& r.derivation_id@ == key_id.0.as_bytes() + key_id.1@
                    &&& r.public_key_derivation_path@.len() == 1
                    &&& r.public_key_derivation_path@[0]@ == encode_utf8(
                        old(self)@.domain_separator,
                    )
                    &&& is_test_key(r.key_id)
                    &&& r.encryption_public_key@ == transport_key@
                },
                Err(text) => {
                    &&& old(self)@.can_read(caller, key_id, now) is None
                    &&& text@ == Denial::Unauthorized.message()
                    &&& final(self)@ == old(self)@
                },
            },
    {
        let grant = match self.ensure_user_can_read(caller, key_id, now) {
            Ok(grant) => grant,
            Err(text) => {
                return Err(text);
            },
        };
        if caller == key_id.0 && !self.has_sharings(&key_id) && self.get_audit_log(key_id).0.len()
            == 0 {
            let audit_fn = move || -> (entry: AuditEntry)
                ensures
                    entry == AuditEntry::spec_created(now, caller),
                { AuditEntry::created(now, caller) };
            self.add_audit_log(key_id, audit_fn);
        }
        let audit_fn = move || -> (entry: AuditEntry)
            ensures
                entry == AuditEntry::spec_access_vet_key(now, caller, grant),
            { AuditEntry::access_vet_key(now, caller, grant) };
        self.add_audit_log(key_id, audit_fn);
        let mut derivation_id: Vec<u8> = Vec::new();
        append(&mut derivation_id, key_id.0.as_slice());
        append(&mut derivation_id, array_as_slice(&key_id.1));
        let text = cell_get(&self.domain_separator);
        let mut public_key_derivation_path: Vec<Vec<u8>> = Vec::new();
        public_key_derivation_path.push(slice_to_vec(text.as_str().as_bytes()));
        proof {
            assert(derivation_id@ =~= key_id.0.as_bytes() + key_id.1@);
        }
        Ok(
            VetKDEncryptedKeyRequest {
                public_key_derivation_path,
                derivation_id,
                key_id: bls12_381_test_key_1(),
                encryption_public_key: transport_key.into_vec(),
            },
        )
    }
}

/// Accepts the entries whose value is the stored form of a grant.
pub open spec fn holds_grant() -> spec_fn(Seq<u8>, Seq<u8>) -> bool {
    |rest: Seq<u8>, value: Seq<u8>| AccessRights::decoding(value) is Some
}

proof fn lemma_shared_key_ids(
    entries: Map<Seq<u8>, Seq<u8>>,
    caller: Principal,
    found: Seq<(Vec<u8>, Vec<u8>)>,
    picks: Seq<int>,
    ids: Seq<KeyId>,
)
    requires
        is_fixed_scan(entries, caller.encoding(), KEY_ID_LENGTH as nat, found),
        is_picked(found, found.len() as int, holds_grant(), picks),
        ids.len() == picks.len(),
        forall|a: int|
            0 <= a < ids.len() ==> key_id_encoding(#[trigger] ids[a]) == key_at(found, picks[a]),
    ensures
        forall|key_id: KeyId|
            ids.contains(key_id) <==> grants_of(entries).contains_key((caller, key_id)),
        key_ids_rising(ids),
{
    let prefix = caller.encoding();
    lemma_picked_all(entries, prefix, KEY_ID_LENGTH as nat, found, holds_grant(), picks);
    assert forall|key_id: KeyId| ids.contains(key_id) implies grants_of(entries).contains_key(
        (caller, key_id),
    ) by {
        let a = choose|a: int| 0 <= a < ids.len() && ids[a] == key_id;
        assert(key_id_encoding(ids[a]) == key_at(found, picks[a]));
        assert(prefix + key_at(found, picks[a]) =~= access_key(caller, key_id));
    }
    assert forall|key_id: KeyId|
        grants_of(entries).contains_key((caller, key_id)) implies ids.contains(key_id) by {
        lemma_key_lengths(caller, key_id, key_id.1);
        let rest = key_id_encoding(key_id);
        assert(prefix + rest =~= access_key(caller, key_id));
        assert(entries.contains_key(prefix + rest));
        let a = choose|a: int| 0 <= a < picks.len() && key_at(found, #[trigger] picks[a]) == rest;
        lemma_key_id_encoding_injective(ids[a], key_id);
    }
    assert forall|a: int, b: int| 0 <= a < b < ids.len() implies lex_lt(
        key_id_encoding(#[trigger] ids[a]),
        key_id_encoding(#[trigger] ids[b]),
    ) by {
        assert(lex_lt(key_at(found, picks[a]), key_at(found, picks[b])));
    }
}

/// Accepts the entries whose remainder is the stored form of a user for whom
/// the table holds a grant on `key_id`.
pub open spec fn has_grant(state: KeyManagerState, key_id: KeyId) -> spec_fn(
    Seq<u8>,
    Seq<u8>,
) -> bool {
    |rest: Seq<u8>, value: Seq<u8>|
        exists|user: Principal|
            user.encoding() == rest && state.stored_grant(user, key_id) is Some
}

/// The users rise strictly in the order in which they are stored: by length,
/// then by their bytes. None occurs twice.
pub open spec fn users_rising(list: Seq<(Principal, AccessRights)>) -> bool {
    forall|i: int, j: int|
        0 <= i < j < list.len() ==> lex_lt(
            (#[trigger] list[i]).0.encoding(),
            (#[trigger] list[j]).0.encoding(),
        )
}

proof fn lemma_shared_users(
    entries: Map<Seq<u8>, Seq<u8>>,
    state: KeyManagerState,
    key_id: KeyId,
    found: Seq<(Vec<u8>, Vec<u8>)>,
    picks: Seq<int>,
    list: Seq<(Principal, AccessRights)>,
)
    requires
        state.shared_keys == sharings_of(entries),
        is_fixed_scan(entries, key_id_encoding(key_id), ENCODED_LENGTH as nat, found),
        is_picked(found, found.len() as int, has_grant(state, key_id), picks),
        list.len() == picks.len(),
        forall|a: int|
            0 <= a < list.len() ==> (#[trigger] list[a]).0.encoding() == key_at(found, picks[a])
                && state.stored_grant(list[a].0, key_id) == Some(list[a].1),
    ensures
        forall|user: Principal, grant: AccessRights|
            list.contains((user, grant)) <==> state.shared_keys.contains((key_id, user))
                && state.stored_grant(user, key_id) == Some(grant),
        users_rising(list),
{
    let prefix = key_id_encoding(key_id);
    let chosen = has_grant(state, key_id);
    lemma_picked_all(entries, prefix, ENCODED_LENGTH as nat, found, chosen, picks);
    assert forall|user: Principal, grant: AccessRights|
        list.contains((user, grant)) implies state.shared_keys.contains((key_id, user))
        && state.stored_grant(user, key_id) == Some(grant) by {
        let a = choose|a: int| 0 <= a < list.len() && list[a] == (user, grant);
        assert(list[a].0.encoding() == key_at(found, picks[a]));
        assert(prefix + key_at(found, picks[a]) =~= sharing_key(key_id, user));
    }
    assert forall|user: Principal, grant: AccessRights|
        state.shared_keys.contains((key_id, user)) && state.stored_grant(user, key_id) == Some(
            grant,
        ) implies list.contains((user, grant)) by {
        user.lemma_encoding_len();
        let rest = user.encoding();
        assert(prefix + rest =~= sharing_key(key_id, user));
        assert(entries.contains_key(prefix + rest));
        assert(chosen(rest, entries[prefix + rest]));
        let a = choose|a: int| 0 <= a < picks.len() && key_at(found, #[trigger] picks[a]) == rest;
        list[a].0.lemma_encoding_injective(user);
        assert(list[a] == (user, grant));
    }
    assert forall|a: int, b: int| 0 <= a < b < list.len() implies lex_lt(
        (#[trigger] list[a]).0.encoding(),
        (#[trigger] list[b]).0.encoding(),
    ) by {
        assert(lex_lt(key_at(found, picks[a]), key_at(found, picks[b])));
    }
}

/// The key is the test key on the curve BLS12-381.
pub open spec fn is_test_key(key: VetKDKeyId) -> bool {
    key.curve == VetKDCurve::Bls12_381 && key.name@ == "insecure_test_key_1"@
}

/// The master key that requests name: the test key on the curve BLS12-381.
pub fn bls12_381_test_key_1() -> (key: VetKDKeyId)
    ensures
        is_test_key(key),
{
    VetKDKeyId { curve: VetKDCurve::Bls12_381, name: "insecure_test_key_1".to_owned() }
}

/// The identity of the oracle: the management canister.
pub fn vetkd_system_api_canister_id() -> (id: Principal)
    ensures
        id.as_bytes() == Seq::<u8>::empty(),
        id.is_canonical(),
{
    Principal::management_canister()
}

} // verus!
