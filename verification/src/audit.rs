//! The audit log: what is recorded of each event, and how it is stored.

use crate::access_rights::AccessRights;
use crate::principal::Principal;
use vstd::bytes::spec_u64_to_le_bytes;
use vstd::prelude::*;

verus! {

/// The kinds of event that are recorded.
#[derive(Clone, Copy, Debug, PartialEq, Eq, Structural, PartialOrd, Ord, Hash)]
pub enum AuditEntryType {
    /// A new resource was created.
    Created,
    /// An existing resource was updated.
    Updated,
    /// A resource was deleted.
    Deleted,
    /// Access to a resource was shared with another user.
    Share,
    /// Access to a resource was revoked from a user.
    Unshare,
    /// A derived key was handed to the owner or to a user with rights.
    AccessVetKey,
    /// A shared derived key was handed out.
    AccessSharedVetKey,
    /// A resource was deleted, and kept as a tombstone.
    SoftDeleted,
    /// A tombstone was restored.
    Restored,
}

impl AuditEntryType {
    /// The number under which the kind is stored.
    pub open spec fn code(self) -> u8 {
        match self {
            AuditEntryType::Created => 0,
            AuditEntryType::Updated => 1,
            AuditEntryType::Deleted => 2,
            AuditEntryType::Share => 3,
            AuditEntryType::Unshare => 4,
            AuditEntryType::AccessVetKey => 5,
            AuditEntryType::AccessSharedVetKey => 6,
            AuditEntryType::SoftDeleted => 7,
            AuditEntryType::Restored => 8,
        }
    }

    /// The number under which the kind is stored.
    pub fn to_repr(self) -> (code: u8)
        ensures
            code == self.code(),
    {
        match self {
            AuditEntryType::Created => 0,
            AuditEntryType::Updated => 1,
            AuditEntryType::Deleted => 2,
            AuditEntryType::Share => 3,
            AuditEntryType::Unshare => 4,
            AuditEntryType::AccessVetKey => 5,
            AuditEntryType::AccessSharedVetKey => 6,
            AuditEntryType::SoftDeleted => 7,
            AuditEntryType::Restored => 8,
        }
    }

    /// The kind stored under `code`, if there is one.
    pub fn from_repr(code: u8) -> (kind: Option<AuditEntryType>)
        ensures
            match kind {
                Some(k) => k.code() == code,
                None => code > 8,
            },
    {
        match code {
            0 => Some(AuditEntryType::Created),
            1 => Some(AuditEntryType::Updated),
            2 => Some(AuditEntryType::Deleted),
            3 => Some(AuditEntryType::Share),
            4 => Some(AuditEntryType::Unshare),
            5 => Some(AuditEntryType::AccessVetKey),
            6 => Some(AuditEntryType::AccessSharedVetKey),
            7 => Some(AuditEntryType::SoftDeleted),
            8 => Some(AuditEntryType::Restored),
            _ => None,
        }
    }
}

/// One recorded event.
#[derive(Clone, Copy, Debug, PartialEq, Eq, PartialOrd, Ord)]
pub struct AuditEntry {
    pub audit_type: AuditEntryType,
    pub timestamp: u64,
    pub caller: Principal,
    pub user: Option<Principal>,
    pub access_rights: Option<AccessRights>,
}

/// The audit log of one key: its entries, oldest first.
#[derive(Clone, Debug, PartialEq, Eq)]
pub struct AuditLog(pub Vec<AuditEntry>);

impl View for AuditLog {
    type V = Seq<AuditEntry>;

    open spec fn view(&self) -> Seq<AuditEntry> {
        self.0@
    }
}

impl Default for AuditLog {
    fn default() -> (log: Self)
        ensures
            log@ == Seq::<AuditEntry>::empty(),
    {
        AuditLog(Vec::new())
    }
}

/// The number of bytes under which an entry is stored.
pub const AUDIT_ENTRY_SIZE: usize = 90;

/// `n` zero bytes.
pub open spec fn zeros(n: nat) -> Seq<u8> {
    Seq::new(n, |i: int| 0u8)
}

/// The stored form of a bound that may be missing: a mark, then the word.
pub open spec fn bound_encoding(bound: Option<u64>) -> Seq<u8> {
    match bound {
        Some(t) => seq![1u8] + spec_u64_to_le_bytes(t),
        None => seq![0u8] + zeros(8),
    }
}

/// The stored form of a grant inside an entry: the level and both bounds,
/// each with its mark, so that a bound at time 0 is kept.
pub open spec fn grant_encoding(grant: AccessRights) -> Seq<u8> {
    seq![grant.rights.code()] + bound_encoding(grant.start) + bound_encoding(grant.end)
}

/// The stored form of a grant that may be missing.
pub open spec fn optional_grant_encoding(grant: Option<AccessRights>) -> Seq<u8> {
    match grant {
        Some(g) => seq![1u8] + grant_encoding(g),
        None => seq![0u8] + zeros(19),
    }
}

/// The stored form of an identity that may be missing.
pub open spec fn optional_principal_encoding(user: Option<Principal>) -> Seq<u8> {
    match user {
        Some(u) => seq![1u8] + u.encoding(),
        None => seq![0u8] + zeros(30),
    }
}

impl AuditEntry {
    /// The stored form: the kind, the time, the caller, the user and the grant.
    pub open spec fn encoding(self) -> Seq<u8> {
        seq![self.audit_type.code()] + spec_u64_to_le_bytes(self.timestamp)
            + self.caller.encoding() + optional_principal_encoding(self.user)
            + optional_grant_encoding(self.access_rights)
    }

    /// The entry whose stored form is `bytes`, if there is one.
    pub open spec fn decoding(bytes: Seq<u8>) -> Option<AuditEntry> {
        if exists|e: AuditEntry| e.encoding() == bytes {
            Some(choose|e: AuditEntry| e.encoding() == bytes)
        } else {
            None
        }
    }

    pub open spec fn spec_new(
        audit_type: AuditEntryType,
        timestamp: u64,
        caller: Principal,
        user: Option<Principal>,
        access_rights: Option<AccessRights>,
    ) -> AuditEntry {
        AuditEntry { audit_type, timestamp, caller, user, access_rights }
    }

    pub open spec fn spec_created(timestamp: u64, caller: Principal) -> AuditEntry {
        AuditEntry::spec_new(AuditEntryType::Created, timestamp, caller, None, None)
    }

    pub open spec fn spec_updated(timestamp: u64, caller: Principal) -> AuditEntry {
        AuditEntry::spec_new(AuditEntryType::Updated, timestamp, caller, None, None)
    }

    pub open spec fn spec_deleted(timestamp: u64, caller: Principal) -> AuditEntry {
        AuditEntry::spec_new(AuditEntryType::Deleted, timestamp, caller, None, None)
    }

    pub open spec fn spec_share(
        timestamp: u64,
        caller: Principal,
        user: Principal,
        access_rights: AccessRights,
    ) -> AuditEntry {
        AuditEntry::spec_new(
            AuditEntryType::Share,
            timestamp,
            caller,
            Some(user),
            Some(access_rights),
        )
    }

    pub open spec fn spec_unshare(timestamp: u64, caller: Principal, user: Principal) -> AuditEntry {
        AuditEntry::spec_new(AuditEntryType::Unshare, timestamp, caller, Some(user), None)
    }

    pub open spec fn spec_access_vet_key(
        timestamp: u64,
        caller: Principal,
        access_rights: AccessRights,
    ) -> AuditEntry {
        AuditEntry::spec_new(
            AuditEntryType::AccessVetKey,
            timestamp,
            caller,
            None,
            Some(access_rights),
        )
    }

    pub open spec fn spec_access_shared_vet_key(
        timestamp: u64,
        caller: Principal,
        access_rights: AccessRights,
    ) -> AuditEntry {
        AuditEntry::spec_new(
            AuditEntryType::AccessSharedVetKey,
            timestamp,
            caller,
            None,
            Some(access_rights),
        )
    }

    pub open spec fn spec_soft_deleted(timestamp: u64, caller: Principal) -> AuditEntry {
        AuditEntry::spec_new(AuditEntryType::SoftDeleted, timestamp, caller, None, None)
    }

    pub open spec fn spec_restored(timestamp: u64, caller: Principal) -> AuditEntry {
        AuditEntry::spec_new(AuditEntryType::Restored, timestamp, caller, None, None)
    }

    #[must_use]
    pub fn new(
        audit_type: AuditEntryType,
        timestamp: u64,
        caller: Principal,
        user: Option<Principal>,
        access_rights: Option<AccessRights>,
    ) -> (entry: Self)
        ensures
            entry == AuditEntry::spec_new(audit_type, timestamp, caller, user, access_rights),
    {
        AuditEntry { audit_type, timestamp, caller, user, access_rights }
    }

    pub fn audit_type(&self) -> (audit_type: AuditEntryType)
        ensures
            audit_type == self.audit_type,
    {
        self.audit_type
    }

    pub fn timestamp(&self) -> (timestamp: u64)
        ensures
            timestamp == self.timestamp,
    {
        self.timestamp
    }

    pub fn caller(&self) -> (caller: Principal)
        ensures
            caller == self.caller,
    {
        self.caller
    }

    pub fn user(&self) -> (user: Option<Principal>)
        ensures
            user == self.user,
    {
        self.user
    }

    pub fn access_rights(&self) -> (access_rights: Option<AccessRights>)
        ensures
            access_rights == self.access_rights,
    {
        self.access_rights
    }

    /// A new resource was created.
    pub fn created(timestamp: u64, caller: Principal) -> (entry: Self)
        ensures
            entry == AuditEntry::spec_created(timestamp, caller),
    {
        AuditEntry::new(AuditEntryType::Created, timestamp, caller, None, None)
    }

    /// An existing resource was updated.
    pub fn updated(timestamp: u64, caller: Principal) -> (entry: Self)
        ensures
            entry == AuditEntry::spec_updated(timestamp, caller),
    {
        AuditEntry::new(AuditEntryType::Updated, timestamp, caller, None, None)
    }

    /// A resource was deleted.
    pub fn deleted(timestamp: u64, caller: Principal) -> (entry: Self)
        ensures
            entry == AuditEntry::spec_deleted(timestamp, caller),
    {
        AuditEntry::new(AuditEntryType::Deleted, timestamp, caller, None, None)
    }

    /// Access to a resource was shared with another user.
    pub fn share(
        timestamp: u64,
        caller: Principal,
        user: Principal,
        access_rights: AccessRights,
    ) -> (entry: Self)
        ensures
            entry == AuditEntry::spec_share(timestamp, caller, user, access_rights),
    {
        AuditEntry::new(
            AuditEntryType::Share,
            timestamp,
            caller,
            Some(user),
            Some(access_rights),
        )
    }

    /// Access to a resource was revoked from a user.
    pub fn unshare(timestamp: u64, caller: Principal, user: Principal) -> (entry: Self)
        ensures
            entry == AuditEntry::spec_unshare(timestamp, caller, user),
    {
        AuditEntry::new(AuditEntryType::Unshare, timestamp, caller, Some(user), None)
    }

    /// A derived key was handed to the owner or to a user with rights.
    pub fn access_vet_key(timestamp: u64, caller: Principal, access_rights: AccessRights) -> (entry:
        Self)
        ensures
            entry == AuditEntry::spec_access_vet_key(timestamp, caller, access_rights),
    {
        AuditEntry::new(
            AuditEntryType::AccessVetKey,
            timestamp,
            caller,
            None,
            Some(access_rights),
        )
    }

    /// A shared derived key was handed out.
    pub fn access_shared_vet_key(
        timestamp: u64,
        caller: Principal,
        access_rights: AccessRights,
    ) -> (entry: Self)
        ensures
            entry == AuditEntry::spec_access_shared_vet_key(timestamp, caller, access_rights),
    {
        AuditEntry::new(
            AuditEntryType::AccessSharedVetKey,
            timestamp,
            caller,
            None,
            Some(access_rights),
        )
    }

    /// A resource was deleted, and kept as a tombstone.
    pub fn soft_deleted(timestamp: u64, caller: Principal) -> (entry: Self)
        ensures
            entry == AuditEntry::spec_soft_deleted(timestamp, caller),
    {
        AuditEntry::new(AuditEntryType::SoftDeleted, timestamp, caller, None, None)
    }

    /// A tombstone was restored.
    pub fn restored(timestamp: u64, caller: Principal) -> (entry: Self)
        ensures
            entry == AuditEntry::spec_restored(timestamp, caller),
    {
        AuditEntry::new(AuditEntryType::Restored, timestamp, caller, None, None)
    }
}

} // verus!
