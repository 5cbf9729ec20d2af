use ic_vetkd_cdk::access_rights::{AccessRights, Rights};
use ic_vetkd_cdk::audit::{AuditEntry, AuditEntryType, AuditLog};
use ic_vetkd_cdk::principal::Principal;
use ic_vetkd_cdk::tombstone::TombstoneEntry;
use ic_vetkd_cdk::types::ByteBuf;

#[test]
fn access_rights_are_stored_in_seventeen_bytes() {
    let grant = AccessRights::new(Rights::ReadWrite, Some(1000), Some(1200));
    assert_eq!(
        grant.to_bytes(),
        vec![1, 0xE8, 0x03, 0, 0, 0, 0, 0, 0, 0xB0, 0x04, 0, 0, 0, 0, 0, 0]
    );
    assert_eq!(AccessRights::read_only().to_bytes(), vec![0u8; 17]);
    assert_eq!(
        AccessRights::new(Rights::ReadWriteManage, None, Some(u64::MAX)).to_bytes(),
        vec![2, 0, 0, 0, 0, 0, 0, 0, 0, 255, 255, 255, 255, 255, 255, 255, 255]
    );
}

#[test]
fn access_rights_read_back_as_they_were_stored() {
    for rights in [Rights::Read, Rights::ReadWrite, Rights::ReadWriteManage] {
        for (start, end) in [
            (None, None),
            (Some(1), None),
            (None, Some(1)),
            (Some(1000), Some(1200)),
            (Some(7), Some(7)),
            (Some(1), Some(u64::MAX)),
        ] {
            let grant = AccessRights::new(rights, start, end);
            assert_eq!(AccessRights::from_bytes(&grant.to_bytes()), Some(grant));
        }
    }
}

#[test]
fn access_rights_of_another_length_or_level_are_refused() {
    assert_eq!(AccessRights::from_bytes(&[]), None);
    assert_eq!(AccessRights::from_bytes(&[0u8; 16]), None);
    assert_eq!(AccessRights::from_bytes(&[0u8; 18]), None);
    let mut bytes = [0u8; 17];
    bytes[0] = 3;
    assert_eq!(AccessRights::from_bytes(&bytes), None);
    bytes[0] = 2;
    assert_eq!(AccessRights::from_bytes(&bytes), Some(AccessRights::read_write_manage()));
}

#[test]
fn a_stored_bound_of_zero_is_no_bound() {
    let grant = AccessRights { rights: Rights::Read, start: Some(0), end: None };
    assert_eq!(
        AccessRights::from_bytes(&grant.to_bytes()),
        Some(AccessRights::read_only())
    );
}

#[test]
fn access_rights_are_valid_and_live_as_their_window_says() {
    let grant = AccessRights::new(Rights::Read, Some(1000), Some(1200));
    assert!(grant.has_valid_window());
    assert!(!grant.live_at(999));
    assert!(grant.live_at(1000));
    assert!(grant.live_at(1199));
    assert!(!grant.live_at(1200));
    assert!(!(AccessRights { rights: Rights::Read, start: Some(2), end: Some(1) }).has_valid_window());
    assert!(AccessRights::new(Rights::Read, Some(2), Some(2)).has_valid_window());
    assert!(AccessRights::default().live_at(0));
    assert_eq!(AccessRights::default(), AccessRights::read_only());
    assert_eq!(grant.rights(), Rights::Read);
    assert_eq!(grant.start(), Some(1000));
    assert_eq!(grant.end(), Some(1200));
}

#[test]
fn the_grants_without_bounds_are_three() {
    assert_eq!(
        AccessRights::iter(),
        vec![
            AccessRights { rights: Rights::Read, start: None, end: None },
            AccessRights { rights: Rights::ReadWrite, start: None, end: None },
            AccessRights { rights: Rights::ReadWriteManage, start: None, end: None },
        ]
    );
    assert_eq!(Rights::from_repr(1), Some(Rights::ReadWrite));
    assert_eq!(Rights::from_repr(3), None);
    assert_eq!(Rights::ReadWriteManage.to_repr(), 2);
    assert!(!Rights::Read.can_write());
    assert!(Rights::ReadWrite.can_write());
}

#[test]
fn principals_keep_their_bytes() {
    let bytes = [9u8, 8, 7, 0, 0];
    let principal = Principal::from_slice(&bytes);
    assert_eq!(principal.as_slice(), &bytes);
    assert_eq!(Principal::anonymous().as_slice(), &[4u8]);
    assert_eq!(Principal::management_canister().as_slice(), &[] as &[u8]);
    assert_eq!(Principal::try_from_slice(&[1u8; 29]).unwrap().as_slice(), &[1u8; 29]);
    assert_eq!(Principal::try_from_slice(&[1u8; 30]), None);
    assert_ne!(Principal::from_slice(&[1]), Principal::from_slice(&[1, 0]));
    assert_eq!(Principal::from_slice(&[1, 2]), Principal::from_slice(&[1, 2]));
    assert_eq!(
        Principal::anonymous(),
        Principal::from_slice(candid::Principal::anonymous().as_slice())
    );
}

#[test]
fn principals_are_ordered_as_their_stored_form() {
    let mut principals = vec![
        Principal::from_slice(&[0, 0, 0]),
        Principal::from_slice(&[200]),
        Principal::from_slice(&[3, 1]),
        Principal::management_canister(),
        Principal::from_slice(&[3, 0]),
    ];
    principals.sort();
    let mut stored = Vec::new();
    for principal in &principals {
        let mut bytes = Vec::new();
        principal.encode(&mut bytes);
        assert_eq!(bytes.len(), 30);
        assert_eq!(Principal::decode(&bytes, 0), *principal);
        stored.push(bytes);
    }
    let mut sorted = stored.clone();
    sorted.sort();
    assert_eq!(stored, sorted);
    assert_eq!(principals[0], Principal::management_canister());
    assert_eq!(principals[1], Principal::from_slice(&[200]));
}

#[test]
fn byte_buffers_hold_the_bytes_they_are_made_from() {
    let buf = ByteBuf::from(vec![1, 2, 3]);
    assert_eq!(buf.as_ref(), &[1u8, 2, 3]);
    assert_eq!(buf.as_slice(), &[1u8, 2, 3]);
    assert_eq!(buf.len(), 3);
    assert_eq!(buf.duplicate(), buf);
    assert_eq!(Vec::<u8>::from(buf.clone()), vec![1, 2, 3]);
    assert_eq!(buf.into_vec(), vec![1, 2, 3]);
    assert_eq!(ByteBuf::new(), ByteBuf::default());
    assert_eq!(ByteBuf::new().len(), 0);
    assert_eq!(ByteBuf::from_vec(vec![5]), ByteBuf::from(vec![5]));
}

#[test]
fn audit_entries_are_stored_in_ninety_bytes_and_read_back() {
    let caller = Principal::from_slice(&[1, 2, 3]);
    let user = Principal::from_slice(&[4; 29]);
    let entries = vec![
        AuditEntry::created(0, caller),
        AuditEntry::updated(u64::MAX, caller),
        AuditEntry::deleted(3, caller),
        AuditEntry::share(4, caller, user, AccessRights::new(Rights::ReadWrite, Some(0), None)),
        AuditEntry::unshare(5, caller, user),
        AuditEntry::access_vet_key(6, caller, AccessRights::new(Rights::Read, None, Some(0))),
        AuditEntry::access_shared_vet_key(7, user, AccessRights::read_write_manage()),
        AuditEntry::soft_deleted(8, caller),
        AuditEntry::restored(9, caller),
    ];
    for entry in &entries {
        let bytes = entry.to_bytes();
        assert_eq!(bytes.len(), 90);
        assert_eq!(AuditEntry::decode(&bytes, 0), Some(*entry));
    }
    let log = AuditLog(entries.clone()).to_bytes();
    assert_eq!(log.len(), 9 * 90);
    assert_eq!(AuditLog::from_bytes(&log), Some(AuditLog(entries.clone())));
    assert_eq!(AuditLog::from_bytes(&[]), Some(AuditLog::default()));
    assert_eq!(AuditLog::from_bytes(&log[..100]), None);
    let mut broken = log.clone();
    broken[90] = 9;
    assert_eq!(AuditLog::from_bytes(&broken), None);
    assert_eq!(AuditEntry::from_bytes(&log[..90]), Some(entries[0]));
    assert_eq!(AuditEntry::from_bytes(&log[..89]), None);
    assert_eq!(entries[3].audit_type(), AuditEntryType::Share);
    assert_eq!(entries[3].timestamp(), 4);
    assert_eq!(entries[3].caller(), caller);
    assert_eq!(entries[3].user(), Some(user));
    assert_eq!(entries[5].user(), None);
    assert_eq!(
        entries[3].access_rights(),
        Some(AccessRights::new(Rights::ReadWrite, Some(0), None))
    );
    assert_eq!(
        AuditEntry::new(AuditEntryType::Unshare, 5, caller, Some(user), None),
        entries[4]
    );
}

#[test]
fn an_audit_entry_starts_with_its_kind_and_its_time() {
    let caller = Principal::from_slice(&[7]);
    let bytes = AuditEntry::soft_deleted(0x0102, caller).to_bytes();
    assert_eq!(bytes[0], 7);
    assert_eq!(bytes[1..9], [2, 1, 0, 0, 0, 0, 0, 0]);
    assert_eq!(bytes[9..12], [1, 7, 0]);
    assert_eq!(bytes[39], 0);
    assert_eq!(bytes[70], 0);
    assert_eq!(AuditEntryType::from_repr(8), Some(AuditEntryType::Restored));
    assert_eq!(AuditEntryType::from_repr(9), None);
    assert_eq!(AuditEntryType::AccessSharedVetKey.to_repr(), 6);
    let mut marked = bytes.clone();
    marked[39] = 2;
    assert_eq!(AuditEntry::decode(&marked, 0), None);
    let mut padded = bytes.clone();
    padded[45] = 1;
    assert_eq!(AuditEntry::decode(&padded, 0), None);
}

#[test]
fn tombstones_read_back_as_they_were_stored() {
    let entry = TombstoneEntry {
        value: ByteBuf::from(vec![1, 2, 3]),
        deletion_timestamp: 258,
        deleted_by: Principal::from_slice(&[9, 9]),
        marked_for_purge: true,
    };
    let bytes = entry.to_bytes();
    assert_eq!(bytes.len(), 42);
    assert_eq!(bytes[..8], [2, 1, 0, 0, 0, 0, 0, 0]);
    assert_eq!(bytes[8..11], [2, 9, 9]);
    assert_eq!(bytes[38], 1);
    assert_eq!(bytes[39..], [1, 2, 3]);
    assert_eq!(TombstoneEntry::from_bytes(&bytes), Some(entry));
    assert_eq!(TombstoneEntry::from_bytes(&bytes[..38]), None);
    let mut broken = bytes.clone();
    broken[38] = 2;
    assert_eq!(TombstoneEntry::from_bytes(&broken), None);
}
