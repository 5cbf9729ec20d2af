use ic_vetkd_cdk::access_rights::{AccessRights, Rights};
use ic_vetkd_cdk::audit::{AuditEntry, AuditEntryType};
use ic_vetkd_cdk::encrypted_maps::EncryptedMaps;
use ic_vetkd_cdk::key_manager::KeyManager;
use ic_vetkd_cdk::memory::MemoryPool;
use ic_vetkd_cdk::principal::Principal;
use ic_vetkd_cdk::types::{bytebuf_to_blob, ByteBuf, MemoryInitializationError};
use ic_vetkd_cdk::vetkd_api_types::VetKDCurve;

fn owner() -> Principal {
    Principal::from_slice(&[1, 2, 3, 4, 5, 6, 7, 8, 9, 10])
}

fn friend() -> Principal {
    Principal::from_slice(&[11, 12, 13])
}

fn stranger() -> Principal {
    Principal::from_slice(&[21, 22, 23, 24])
}

fn name() -> [u8; 32] {
    [1u8; 32]
}

fn key() -> [u8; 32] {
    [2u8; 32]
}

fn ct() -> ByteBuf {
    ByteBuf::from(b"ct".to_vec())
}

fn maps_in(pool: &mut MemoryPool) -> EncryptedMaps {
    EncryptedMaps::init(pool, "encrypted_maps", 0, 1, 2, 3, 4, Some(5)).unwrap()
}

fn maps() -> EncryptedMaps {
    maps_in(&mut MemoryPool::new())
}

fn types_of(log: &[AuditEntry]) -> Vec<AuditEntryType> {
    log.iter().map(|entry| entry.audit_type()).collect()
}

#[test]
fn owner_only_flow() {
    let mut maps = maps();
    let map = (owner(), name());
    assert_eq!(maps.insert_encrypted_value(owner(), map, key(), ct(), 7), Ok(None));
    assert_eq!(
        maps.get_encrypted_values_for_map(owner(), map, 8),
        Ok(vec![(key(), ct())])
    );
    let log = maps.get_audit_log(map).0;
    assert_eq!(log.last(), Some(&AuditEntry::created(7, owner())));
    assert_eq!(types_of(&log), vec![AuditEntryType::Created]);
}

#[test]
fn grant_then_revoke() {
    let mut maps = maps();
    let map = (owner(), name());
    assert_eq!(
        maps.set_user_rights(owner(), map, friend(), AccessRights::read_write(), 1),
        Ok(None)
    );
    assert_eq!(
        maps.get_user_rights(owner(), map, friend(), 2),
        Ok(Some(AccessRights::read_write()))
    );
    assert_eq!(
        maps.remove_user(owner(), map, friend(), 3),
        Ok(Some(AccessRights::read_write()))
    );
    assert_eq!(maps.get_user_rights(owner(), map, friend(), 4), Ok(None));
    assert_eq!(
        maps.get_audit_log(map).0,
        vec![
            AuditEntry::share(1, owner(), friend(), AccessRights::read_write()),
            AuditEntry::unshare(3, owner(), friend()),
        ]
    );
}

#[test]
fn time_windowed_grant() {
    let mut maps = maps();
    let map = (owner(), name());
    let grant = AccessRights::new(Rights::Read, Some(1000), Some(1200));
    maps.insert_encrypted_value(owner(), map, key(), ct(), 0).unwrap();
    assert_eq!(maps.set_user_rights(owner(), map, friend(), grant, 0), Ok(None));

    assert_eq!(
        maps.get_encrypted_value(friend(), map, key(), 999),
        Err("unauthorized".to_string())
    );
    assert_eq!(maps.get_user_rights(owner(), map, friend(), 999), Ok(None));

    assert_eq!(maps.get_encrypted_value(friend(), map, key(), 1000), Ok(Some(ct())));
    assert_eq!(maps.get_user_rights(owner(), map, friend(), 1000), Ok(Some(grant)));
    assert_eq!(maps.get_encrypted_value(friend(), map, key(), 1199), Ok(Some(ct())));

    assert_eq!(
        maps.get_encrypted_value(friend(), map, key(), 1200),
        Err("unauthorized".to_string())
    );
    assert_eq!(maps.get_user_rights(owner(), map, friend(), 1200), Ok(None));
}

#[test]
fn anonymous_read() {
    let mut maps = maps();
    let map = (owner(), name());
    maps.insert_encrypted_value(owner(), map, key(), ct(), 0).unwrap();
    assert_eq!(
        maps.set_user_rights(owner(), map, Principal::anonymous(), AccessRights::read_only(), 0),
        Ok(None)
    );
    assert_eq!(maps.get_encrypted_value(stranger(), map, key(), 0), Ok(Some(ct())));
    assert_eq!(
        maps.set_user_rights(stranger(), map, friend(), AccessRights::read_only(), 0),
        Err("unauthorized".to_string())
    );
    assert_eq!(
        maps.insert_encrypted_value(stranger(), map, key(), ct(), 0),
        Err("unauthorized".to_string())
    );
}

#[test]
fn anonymous_management_is_never_honoured() {
    let mut maps = maps();
    let map = (owner(), name());
    maps.set_user_rights(owner(), map, Principal::anonymous(), AccessRights::read_write_manage(), 0)
        .unwrap();
    assert_eq!(
        maps.set_user_rights(stranger(), map, friend(), AccessRights::read_only(), 0),
        Err("unauthorized".to_string())
    );
    assert_eq!(
        maps.remove_user(Principal::anonymous(), map, friend(), 0),
        Err("unauthorized".to_string())
    );
    assert_eq!(
        maps.set_user_rights(Principal::anonymous(), map, friend(), AccessRights::read_only(), 0),
        Err("unauthorized".to_string())
    );
    assert_eq!(
        maps.purge_tombstone(Principal::anonymous(), map, key(), 0),
        Err("unauthorized".to_string())
    );
    assert_eq!(
        maps.purge_tombstone(stranger(), map, key(), 0),
        Err("unauthorized".to_string())
    );
    assert_eq!(maps.get_accessible_shared_map_names(friend()), vec![]);
    assert_eq!(
        maps.insert_encrypted_value(Principal::anonymous(), map, key(), ct(), 0),
        Ok(None)
    );
}

#[test]
fn the_anonymous_identity_manages_what_it_owns() {
    let mut maps = maps();
    let map = (Principal::anonymous(), name());
    assert_eq!(
        maps.set_user_rights(Principal::anonymous(), map, friend(), AccessRights::read_only(), 0),
        Ok(None)
    );
    assert_eq!(
        maps.remove_user(Principal::anonymous(), map, friend(), 1),
        Ok(Some(AccessRights::read_only()))
    );
}

#[test]
fn a_grant_of_ones_own_that_is_not_live_hides_the_grant_to_everyone() {
    let mut maps = maps();
    let map = (owner(), name());
    maps.insert_encrypted_value(owner(), map, key(), ct(), 0).unwrap();
    maps.set_user_rights(owner(), map, Principal::anonymous(), AccessRights::read_only(), 0)
        .unwrap();
    maps.set_user_rights(
        owner(),
        map,
        friend(),
        AccessRights::new(Rights::ReadWrite, Some(50), None),
        0,
    )
    .unwrap();
    assert_eq!(
        maps.get_encrypted_value(friend(), map, key(), 49),
        Err("unauthorized".to_string())
    );
    assert_eq!(maps.get_encrypted_value(stranger(), map, key(), 49), Ok(Some(ct())));
    assert_eq!(maps.get_encrypted_value(friend(), map, key(), 50), Ok(Some(ct())));
}

#[test]
fn soft_delete_then_restore() {
    let mut maps = maps();
    let map = (owner(), name());
    assert_eq!(maps.insert_encrypted_value(owner(), map, key(), ct(), 1), Ok(None));
    assert_eq!(
        maps.remove_encrypted_value(owner(), map, key(), false, 2),
        Ok(Some(ct()))
    );
    assert_eq!(maps.get_encrypted_value(owner(), map, key(), 2), Ok(None));

    let tombstones = maps.get_tombstones_for_map(owner(), map, 2).unwrap();
    assert_eq!(tombstones.len(), 1);
    assert_eq!(tombstones[0].0, key());
    assert_eq!(tombstones[0].1.value, ct());
    assert_eq!(tombstones[0].1.deletion_timestamp, 2);
    assert_eq!(tombstones[0].1.deleted_by, owner());
    assert!(!tombstones[0].1.marked_for_purge);

    assert_eq!(maps.restore_value(owner(), map, key(), 3), Ok(Some(ct())));
    assert_eq!(maps.get_encrypted_value(owner(), map, key(), 3), Ok(Some(ct())));
    assert_eq!(maps.get_tombstones_for_map(owner(), map, 3), Ok(vec![]));
    assert_eq!(
        maps.get_audit_log(map).0,
        vec![
            AuditEntry::created(1, owner()),
            AuditEntry::soft_deleted(2, owner()),
            AuditEntry::restored(3, owner()),
        ]
    );
}

#[test]
fn double_init_fails() {
    let mut pool = MemoryPool::new();
    let mut first = maps_in(&mut pool);
    first
        .insert_encrypted_value(owner(), (owner(), name()), key(), ct(), 0)
        .unwrap();
    let second = EncryptedMaps::init(&mut pool, "encrypted_maps", 0, 1, 2, 3, 4, Some(5));
    assert!(matches!(second, Err(MemoryInitializationError::AlreadyInitialized)));
    for id in 0..=5 {
        assert!(!pool.is_free(id));
    }
    assert!(pool.is_free(6));
    assert_eq!(
        first.get_encrypted_value(owner(), (owner(), name()), key(), 0),
        Ok(Some(ct()))
    );
}

#[test]
fn init_refuses_a_region_in_use_and_takes_none() {
    let mut pool = MemoryPool::new();
    let _manager = KeyManager::init(&mut pool, "one", 10, 11, 12, None).unwrap();
    let maps = EncryptedMaps::init(&mut pool, "two", 0, 1, 2, 3, 12, None);
    assert!(matches!(maps, Err(MemoryInitializationError::AlreadyInitialized)));
    for id in 0..=3 {
        assert!(pool.is_free(id));
    }
}

#[test]
fn init_refuses_a_region_named_twice_and_the_reserved_one() {
    let mut pool = MemoryPool::new();
    assert!(matches!(
        KeyManager::init(&mut pool, "twice", 1, 1, 2, None),
        Err(MemoryInitializationError::AlreadyInitialized)
    ));
    assert!(matches!(
        KeyManager::init(&mut pool, "reserved", 253, 254, 255, None),
        Err(MemoryInitializationError::AlreadyInitialized)
    ));
    assert!(!pool.is_free(255));
    assert!(pool.is_free(254));
    assert_eq!(
        pool.claim(255),
        Err(MemoryInitializationError::AlreadyInitialized)
    );
    assert_eq!(pool.claim(254), Ok(()));
    assert_eq!(
        pool.claim(254),
        Err(MemoryInitializationError::AlreadyInitialized)
    );
}

#[test]
fn the_domain_separator_is_kept() {
    let mut pool = MemoryPool::new();
    let manager = KeyManager::init(&mut pool, "sépare", 0, 1, 2, None).unwrap();
    assert_eq!(manager.domain_separator(), "sépare".to_string());
    assert!(!manager.is_auditing());
    let request = manager.get_vetkey_verification_key();
    assert_eq!(request.canister_id, None);
    assert_eq!(request.derivation_path, vec!["sépare".as_bytes().to_vec()]);
    assert_eq!(request.key_id.curve, VetKDCurve::Bls12_381);
    assert_eq!(request.key_id.name, "insecure_test_key_1");
}

#[test]
fn the_owner_cannot_change_or_lose_the_owners_rights() {
    let mut maps = maps();
    let map = (owner(), name());
    assert_eq!(
        maps.set_user_rights(owner(), map, owner(), AccessRights::read_only(), 0),
        Err("cannot change key owner's user rights".to_string())
    );
    assert_eq!(
        maps.remove_user(owner(), map, owner(), 0),
        Err("cannot remove key owner".to_string())
    );
    assert_eq!(maps.get_audit_log(map).0, vec![]);
    assert_eq!(
        maps.get_user_rights(owner(), map, owner(), 0),
        Ok(Some(AccessRights::read_write_manage()))
    );
}

#[test]
fn a_window_that_ends_before_it_starts_is_refused() {
    let mut maps = maps();
    let map = (owner(), name());
    let backwards = AccessRights { rights: Rights::Read, start: Some(5), end: Some(4) };
    assert_eq!(
        maps.set_user_rights(owner(), map, friend(), backwards, 0),
        Err("start time must be before or equal to end time".to_string())
    );
    assert_eq!(
        maps.set_user_rights(stranger(), map, friend(), backwards, 0),
        Err("unauthorized".to_string())
    );
    assert_eq!(maps.get_accessible_shared_map_names(friend()), vec![]);
    let instant = AccessRights::new(Rights::Read, Some(5), Some(5));
    assert_eq!(maps.set_user_rights(owner(), map, friend(), instant, 0), Ok(None));
    assert_eq!(maps.get_user_rights(owner(), map, friend(), 5), Ok(None));
}

#[test]
fn rights_after_a_grant_are_the_grant_while_it_is_live() {
    let mut maps = maps();
    let map = (owner(), name());
    let grants = [
        AccessRights::new(Rights::Read, None, None),
        AccessRights::new(Rights::ReadWrite, Some(10), None),
        AccessRights::new(Rights::ReadWriteManage, None, Some(20)),
        AccessRights::new(Rights::Read, Some(10), Some(20)),
    ];
    for grant in grants {
        maps.set_user_rights(owner(), map, friend(), grant, 0).unwrap();
        for later in [0u64, 9, 10, 19, 20, 21, u64::MAX] {
            let live = grant.start.map_or(true, |s| s <= later)
                && grant.end.map_or(true, |e| later < e);
            let told = maps.get_user_rights(owner(), map, friend(), later).unwrap();
            assert_eq!(told == Some(grant), live);
            assert_eq!(told, if live { Some(grant) } else { None });
        }
    }
}

#[test]
fn a_bound_at_time_zero_reads_back_as_no_bound() {
    let mut maps = maps();
    let map = (owner(), name());
    let from_zero = AccessRights::new(Rights::Read, Some(0), Some(9));
    assert_eq!(maps.set_user_rights(owner(), map, friend(), from_zero, 0), Ok(None));
    assert_eq!(
        maps.get_user_rights(owner(), map, friend(), 3),
        Ok(Some(AccessRights::new(Rights::Read, None, Some(9))))
    );
    assert_eq!(
        maps.get_audit_log(map).0,
        vec![AuditEntry::share(0, owner(), friend(), from_zero)]
    );
}

#[test]
fn grants_and_sharings_go_together() {
    let mut maps = maps();
    let first = (owner(), [1u8; 32]);
    let second = (owner(), [2u8; 32]);
    maps.set_user_rights(owner(), first, friend(), AccessRights::read_only(), 0).unwrap();
    maps.set_user_rights(owner(), second, friend(), AccessRights::read_write(), 0).unwrap();
    maps.set_user_rights(owner(), second, stranger(), AccessRights::read_only(), 0).unwrap();

    assert_eq!(maps.get_accessible_shared_map_names(friend()), vec![first, second]);
    assert_eq!(maps.get_accessible_shared_map_names(stranger()), vec![second]);
    assert_eq!(
        maps.get_shared_user_access_for_map(owner(), first, 0),
        Ok(vec![(friend(), AccessRights::read_only())])
    );
    assert_eq!(
        maps.get_shared_user_access_for_map(owner(), second, 0),
        Ok(vec![
            (friend(), AccessRights::read_write()),
            (stranger(), AccessRights::read_only())
        ])
    );

    maps.remove_user(owner(), second, friend(), 0).unwrap();
    assert_eq!(maps.get_accessible_shared_map_names(friend()), vec![first]);
    assert_eq!(
        maps.get_shared_user_access_for_map(owner(), second, 0),
        Ok(vec![(stranger(), AccessRights::read_only())])
    );
    assert_eq!(
        maps.get_shared_user_access_for_map(friend(), second, 0),
        Err("unauthorized".to_string())
    );
}

#[test]
fn users_are_listed_by_length_then_bytes_with_the_grants_of_the_table() {
    let mut maps = maps();
    let map = (owner(), name());
    let long_low = Principal::from_slice(&[0, 0, 0, 0, 0]);
    let short_high = Principal::from_slice(&[255]);
    let short_low = Principal::from_slice(&[7]);
    for user in [long_low, short_high, short_low] {
        maps.set_user_rights(owner(), map, user, AccessRights::read_only(), 0).unwrap();
    }
    let later = AccessRights::new(Rights::Read, Some(100), None);
    maps.set_user_rights(owner(), map, friend(), later, 0).unwrap();
    let expired = AccessRights::new(Rights::ReadWrite, None, Some(50));
    maps.set_user_rights(owner(), map, stranger(), expired, 0).unwrap();
    for now in [0u64, 49, 50, 99, 100, u64::MAX] {
        assert_eq!(
            maps.get_shared_user_access_for_map(owner(), map, now),
            Ok(vec![
                (short_low, AccessRights::read_only()),
                (short_high, AccessRights::read_only()),
                (friend(), later),
                (stranger(), expired),
                (long_low, AccessRights::read_only()),
            ])
        );
    }
    assert_eq!(
        maps.get_shared_user_access_for_map(friend(), map, 99),
        Err("unauthorized".to_string())
    );
    assert_eq!(maps.get_shared_user_access_for_map(friend(), map, 100).unwrap().len(), 5);
    let described = maps.get_all_accessible_encrypted_maps(friend(), 100);
    assert_eq!(described.len(), 1);
    assert_eq!(described[0].access_control.len(), 5);
    assert_eq!(described[0].access_control[3], (stranger(), expired));
}

#[test]
fn insert_then_get() {
    let mut maps = maps();
    let map = (owner(), name());
    let value = ByteBuf::from(vec![9u8; 300]);
    assert_eq!(maps.insert_encrypted_value(owner(), map, key(), value.clone(), 0), Ok(None));
    assert_eq!(maps.get_encrypted_value(owner(), map, key(), 0), Ok(Some(value.clone())));
    assert_eq!(maps.get_encrypted_value(owner(), map, [3u8; 32], 0), Ok(None));
    assert_eq!(maps.get_encrypted_value(owner(), (owner(), [9u8; 32]), key(), 0), Ok(None));
    assert_eq!(
        maps.insert_encrypted_value(owner(), map, key(), ByteBuf::new(), 1),
        Ok(Some(value))
    );
    assert_eq!(maps.get_encrypted_value(owner(), map, key(), 1), Ok(Some(ByteBuf::new())));
    assert_eq!(
        types_of(&maps.get_audit_log(map).0),
        vec![AuditEntryType::Created, AuditEntryType::Updated]
    );
}

#[test]
fn hard_delete_leaves_nothing() {
    let mut maps = maps();
    let map = (owner(), name());
    maps.insert_encrypted_value(owner(), map, key(), ct(), 0).unwrap();
    assert_eq!(maps.remove_encrypted_value(owner(), map, key(), true, 1), Ok(Some(ct())));
    assert_eq!(maps.get_encrypted_value(owner(), map, key(), 1), Ok(None));
    assert_eq!(maps.get_tombstones_for_map(owner(), map, 1), Ok(vec![]));
    assert_eq!(maps.restore_value(owner(), map, key(), 2), Ok(None));
    assert_eq!(maps.remove_encrypted_value(owner(), map, key(), true, 3), Ok(None));
    assert_eq!(
        maps.get_audit_log(map).0,
        vec![AuditEntry::created(0, owner()), AuditEntry::deleted(1, owner())]
    );
}

#[test]
fn purge_deletes_a_tombstone_for_good() {
    let mut maps = maps();
    let map = (owner(), name());
    maps.set_user_rights(owner(), map, friend(), AccessRights::read_write(), 0).unwrap();
    maps.insert_encrypted_value(friend(), map, key(), ct(), 1).unwrap();
    maps.remove_encrypted_value(friend(), map, key(), false, 2).unwrap();
    assert_eq!(
        maps.purge_tombstone(friend(), map, key(), 3),
        Err("unauthorized".to_string())
    );
    let purged = maps.purge_tombstone(owner(), map, key(), 4).unwrap().unwrap();
    assert_eq!(purged.value, ct());
    assert_eq!(purged.deleted_by, friend());
    assert_eq!(purged.deletion_timestamp, 2);
    assert_eq!(maps.purge_tombstone(owner(), map, key(), 5), Ok(None));
    assert_eq!(maps.restore_value(owner(), map, key(), 6), Ok(None));
    assert_eq!(
        types_of(&maps.get_audit_log(map).0),
        vec![
            AuditEntryType::Share,
            AuditEntryType::Created,
            AuditEntryType::SoftDeleted,
            AuditEntryType::Deleted,
        ]
    );
}

#[test]
fn removing_a_map_softly_keeps_its_values_as_tombstones() {
    let mut maps = maps();
    let map = (owner(), name());
    let other = (owner(), [7u8; 32]);
    maps.insert_encrypted_value(owner(), map, [3u8; 32], ByteBuf::from(vec![3]), 0).unwrap();
    maps.insert_encrypted_value(owner(), map, [1u8; 32], ByteBuf::from(vec![1]), 0).unwrap();
    maps.insert_encrypted_value(owner(), other, [1u8; 32], ByteBuf::from(vec![7]), 0).unwrap();

    assert_eq!(
        maps.remove_map_values(owner(), map, true, 9),
        Ok(vec![[1u8; 32], [3u8; 32]])
    );
    assert_eq!(maps.get_encrypted_values_for_map(owner(), map, 9), Ok(vec![]));
    assert_eq!(
        maps.get_encrypted_values_for_map(owner(), other, 9),
        Ok(vec![([1u8; 32], ByteBuf::from(vec![7]))])
    );
    let tombstones = maps.get_tombstones_for_map(owner(), map, 9).unwrap();
    assert_eq!(tombstones.len(), 2);
    assert_eq!(tombstones[0].0, [1u8; 32]);
    assert_eq!(tombstones[0].1.value, ByteBuf::from(vec![1]));
    assert_eq!(tombstones[1].0, [3u8; 32]);
    assert_eq!(tombstones[1].1.value, ByteBuf::from(vec![3]));
    assert_eq!(tombstones[1].1.deletion_timestamp, 9);
    assert_eq!(maps.get_owned_non_empty_map_names(owner()), vec![[7u8; 32]]);
    assert_eq!(
        types_of(&maps.get_audit_log(map).0),
        vec![AuditEntryType::Created, AuditEntryType::Created, AuditEntryType::SoftDeleted]
    );
    assert_eq!(maps.remove_map_values(owner(), map, true, 10), Ok(vec![]));
    assert_eq!(maps.get_audit_log(map).0.len(), 3);
}

#[test]
fn removing_a_map_hard_leaves_no_tombstones() {
    let mut maps = maps();
    let map = (owner(), name());
    maps.insert_encrypted_value(owner(), map, [3u8; 32], ByteBuf::from(vec![3]), 0).unwrap();
    maps.insert_encrypted_value(owner(), map, [1u8; 32], ByteBuf::from(vec![1]), 0).unwrap();
    assert_eq!(
        maps.remove_map_values(owner(), map, false, 9),
        Ok(vec![[1u8; 32], [3u8; 32]])
    );
    assert_eq!(maps.get_tombstones_for_map(owner(), map, 9), Ok(vec![]));
    assert_eq!(maps.get_owned_non_empty_map_names(owner()), Vec::<[u8; 32]>::new());
    assert_eq!(
        maps.get_audit_log(map).0.last(),
        Some(&AuditEntry::deleted(9, owner()))
    );
}

#[test]
fn owned_maps_are_listed_once_by_rising_name() {
    let mut maps = maps();
    for name in [[9u8; 32], [2u8; 32], [5u8; 32]] {
        for key in [[1u8; 32], [2u8; 32], [3u8; 32]] {
            maps.insert_encrypted_value(owner(), (owner(), name), key, ct(), 0).unwrap();
        }
    }
    maps.insert_encrypted_value(friend(), (friend(), [1u8; 32]), key(), ct(), 0).unwrap();
    assert_eq!(
        maps.get_owned_non_empty_map_names(owner()),
        vec![[2u8; 32], [5u8; 32], [9u8; 32]]
    );
    assert_eq!(maps.get_owned_non_empty_map_names(friend()), vec![[1u8; 32]]);
    assert_eq!(maps.get_owned_non_empty_map_names(stranger()), Vec::<[u8; 32]>::new());
}

#[test]
fn accessible_maps_are_the_shared_ones_then_ones_own() {
    let mut maps = maps();
    let own = (friend(), [4u8; 32]);
    let shared = (owner(), [1u8; 32]);
    let expired = (owner(), [2u8; 32]);
    maps.insert_encrypted_value(friend(), own, key(), ByteBuf::from(vec![4]), 0).unwrap();
    maps.insert_encrypted_value(owner(), shared, key(), ByteBuf::from(vec![1]), 0).unwrap();
    maps.insert_encrypted_value(owner(), expired, key(), ByteBuf::from(vec![2]), 0).unwrap();
    maps.set_user_rights(owner(), shared, friend(), AccessRights::read_only(), 0).unwrap();
    maps.set_user_rights(
        owner(),
        expired,
        friend(),
        AccessRights::new(Rights::Read, None, Some(10)),
        0,
    )
    .unwrap();

    assert_eq!(
        maps.get_all_accessible_encrypted_values(friend(), 5),
        vec![
            (shared, vec![(key(), ByteBuf::from(vec![1]))]),
            (expired, vec![(key(), ByteBuf::from(vec![2]))]),
            (own, vec![(key(), ByteBuf::from(vec![4]))]),
        ]
    );
    assert_eq!(
        maps.get_all_accessible_encrypted_values(friend(), 10),
        vec![
            (shared, vec![(key(), ByteBuf::from(vec![1]))]),
            (own, vec![(key(), ByteBuf::from(vec![4]))]),
        ]
    );
    let described = maps.get_all_accessible_encrypted_maps(friend(), 10);
    assert_eq!(described.len(), 2);
    assert_eq!(described[0].map_owner, owner());
    assert_eq!(described[0].map_name, ByteBuf::from(vec![1u8; 32]));
    assert_eq!(
        described[0].keyvals,
        vec![(ByteBuf::from(key().to_vec()), ByteBuf::from(vec![1]))]
    );
    assert_eq!(
        described[0].access_control,
        vec![(friend(), AccessRights::read_only())]
    );
    assert_eq!(described[1].map_owner, friend());
    assert_eq!(described[1].access_control, vec![]);
}

#[test]
fn a_derived_key_is_asked_for_the_owner_and_the_name() {
    let mut pool = MemoryPool::new();
    let mut maps = EncryptedMaps::init(&mut pool, "maps", 0, 1, 2, 3, 4, Some(5)).unwrap();
    let map = (owner(), name());
    let transport_key = ByteBuf::from(vec![42u8; 48]);

    let request = maps.get_encrypted_vetkey(owner(), map, transport_key.clone(), 11).unwrap();
    let mut derivation_id = vec![1, 2, 3, 4, 5, 6, 7, 8, 9, 10];
    derivation_id.extend_from_slice(&[1u8; 32]);
    assert_eq!(request.derivation_id, derivation_id);
    assert_eq!(request.public_key_derivation_path, vec![b"maps".to_vec()]);
    assert_eq!(request.key_id.curve, VetKDCurve::Bls12_381);
    assert_eq!(request.key_id.name, "insecure_test_key_1");
    assert_eq!(request.encryption_public_key, vec![42u8; 48]);
    assert_eq!(
        maps.get_audit_log(map).0,
        vec![
            AuditEntry::created(11, owner()),
            AuditEntry::access_vet_key(11, owner(), AccessRights::read_write_manage()),
        ]
    );

    assert_eq!(
        maps.get_encrypted_vetkey(friend(), map, transport_key.clone(), 12).map(|_| ()),
        Err("unauthorized".to_string())
    );
    assert_eq!(maps.get_audit_log(map).0.len(), 2);

    maps.get_encrypted_vetkey(owner(), map, transport_key.clone(), 12).unwrap();
    assert_eq!(
        maps.get_audit_log(map).0[2..],
        [AuditEntry::access_vet_key(12, owner(), AccessRights::read_write_manage())]
    );

    maps.set_user_rights(owner(), map, friend(), AccessRights::read_only(), 13).unwrap();
    let shared = maps.get_encrypted_vetkey(friend(), map, transport_key.clone(), 14).unwrap();
    assert_eq!(shared.derivation_id, derivation_id);
    maps.get_encrypted_vetkey(owner(), map, transport_key, 15).unwrap();
    assert_eq!(
        maps.get_audit_log(map).0[3..],
        [
            AuditEntry::share(13, owner(), friend(), AccessRights::read_only()),
            AuditEntry::access_vet_key(14, friend(), AccessRights::read_only()),
            AuditEntry::access_vet_key(15, owner(), AccessRights::read_write_manage()),
        ]
    );
}

#[test]
fn without_an_audit_region_nothing_is_recorded_and_no_entry_is_made() {
    let mut pool = MemoryPool::new();
    let mut manager = KeyManager::init(&mut pool, "quiet", 0, 1, 2, None).unwrap();
    let map = (owner(), name());
    manager.add_audit_log(map, || unreachable!());
    manager.set_user_rights(owner(), map, friend(), AccessRights::read_only(), 0).unwrap();
    assert_eq!(manager.get_audit_log(map).0, vec![]);

    let mut loud = KeyManager::init(&mut pool, "loud", 3, 4, 5, Some(6)).unwrap();
    assert!(loud.is_auditing());
    loud.add_audit_log(map, || AuditEntry::updated(3, friend()));
    loud.add_audit_log((owner(), [9u8; 32]), || AuditEntry::deleted(4, owner()));
    loud.add_audit_log(map, || AuditEntry::restored(5, owner()));
    assert_eq!(
        loud.get_audit_log(map).0,
        vec![AuditEntry::updated(3, friend()), AuditEntry::restored(5, owner())]
    );
}

#[test]
fn a_manager_who_is_not_the_owner_may_grant_and_revoke() {
    let mut maps = maps();
    let map = (owner(), name());
    maps.set_user_rights(owner(), map, friend(), AccessRights::read_write_manage(), 0).unwrap();
    assert_eq!(
        maps.set_user_rights(friend(), map, stranger(), AccessRights::read_only(), 1),
        Ok(None)
    );
    assert_eq!(
        maps.remove_user(friend(), map, stranger(), 2),
        Ok(Some(AccessRights::read_only()))
    );
    assert_eq!(maps.remove_user(friend(), map, friend(), 3), Ok(Some(AccessRights::read_write_manage())));
    assert_eq!(
        maps.set_user_rights(friend(), map, stranger(), AccessRights::read_only(), 4),
        Err("unauthorized".to_string())
    );
}

#[test]
fn a_value_put_under_a_key_with_a_tombstone_replaces_the_tombstone() {
    let mut maps = maps();
    let map = (owner(), name());
    let old = ByteBuf::from(b"old".to_vec());
    maps.insert_encrypted_value(owner(), map, key(), old.clone(), 0).unwrap();
    maps.insert_encrypted_value(owner(), map, [9u8; 32], old.clone(), 0).unwrap();
    maps.remove_encrypted_value(owner(), map, key(), false, 1).unwrap();
    maps.remove_encrypted_value(owner(), map, [9u8; 32], false, 1).unwrap();
    assert_eq!(maps.get_tombstones_for_map(owner(), map, 1).unwrap().len(), 2);

    assert_eq!(maps.insert_encrypted_value(owner(), map, key(), ct(), 2), Ok(None));
    assert_eq!(maps.get_encrypted_value(owner(), map, key(), 2), Ok(Some(ct())));
    let tombstones = maps.get_tombstones_for_map(owner(), map, 2).unwrap();
    assert_eq!(tombstones.len(), 1);
    assert_eq!(tombstones[0].0, [9u8; 32]);
    assert_eq!(maps.restore_value(owner(), map, key(), 3), Ok(None));
    assert_eq!(maps.get_encrypted_value(owner(), map, key(), 3), Ok(Some(ct())));

    assert_eq!(maps.remove_encrypted_value(owner(), map, key(), true, 4), Ok(Some(ct())));
    assert_eq!(maps.get_encrypted_value(owner(), map, key(), 4), Ok(None));
    let tombstones = maps.get_tombstones_for_map(owner(), map, 4).unwrap();
    assert_eq!(tombstones.len(), 1);
    assert_eq!(tombstones[0].0, [9u8; 32]);
    assert_eq!(maps.restore_value(owner(), map, [9u8; 32], 5), Ok(Some(old)));
}

#[test]
fn names_and_keys_have_thirty_two_bytes() {
    assert_eq!(bytebuf_to_blob(&ByteBuf::from(vec![7u8; 32])), Ok([7u8; 32]));
    assert_eq!(
        bytebuf_to_blob(&ByteBuf::from(vec![7u8; 33])),
        Err("too large input".to_string())
    );
    assert_eq!(
        bytebuf_to_blob(&ByteBuf::from(vec![7u8; 31])),
        Err("too small input".to_string())
    );
    assert_eq!(bytebuf_to_blob(&ByteBuf::new()), Err("too small input".to_string()));
}

#[test]
fn a_cell_that_cannot_be_opened_fails_the_init_and_takes_no_region() {
    let mut pool = MemoryPool::new();
    let refused = Err(ic_stable_structures::cell::InitError::IncompatibleVersion {
        last_supported_version: 1,
        decoded_version: 2,
    });
    assert!(matches!(
        KeyManager::init_opened(&mut pool, refused, 0, 1, 2, Some(3)),
        Err(MemoryInitializationError::DomainSeparatorUnreadable)
    ));
    let too_large = Err(ic_stable_structures::cell::InitError::ValueTooLarge { value_size: 9 });
    assert!(matches!(
        EncryptedMaps::init_opened(&mut pool, too_large, 0, 1, 2, 3, 4, None),
        Err(MemoryInitializationError::DomainSeparatorUnreadable)
    ));
    for id in 0..=4 {
        assert!(pool.is_free(id));
    }
    assert!(KeyManager::init(&mut pool, "after", 0, 1, 2, Some(3)).is_ok());
}

#[test]
fn a_creation_is_recorded_on_the_first_touch_only() {
    let mut maps = maps();
    let written = (owner(), [3u8; 32]);
    maps.insert_encrypted_value(owner(), written, key(), ct(), 1).unwrap();
    maps.get_encrypted_vetkey(owner(), written, ByteBuf::new(), 2).unwrap();
    assert_eq!(
        maps.get_audit_log(written).0,
        vec![
            AuditEntry::created(1, owner()),
            AuditEntry::access_vet_key(2, owner(), AccessRights::read_write_manage()),
        ]
    );

    let mut pool = MemoryPool::new();
    let mut quiet = KeyManager::init(&mut pool, "quiet", 0, 1, 2, None).unwrap();
    let map = (owner(), name());
    assert!(quiet.get_encrypted_vetkey(owner(), map, ByteBuf::new(), 1).is_ok());
    assert!(quiet.get_encrypted_vetkey(owner(), map, ByteBuf::new(), 2).is_ok());
    assert_eq!(quiet.get_audit_log(map).0, vec![]);
}
