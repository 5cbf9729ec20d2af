use std::{
    collections::{BTreeMap, HashSet},
    iter::FromIterator,
};

use ic_vetkd_cdk::access_rights::{AccessRights, Rights};
use ic_vetkd_cdk::encrypted_maps::EncryptedMaps;
use ic_vetkd_cdk::memory::MemoryPool;
use ic_vetkd_cdk::principal::Principal;
use ic_vetkd_cdk::types::{ByteBuf, KeyName, MapKey};
use rand::{CryptoRng, Rng, SeedableRng};
use rand_chacha::ChaCha20Rng;
use std::ops::Range;

fn reproducible_rng() -> ChaCha20Rng {
    let seed = rand::thread_rng().gen();
    println!("RNG seed: {seed:?}");
    ChaCha20Rng::from_seed(seed)
}

fn random_unique_memory_ids<R: Rng + CryptoRng>(rng: &mut R) -> (u8, [u8; 5]) {
    const MAX_MEMORY_ID: u8 = 254;
    let mut set = std::collections::HashSet::<u8>::new();
    let mut unique_memory_ids = [0; 6];
    while set.len() != unique_memory_ids.len() {
        set.insert(rng.gen_range(0..=MAX_MEMORY_ID));
    }
    unique_memory_ids = set.into_iter().collect::<Vec<u8>>().try_into().unwrap();

    let memory_id_encrypted_maps = unique_memory_ids[0];
    let memory_ids_key_manager = [
        unique_memory_ids[1],
        unique_memory_ids[2],
        unique_memory_ids[3],
        unique_memory_ids[4],
        unique_memory_ids[5],
    ];
    (memory_id_encrypted_maps, memory_ids_key_manager)
}

fn random_blob<R: Rng + CryptoRng>(rng: &mut R) -> [u8; 32] {
    let mut result = [0u8; 32];
    rng.fill_bytes(&mut result);
    result
}

fn random_name<R: Rng + CryptoRng>(rng: &mut R) -> KeyName {
    random_blob(rng)
}

fn random_key<R: Rng + CryptoRng>(rng: &mut R) -> MapKey {
    random_blob(rng)
}

fn random_bytebuf<R: Rng + CryptoRng>(rng: &mut R, range: Range<usize>) -> ByteBuf {
    let length: usize = rng.gen_range(range);
    let mut result: Vec<u8> = vec![0; length];
    rng.fill_bytes(&mut result);
    ByteBuf::from(result)
}

fn random_self_authenticating_principal<R: Rng + CryptoRng>(rng: &mut R) -> Principal {
    let mut fake_public_key = vec![0u8; 32];
    rng.fill_bytes(&mut fake_public_key);
    let principal = candid::Principal::self_authenticating::<&[u8]>(fake_public_key.as_ref());
    Principal::from_slice(principal.as_slice())
}

fn random_access_rights<R: Rng + CryptoRng>(rng: &mut R) -> AccessRights {
    let data = rng.gen_range(0..=2);
    let rights = match data {
        0 => Rights::Read,
        1 => Rights::ReadWrite,
        2 => Rights::ReadWriteManage,
        _ => unreachable!(),
    };
    AccessRights::new(rights, None, None)
}

fn random_utf8_string<R: Rng + CryptoRng>(rng: &mut R, len: usize) -> String {
    rng.sample_iter::<char, _>(&rand::distributions::Standard)
        .take(len)
        .collect()
}

fn random_encrypted_maps<R: Rng + CryptoRng>(rng: &mut R) -> EncryptedMaps {
    let mut pool = MemoryPool::new();
    let (memory_id_encrypted_maps, memory_ids_key_manager) = random_unique_memory_ids(rng);
    let domain_separator_len = rng.gen_range(0..32);
    EncryptedMaps::init(
        &mut pool,
        &random_utf8_string(rng, domain_separator_len),
        memory_id_encrypted_maps,
        memory_ids_key_manager[0],
        memory_ids_key_manager[1],
        memory_ids_key_manager[2],
        memory_ids_key_manager[4],
        Some(memory_ids_key_manager[3]),
    )
    .unwrap()
}

#[test]
fn can_init_memory() {
    // prevent the compiler from optimizing away the function call
    std::hint::black_box(random_encrypted_maps(&mut reproducible_rng()));
}

#[test]
fn can_remove_map_values() {
    let rng = &mut reproducible_rng();
    let caller = random_self_authenticating_principal(rng);
    let name = random_name(rng);
    let mut encrypted_maps = random_encrypted_maps(rng);
    let result = encrypted_maps.remove_map_values_legacy(caller, (caller, name), 0);
    assert_eq!(result, Ok(vec![]));
}

#[test]
fn unauthorized_delete_map_values_fails() {
    let rng = &mut reproducible_rng();
    let caller = random_self_authenticating_principal(rng);
    let unauthorized = random_self_authenticating_principal(rng);
    let name = random_name(rng);
    let key = random_key(rng);
    let encrypted_value = random_bytebuf(rng, 0..2_000_000);
    let mut encrypted_maps = random_encrypted_maps(rng);

    encrypted_maps
        .insert_encrypted_value(caller, (caller, name), key, encrypted_value, 0)
        .unwrap();
    let result = encrypted_maps.remove_map_values_legacy(unauthorized, (caller, name), 0);
    assert_eq!(result, Err("unauthorized".to_string()));
}

#[test]
fn can_add_user_to_map() {
    let rng = &mut reproducible_rng();
    let caller = random_self_authenticating_principal(rng);
    let name = random_name(rng);
    let mut encrypted_maps = random_encrypted_maps(rng);

    let user_to_be_added = random_self_authenticating_principal(rng);
    let access_rights = random_access_rights(rng);
    assert_eq!(
        encrypted_maps.get_user_rights(caller, (caller, name), user_to_be_added, 0),
        Ok(None)
    );
    assert_eq!(
        encrypted_maps.set_user_rights(caller, (caller, name), user_to_be_added, access_rights, 0),
        Ok(None)
    );
    assert_eq!(
        encrypted_maps.set_user_rights(caller, (caller, name), user_to_be_added, access_rights, 0),
        Ok(Some(access_rights))
    );
    assert_eq!(
        encrypted_maps.get_user_rights(caller, (caller, name), user_to_be_added, 0),
        Ok(Some(access_rights))
    );
}

#[test]
fn can_add_user_to_map_with_time() {
    let rng = &mut reproducible_rng();
    let caller = random_self_authenticating_principal(rng);
    let name = random_name(rng);
    let mut encrypted_maps = random_encrypted_maps(rng);

    let user_to_be_added = random_self_authenticating_principal(rng);
    let access_rights = random_access_rights(rng);
    let access_rights = AccessRights::new(access_rights.rights, Some(1000), Some(1200));
    assert_eq!(
        encrypted_maps.get_user_rights(caller, (caller, name), user_to_be_added, 0),
        Ok(None)
    );
    assert_eq!(
        encrypted_maps.set_user_rights(caller, (caller, name), user_to_be_added, access_rights, 0),
        Ok(None)
    );
    assert_eq!(
        encrypted_maps.set_user_rights(caller, (caller, name), user_to_be_added, access_rights, 0),
        Ok(Some(access_rights))
    );
    assert_eq!(
        encrypted_maps.get_user_rights(caller, (caller, name), user_to_be_added, 0),
        Ok(None)
    );
    assert_eq!(
        encrypted_maps.get_user_rights(caller, (caller, name), user_to_be_added, 1000),
        Ok(Some(access_rights))
    );
    assert_eq!(
        encrypted_maps.get_user_rights(caller, (caller, name), user_to_be_added, 1200),
        Ok(None)
    );
}

#[test]
fn can_add_anonymous_to_map() {
    let rng = &mut reproducible_rng();
    let caller = random_self_authenticating_principal(rng);
    let name = random_name(rng);
    let mut encrypted_maps = random_encrypted_maps(rng);

    let user_to_be_added = random_self_authenticating_principal(rng);
    let access_rights = random_access_rights(rng);
    assert_eq!(
        encrypted_maps.get_user_rights(caller, (caller, name), user_to_be_added, 0),
        Ok(None)
    );
    assert_eq!(
        encrypted_maps.set_user_rights(
            caller,
            (caller, name),
            Principal::anonymous(),
            access_rights,
            0
        ),
        Ok(None)
    );
    // Anyone can read something with anonymous user rights.
    assert_eq!(
        encrypted_maps.get_user_rights(caller, (caller, name), user_to_be_added, 0),
        Ok(Some(access_rights))
    );
}

#[test]
fn unauthorized_cannot_invoke_operations() {
    let rng = &mut reproducible_rng();
    let unauthorized = random_self_authenticating_principal(rng);
    let owner = random_self_authenticating_principal(rng);
    let map_name = random_name(rng);
    let map_id = (owner, map_name);
    let map_key = random_key(rng);
    let mut encrypted_maps = random_encrypted_maps(rng);

    assert_eq!(
        encrypted_maps.get_user_rights(unauthorized, map_id, unauthorized, 0),
        Err("unauthorized".to_string())
    );

    assert_eq!(
        encrypted_maps.get_encrypted_value(unauthorized, map_id, map_key, 0),
        Err("unauthorized".to_string())
    );

    assert_eq!(
        encrypted_maps.get_encrypted_values_for_map(unauthorized, map_id, 0),
        Err("unauthorized".to_string())
    );

    for _ in 0..2 {
        assert_eq!(
            encrypted_maps.remove_map_values_legacy(unauthorized, map_id, 0),
            Err("unauthorized".to_string())
        );

        assert_eq!(
            encrypted_maps.remove_user(unauthorized, map_id, unauthorized, 0),
            Err("unauthorized".to_string())
        );

        assert_eq!(
            encrypted_maps.set_user_rights(
                unauthorized,
                map_id,
                unauthorized,
                AccessRights::read_only(),
                0
            ),
            Err("unauthorized".to_string())
        );

        encrypted_maps
            .set_user_rights(owner, map_id, unauthorized, AccessRights::read_only(), 0)
            .unwrap();
    }

    encrypted_maps
        .set_user_rights(owner, map_id, unauthorized, AccessRights::read_write(), 0)
        .unwrap();

    assert_eq!(
        encrypted_maps.set_user_rights(
            unauthorized,
            map_id,
            unauthorized,
            AccessRights::read_only(),
            0
        ),
        Err("unauthorized".to_string())
    );
}

#[test]
fn can_remove_user_from_map() {
    let rng = &mut reproducible_rng();
    let caller = random_self_authenticating_principal(rng);
    let name = random_name(rng);
    let mut encrypted_maps = random_encrypted_maps(rng);

    let user_to_be_added = random_self_authenticating_principal(rng);
    let access_rights = random_access_rights(rng);
    assert_eq!(
        encrypted_maps.set_user_rights(caller, (caller, name), user_to_be_added, access_rights, 0),
        Ok(None)
    );
    assert_eq!(
        encrypted_maps.remove_user(caller, (caller, name), user_to_be_added, 0),
        Ok(Some(access_rights))
    );
}

#[test]
fn add_or_remove_user_by_unauthorized_fails() {
    let rng = &mut reproducible_rng();
    let caller = random_self_authenticating_principal(rng);
    let name = random_name(rng);
    let mut encrypted_maps = random_encrypted_maps(rng);

    let mut unauthorized_callers = vec![random_self_authenticating_principal(rng)];

    for access_rights in [AccessRights::read_only(), AccessRights::read_write()] {
        let user_to_be_added = random_self_authenticating_principal(rng);

        assert!(matches!(
            encrypted_maps.set_user_rights(
                caller,
                (caller, name),
                user_to_be_added,
                access_rights,
                0
            ),
            Ok(_)
        ));

        unauthorized_callers.push(user_to_be_added);
    }

    for unauthorized_caller in unauthorized_callers {
        for target in [random_self_authenticating_principal(rng), caller] {
            assert_eq!(
                encrypted_maps.remove_user(unauthorized_caller, (caller, name), target, 0),
                Err("unauthorized".to_string())
            );
            assert_eq!(
                encrypted_maps.set_user_rights(
                    unauthorized_caller,
                    (caller, name),
                    target,
                    AccessRights::read_only(),
                    0
                ),
                Err("unauthorized".to_string())
            );
        }
    }
}

#[test]
fn can_add_a_key_to_map() {
    let rng = &mut reproducible_rng();
    let caller = random_self_authenticating_principal(rng);
    let name = random_name(rng);
    let mut encrypted_maps = random_encrypted_maps(rng);

    let key = random_key(rng);
    let value = random_bytebuf(rng, 0..2_000_000);
    assert_eq!(
        encrypted_maps.insert_encrypted_value(caller, (caller, name), key, value, 0),
        Ok(None)
    );
}

#[test]
fn add_a_key_to_map_by_unauthorized_fails() {
    let rng = &mut reproducible_rng();
    let caller = random_self_authenticating_principal(rng);
    let name = random_name(rng);
    let mut encrypted_maps = random_encrypted_maps(rng);

    let unauthorized_caller = random_self_authenticating_principal(rng);
    let key = random_key(rng);
    let value = random_bytebuf(rng, 0..2_000_000);
    assert_eq!(
        encrypted_maps.insert_encrypted_value(
            unauthorized_caller,
            (caller, name),
            key,
            value.clone(),
            0
        ),
        Err("unauthorized".to_string())
    );

    let readonly_caller = random_self_authenticating_principal(rng);

    assert_eq!(
        encrypted_maps.set_user_rights(
            caller,
            (caller, name),
            readonly_caller,
            AccessRights::read_only(),
            0
        ),
        Ok(None)
    );

    assert_eq!(
        encrypted_maps.insert_encrypted_value(readonly_caller, (caller, name), key, value, 0),
        Err("unauthorized".to_string())
    );
}

#[test]
fn can_remove_a_key_from_map() {
    let rng = &mut reproducible_rng();
    let caller = random_self_authenticating_principal(rng);
    let name = random_name(rng);
    let mut encrypted_maps = random_encrypted_maps(rng);

    let key = random_key(rng);
    let value = random_bytebuf(rng, 0..2_000_000);
    encrypted_maps
        .insert_encrypted_value(caller, (caller, name), key, value.clone(), 0)
        .unwrap();
    assert_eq!(
        encrypted_maps.remove_encrypted_value_legacy(caller, (caller, name), key, 0),
        Ok(Some(value))
    );
}

#[test]
fn remove_of_key_from_map_by_unauthorized_fails() {
    let rng = &mut reproducible_rng();
    let caller = random_self_authenticating_principal(rng);
    let name = random_name(rng);
    let mut encrypted_maps = random_encrypted_maps(rng);

    let key = random_key(rng);
    let value = random_bytebuf(rng, 0..2_000_000);
    encrypted_maps
        .insert_encrypted_value(caller, (caller, name), key, value.clone(), 0)
        .unwrap();

    let unauthorized_caller = random_self_authenticating_principal(rng);
    assert_eq!(
        encrypted_maps.remove_encrypted_value_legacy(unauthorized_caller, (caller, name), key, 0),
        Err("unauthorized".to_string())
    );

    let readonly_caller = random_self_authenticating_principal(rng);

    assert_eq!(
        encrypted_maps.set_user_rights(
            caller,
            (caller, name),
            readonly_caller,
            AccessRights::read_only(),
            0
        ),
        Ok(None)
    );

    assert_eq!(
        encrypted_maps.remove_encrypted_value_legacy(readonly_caller, (caller, name), key, 0),
        Err("unauthorized".to_string())
    );
}

#[test]
fn can_access_map_values() {
    let rng = &mut reproducible_rng();
    let caller = random_self_authenticating_principal(rng);
    let name = random_name(rng);
    let mut encrypted_maps = random_encrypted_maps(rng);

    let mut authorized_users = vec![(caller, AccessRights::read_write_manage())];
    let mut keyvals = vec![];

    for _ in 0..3 {
        let key = random_key(rng);
        let value = random_bytebuf(rng, 0..100);
        encrypted_maps
            .insert_encrypted_value(
                caller,
                (caller, name.clone()),
                key.clone(),
                value.clone(),
                0,
            )
            .unwrap();

        for access_rights in AccessRights::iter() {
            let user_to_be_added = random_self_authenticating_principal(rng);
            assert_eq!(
                encrypted_maps.set_user_rights(
                    caller,
                    (caller, name),
                    user_to_be_added,
                    access_rights,
                    0
                ),
                Ok(None)
            );
            authorized_users.push((user_to_be_added, access_rights));
        }

        keyvals.push((key, value));
    }

    for (key, value) in keyvals.clone() {
        for (user, _access_rights) in authorized_users.iter() {
            assert_eq!(
                encrypted_maps.get_encrypted_value(*user, (caller, name), key, 0),
                Ok(Some(value.clone()))
            );
        }
    }

    for (added_user, _access) in authorized_users.clone() {
        let expected_map = BTreeMap::from_iter(keyvals.clone().into_iter());
        let computed_map_single = BTreeMap::from_iter(
            encrypted_maps
                .get_encrypted_values_for_map(added_user, (caller, name), 0)
                .expect("failed to obtain values")
                .into_iter(),
        );
        assert_eq!(expected_map, computed_map_single);

        let all_values = encrypted_maps.get_all_accessible_encrypted_values(added_user, 0);
        let all_maps = encrypted_maps.get_all_accessible_encrypted_maps(added_user, 0);
        assert_eq!(all_values.len(), 1);
        assert_eq!(
            all_values,
            all_maps
                .iter()
                .map(|m| (
                    (
                        m.map_owner,
                        <[u8; 32]>::try_from(m.map_name.as_ref()).unwrap()
                    ),
                    m.keyvals
                        .iter()
                        .map(|(map_key, value)| (
                            <[u8; 32]>::try_from(map_key.as_ref()).unwrap(),
                            value.clone()
                        ))
                        .collect::<Vec<_>>()
                ))
                .collect::<Vec<_>>()
        );

        let all_destructured = all_values.into_iter().next().unwrap();
        assert_eq!((caller, name), all_destructured.0);
        let computed_map_wildcard = BTreeMap::from_iter(all_destructured.1.into_iter());
        assert_eq!(expected_map, computed_map_wildcard);

        for map in all_maps {
            assert_eq!(
                map.access_control
                    .iter()
                    .map(|(p, _a)| *p)
                    .chain(std::iter::once(caller))
                    .collect::<HashSet<_>>(),
                authorized_users
                    .clone()
                    .into_iter()
                    .map(|(user, _)| user)
                    .collect::<HashSet<_>>()
            );
        }
    }
}

#[test]
fn can_modify_a_key_value_in_map() {
    let rng = &mut reproducible_rng();
    let caller = random_self_authenticating_principal(rng);
    let name = random_name(rng);
    let mut encrypted_maps = random_encrypted_maps(rng);

    let key = random_key(rng);
    let value = random_bytebuf(rng, 0..2_000_000);
    encrypted_maps
        .insert_encrypted_value(caller, (caller, name), key, value.clone(), 0)
        .unwrap();

    let new_value = random_bytebuf(rng, 0..2_000_000);
    assert_eq!(
        encrypted_maps.insert_encrypted_value(caller, (caller, name), key, new_value, 0),
        Ok(Some(value))
    );
}

#[test]
fn modify_a_key_value_in_map_by_unauthorized_fails() {
    let rng = &mut reproducible_rng();
    let caller = random_self_authenticating_principal(rng);
    let name = random_name(rng);
    let mut encrypted_maps = random_encrypted_maps(rng);

    let key = random_key(rng);
    let value = random_bytebuf(rng, 0..2_000_000);
    encrypted_maps
        .insert_encrypted_value(caller, (caller, name), key, value.clone(), 0)
        .unwrap();

    let unauthorized_caller = random_self_authenticating_principal(rng);
    let new_value = random_bytebuf(rng, 0..2_000_000);
    assert_eq!(
        encrypted_maps.insert_encrypted_value(
            unauthorized_caller,
            (caller, name),
            key,
            new_value.clone(),
            0
        ),
        Err("unauthorized".to_string())
    );

    let readonly_caller = random_self_authenticating_principal(rng);

    assert_eq!(
        encrypted_maps.set_user_rights(
            caller,
            (caller, name),
            readonly_caller,
            AccessRights::read_only(),
            0
        ),
        Ok(None)
    );

    assert_eq!(
        encrypted_maps.insert_encrypted_value(readonly_caller, (caller, name), key, new_value, 0),
        Err("unauthorized".to_string())
    );
}

#[test]
fn can_get_owned_map_names() {
    let rng = &mut reproducible_rng();
    let caller = random_self_authenticating_principal(rng);
    let mut encrypted_maps = random_encrypted_maps(rng);

    let mut expected_map_names = vec![];

    for _ in 0..7 {
        let map_names = encrypted_maps.get_owned_non_empty_map_names(caller);
        assert_eq!(map_names.len(), expected_map_names.len());
        for map_name in expected_map_names.iter() {
            assert!(map_names.contains(map_name));
        }

        let name = random_name(rng);
        expected_map_names.push(name);

        for _ in 1..3 {
            let key = random_key(rng);
            let value = random_bytebuf(rng, 0..2_000_000);
            encrypted_maps
                .insert_encrypted_value(caller, (caller, name), key, value.clone(), 0)
                .unwrap();
        }

        let map_names = encrypted_maps.get_owned_non_empty_map_names(caller);
        assert_eq!(map_names.len(), expected_map_names.len());
        for map_name in expected_map_names.iter() {
            assert!(map_names.contains(map_name));
        }

        let should_remove_map = rng.gen_bool(0.2);

        if should_remove_map {
            encrypted_maps
                .remove_map_values_legacy(caller, (caller, name), 0)
                .unwrap();
            expected_map_names.pop();
        }
    }
}
