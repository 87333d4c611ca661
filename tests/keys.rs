use sd_crypto::keys::{HashingAlgorithm, KeyAddArgs, OnboardingKeys, Params};

#[test]
fn onboarding_keys_encode_secret_key() {
    let k = OnboardingKeys::new("correct horse".to_string(), b"hello");
    assert_eq!(k.master_password, "correct horse");
    assert_eq!(k.secret_key, "aGVsbG8=");
}

#[test]
fn onboarding_keys_lengths() {
    assert_eq!(OnboardingKeys::new(String::new(), b"").secret_key, "");
    assert_eq!(OnboardingKeys::new(String::new(), &[0xffu8; 18]).secret_key.len(), 24);
    assert_eq!(OnboardingKeys::new(String::new(), &[0u8; 2]).secret_key, "AAA=");
}

#[test]
fn hashing_algorithms_compare_by_level() {
    assert_eq!(HashingAlgorithm::Argon2id(Params::Standard), HashingAlgorithm::Argon2id(Params::Standard));
    assert_ne!(HashingAlgorithm::Argon2id(Params::Standard), HashingAlgorithm::Argon2id(Params::Hardened));
    assert_ne!(HashingAlgorithm::Argon2id(Params::Paranoid), HashingAlgorithm::BalloonBlake3(Params::Paranoid));
}

use sd_crypto::keys::{backup_records, StoredKey};
use sd_crypto::stream::Algorithm;
use sd_crypto::error::Error;
use sd_crypto::keys::{contains_uuid, records_to_import, set_default};

fn record(id: u128, memory_only: bool) -> StoredKey {
    StoredKey {
        uuid: id,
        algorithm: Algorithm::XChaCha20Poly1305,
        hashing_algorithm: HashingAlgorithm::Argon2id(Params::Standard),
        content_salt: vec![1; 16],
        master_key_nonce: vec![2; 20],
        encrypted_master_key: vec![3; 48],
        key_nonce: vec![4; 20],
        encrypted_key: vec![5; 48],
        salt: vec![6; 16],
        memory_only,
        automount: false,
        favorite: false,
        name: None,
        default: false,
    }
}

#[test]
fn backup_keeps_persistent_records_and_verification_key() {
    let keys = vec![record(1, false), record(2, true), record(3, false)];
    let out = backup_records(keys, record(0, false));
    let ids: Vec<u128> = out.iter().map(|k| k.uuid).collect();
    assert_eq!(ids, vec![1, 3, 0]);
}

#[test]
fn backup_of_memory_only_keystore() {
    let out = backup_records(vec![record(5, true)], record(0, true));
    assert!(out.is_empty());
    let out = backup_records(Vec::new(), record(0, false));
    assert_eq!(out.len(), 1);
    assert_eq!(out[0].uuid, 0);
}

#[test]
fn set_default_leaves_exactly_one_default() {
    let mut keys = vec![record(1, false), record(2, false), record(3, true)];
    keys[0].default = true;
    keys[2].default = true;
    assert_eq!(set_default(&mut keys, 2), Ok(()));
    let defaults: Vec<u128> = keys.iter().filter(|k| k.default).map(|k| k.uuid).collect();
    assert_eq!(defaults, vec![2]);
    let ids: Vec<u128> = keys.iter().map(|k| k.uuid).collect();
    assert_eq!(ids, vec![1, 2, 3]);
    assert!(keys[2].memory_only);
}

#[test]
fn set_default_of_unknown_key() {
    let mut keys = vec![record(1, false)];
    keys[0].default = true;
    assert_eq!(set_default(&mut keys, 9), Err(Error::KeyNotFound));
    assert!(keys[0].default);
    let mut empty: Vec<StoredKey> = Vec::new();
    assert_eq!(set_default(&mut empty, 1), Err(Error::KeyNotFound));
}

#[test]
fn restore_skips_colliding_uuids() {
    let keystore = vec![record(1, false), record(2, false)];
    let backup = vec![record(2, false), record(3, false), record(0, false), record(1, false)];
    let installed = records_to_import(&keystore, backup);
    let ids: Vec<u128> = installed.iter().map(|k| k.uuid).collect();
    assert_eq!(ids, vec![3]);
    assert_eq!(installed.len(), 1);
}

#[test]
fn restore_into_empty_keystore_installs_all() {
    let backup = vec![record(7, false), record(8, false)];
    assert_eq!(records_to_import(&Vec::new(), backup).len(), 2);
    assert!(contains_uuid(&vec![record(7, false)], 7));
    assert!(!contains_uuid(&vec![record(7, false)], 8));
}

#[test]
fn backup_wipe_restore_counts_user_records() {
    let keys = vec![record(1, false), record(2, true), record(3, false)];
    let backup = backup_records(keys, record(0, false));
    assert_eq!(backup.len(), 3);
    let installed = records_to_import(&Vec::new(), backup);
    let ids: Vec<u128> = installed.iter().map(|k| k.uuid).collect();
    assert_eq!(ids, vec![1, 3]);
}

#[test]
fn restore_of_backup_without_user_keys_installs_nothing() {
    let backup = backup_records(Vec::new(), record(0, false));
    assert!(records_to_import(&Vec::new(), backup).is_empty());
}

#[test]
fn set_default_with_shared_uuid_marks_only_the_first() {
    let mut keys = vec![record(4, false), record(2, false), record(2, false)];
    assert_eq!(set_default(&mut keys, 2), Ok(()));
    let defaults: Vec<bool> = keys.iter().map(|k| k.default).collect();
    assert_eq!(defaults, vec![false, true, false]);
}

#[test]
fn add_plan_follows_library_sync() {
    let args = |library_sync, automount| KeyAddArgs {
        algorithm: Algorithm::Aes256Gcm,
        hashing_algorithm: HashingAlgorithm::BalloonBlake3(Params::Standard),
        key: "secret".to_string(),
        library_sync,
        automount,
    };
    let p = args(true, true).plan();
    assert!(!p.memory_only && p.write_to_store && p.set_automount_in_store);
    let p = args(true, false).plan();
    assert!(!p.memory_only && p.write_to_store && !p.set_automount_in_store);
    let p = args(false, true).plan();
    assert!(p.memory_only && !p.write_to_store && !p.set_automount_in_store);
}

#[test]
fn only_persistent_records_are_in_store() {
    assert!(record(1, false).in_store());
    assert!(!record(1, true).in_store());
}
