//! The arguments and results of the key-management operations that a client
//! can call: unlocking, onboarding, adding keys, rekeying and backups.
use crate::error::Error;
use crate::stream::Algorithm;
use vstd::prelude::*;

verus! {

#[verifier::external_type_specification]
#[verifier::external_body]
pub struct ExPathBuf(std::path::PathBuf);

/// Cost levels of a password hashing function.
#[derive(Clone, Copy, Debug, PartialEq, Eq, Structural)]
pub enum Params {
    Standard,
    Hardened,
    Paranoid,
}

/// Password hashing function, with its cost level.
#[derive(Clone, Copy, Debug, PartialEq, Eq, Structural)]
pub enum HashingAlgorithm {
    Argon2id(Params),
    BalloonBlake3(Params),
}

/// A user key to register: its material, how to protect it, whether it is
/// written to the library and whether it is mounted on unlock.
pub struct KeyAddArgs {
    pub algorithm: Algorithm,
    pub hashing_algorithm: HashingAlgorithm,
    pub key: String,
    pub library_sync: bool,
    pub automount: bool,
}

/// What adding a key does besides registering it with the key manager (which
/// then mounts it).
pub struct KeyAddPlan {
    /// The key lives in memory only: it is not synced to the library.
    pub memory_only: bool,
    /// The stored record is written to the library's store.
    pub write_to_store: bool,
    /// The store's record is marked for mounting on unlock.
    pub set_automount_in_store: bool,
}

impl KeyAddArgs {
    /// How the key of these arguments is kept: in memory only unless it is
    /// synced to the library; written to the store only when synced; marked
    /// for automount in the store only when synced and asked for.
    pub fn plan(&self) -> (r: KeyAddPlan)
        ensures
            r.memory_only == !self.library_sync,
            r.write_to_store == self.library_sync,
            r.set_automount_in_store == (self.library_sync && self.automount),
    {
        KeyAddPlan {
            memory_only: !self.library_sync,
            write_to_store: self.library_sync,
            set_automount_in_store: self.library_sync && self.automount,
        }
    }
}

/// A new display name for a stored key.
pub struct KeyNameUpdateArgs {
    /// The key's uuid, as its 128-bit value.
    pub uuid: u128,
    pub name: String,
}

/// The master password and secret key that unlock the key manager.
pub struct SetMasterPasswordArgs {
    pub password: String,
    pub secret_key: String,
}

/// The credentials of a backup, and the file that holds it.
pub struct RestoreBackupArgs {
    pub password: String,
    pub secret_key: String,
    pub path: std::path::PathBuf,
}

/// The algorithms that onboarding sets the key manager up with.
pub struct OnboardingArgs {
    pub algorithm: Algorithm,
    pub hashing_algorithm: HashingAlgorithm,
}

/// A new master password, and the algorithms to rewrap every key with.
pub struct MasterPasswordChangeArgs {
    pub password: String,
    pub algorithm: Algorithm,
    pub hashing_algorithm: HashingAlgorithm,
}

/// What onboarding hands to the user, once: the master password, and the
/// secret key in base64.
pub struct OnboardingKeys {
    pub master_password: String,
    pub secret_key: String,
}

/// Whether a stored key is mounted when the key manager is unlocked.
pub struct AutomountUpdateArgs {
    /// The key's uuid, as its 128-bit value.
    pub uuid: u128,
    pub status: bool,
}

/// A key as the keystore holds it: the user's key wrapped under a fresh
/// master key, and that master key wrapped under the root key.
pub struct StoredKey {
    /// The key's uuid, as its 128-bit value.
    pub uuid: u128,
    pub algorithm: Algorithm,
    pub hashing_algorithm: HashingAlgorithm,
    pub content_salt: Vec<u8>,
    pub master_key_nonce: Vec<u8>,
    pub encrypted_master_key: Vec<u8>,
    pub key_nonce: Vec<u8>,
    pub encrypted_key: Vec<u8>,
    pub salt: Vec<u8>,
    pub memory_only: bool,
    pub automount: bool,
    pub favorite: bool,
    pub name: Option<String>,
    pub default: bool,
}

impl StoredKey {
    /// Whether the library's store holds this record: only a record that is
    /// not memory-only. Its automount flag is changed, and it is deleted from
    /// the store, only then.
    pub fn in_store(&self) -> (r: bool)
        ensures
            r == !self.memory_only,
    {
        !self.memory_only
    }
}

/// The records of `keys` that may be written out, in their order: those
/// that do not live in memory only.
pub open spec fn persistent_records(keys: Seq<StoredKey>) -> Seq<StoredKey> {
    keys.filter(|k: StoredKey| !k.memory_only)
}

/// The records that a backup of the keystore holds: the listed keys, then
/// the verification key at the time of the backup, leaving out every record
/// that lives in memory only.
pub fn backup_records(keys: Vec<StoredKey>, verification_key: StoredKey) -> (r: Vec<StoredKey>)
    ensures
        r@ == persistent_records(keys@.push(verification_key)),
{
    let ghost all = keys@.push(verification_key);
    let mut rest = keys;
    rest.push(verification_key);
    let mut kept: Vec<StoredKey> = Vec::new();
    let ghost taken: nat = 0;
    proof {
        assert(all.take(0) =~= Seq::<StoredKey>::empty());
        reveal(Seq::filter);
        assert(rest@ =~= all.skip(0));
    }
    while rest.len() > 0
        invariant
            taken <= all.len(),
            rest@ == all.skip(taken as int),
            kept@ == persistent_records(all.take(taken as int)),
        decreases rest.len(),
    {
        let k = rest.remove(0);
        proof {
            assert(all.take((taken + 1) as int) =~= all.take(taken as int).push(k));
            all.take(taken as int).lemma_filter_push(k, |k: StoredKey| !k.memory_only);
            assert(rest@ =~= all.skip((taken + 1) as int));
        }
        if !k.memory_only {
            kept.push(k);
        }
        proof {
            taken = taken + 1;
        }
    }
    proof {
        assert(all.take(taken as int) =~= all);
    }
    kept
}

/// No two records of `keys` share a uuid.
pub open spec fn unique_uuids(keys: Seq<StoredKey>) -> bool {
    forall|i: int, j: int| 0 <= i < keys.len() && 0 <= j < keys.len() && i != j ==> keys[i].uuid != keys[j].uuid
}

/// At most one record of `keys` is the default.
pub open spec fn at_most_one_default(keys: Seq<StoredKey>) -> bool {
    forall|i: int, j: int| 0 <= i < keys.len() && 0 <= j < keys.len() && keys[i].default && keys[j].default ==> i == j
}

/// Some record of `keys` has `uuid`.
pub open spec fn has_uuid(keys: Seq<StoredKey>, uuid: u128) -> bool {
    exists|i: int| 0 <= i < keys.len() && keys[i].uuid == uuid
}

/// `k` is `old` with at most its default flag changed.
pub open spec fn same_but_default(k: StoredKey, old: StoredKey) -> bool {
    &&& k.uuid == old.uuid
    &&& k.algorithm == old.algorithm
    &&& k.hashing_algorithm == old.hashing_algorithm
    &&& k.content_salt@ == old.content_salt@
    &&& k.master_key_nonce@ == old.master_key_nonce@
    &&& k.encrypted_master_key@ == old.encrypted_master_key@
    &&& k.key_nonce@ == old.key_nonce@
    &&& k.encrypted_key@ == old.encrypted_key@
    &&& k.salt@ == old.salt@
    &&& k.memory_only == old.memory_only
    &&& k.automount == old.automount
    &&& k.favorite == old.favorite
    &&& k.name == old.name
}

/// Makes the record with `uuid` the one default record, and every other
/// record not the default; should two records share `uuid`, the first of
/// them becomes the default. Whatever the records were before, at most one is
/// the default afterwards. Fails with `KeyNotFound`, changing nothing, when
/// no record has `uuid`.
pub fn set_default(keys: &mut Vec<StoredKey>, uuid: u128) -> (r: Result<(), Error>)
    ensures
        r is Ok <==> has_uuid(old(keys)@, uuid),
        r is Err ==> r == Err::<(), Error>(Error::KeyNotFound) && final(keys)@ == old(keys)@,
        r is Ok ==> final(keys)@.len() == old(keys)@.len(),
        r is Ok ==> forall|i: int|
            0 <= i < old(keys)@.len() ==> #[trigger] same_but_default(final(keys)@[i], old(keys)@[i]),
        r is Ok ==> forall|i: int|
            0 <= i < final(keys)@.len() && #[trigger] final(keys)@[i].default ==> final(keys)@[i].uuid == uuid,
        r is Ok ==> exists|i: int| 0 <= i < final(keys)@.len() && #[trigger] final(keys)@[i].default,
        r is Ok ==> at_most_one_default(final(keys)@),
        r is Ok && unique_uuids(old(keys)@) ==> forall|i: int|
            0 <= i < final(keys)@.len() ==> (#[trigger] final(keys)@[i].default <==> final(keys)@[i].uuid == uuid),
{
    let mut found = false;
    let mut at: usize = 0;
    let mut i: usize = 0;
    while i < keys.len()
        invariant
            i <= keys@.len(),
            found ==> at < keys@.len() && keys@[at as int].uuid == uuid,
            !found ==> forall|j: int| 0 <= j < i ==> keys@[j].uuid != uuid,
        decreases keys@.len() - i,
    {
        if !found && keys[i].uuid == uuid {
            found = true;
            at = i;
        }
        i = i + 1;
    }
    if !found {
        return Err(Error::KeyNotFound);
    }
    let ghost before = keys@;
    let mut rest: Vec<StoredKey> = Vec::new();
    std::mem::swap(keys, &mut rest);
    let mut done: Vec<StoredKey> = Vec::new();
    proof {
        assert(rest@ =~= before.skip(0));
    }
    while rest.len() > 0
        invariant
            at < before.len(),
            before[at as int].uuid == uuid,
            done@.len() + rest@.len() == before.len(),
            rest@ == before.skip(done@.len() as int),
            forall|j: int| 0 <= j < done@.len() ==> #[trigger] same_but_default(done@[j], before[j]),
            forall|j: int| 0 <= j < done@.len() ==> (#[trigger] done@[j].default <==> j == at),
        decreases rest.len(),
    {
        let n = done.len();
        let mut k = rest.remove(0);
        k.default = n == at;
        done.push(k);
        proof {
            assert(rest@ =~= before.skip((n + 1) as int));
            assert(same_but_default(done@[n as int], before[n as int]));
        }
    }
    *keys = done;
    proof {
        assert(keys@[at as int].default);
        assert forall|a: int| 0 <= a < keys@.len() && #[trigger] keys@[a].default implies keys@[a].uuid == uuid by {
            assert(same_but_default(keys@[a], before[a]));
        }
        assert forall|a: int|
            0 <= a < keys@.len() && unique_uuids(before) implies (#[trigger] keys@[a].default <==> keys@[a].uuid == uuid) by {
            assert(same_but_default(keys@[a], before[a]));
        }
    }
    Ok(())
}

/// The uuid of the verification record, the nil uuid: a backup carries that
/// record only so that its password can be checked, never as a user key.
pub const VERIFICATION_UUID: u128 = 0;

/// The user records of a backup that restoring it installs, in their order:
/// those that are not the verification record and whose uuid no record of
/// the keystore has.
pub open spec fn importable_records(keystore: Seq<StoredKey>, backup: Seq<StoredKey>) -> Seq<StoredKey> {
    backup.filter(|k: StoredKey| k.uuid != VERIFICATION_UUID && !has_uuid(keystore, k.uuid))
}

/// Whether some record of `keystore` has `uuid`.
pub fn contains_uuid(keystore: &Vec<StoredKey>, uuid: u128) -> (r: bool)
    ensures
        r == has_uuid(keystore@, uuid),
{
    let mut i: usize = 0;
    while i < keystore.len()
        invariant
            i <= keystore@.len(),
            forall|j: int| 0 <= j < i ==> keystore@[j].uuid != uuid,
        decreases keystore@.len() - i,
    {
        if keystore[i].uuid == uuid {
            return true;
        }
        i = i + 1;
    }
    false
}

/// The records of `backup` to install into `keystore` on a restore: the
/// verification record, and every record whose uuid is already in the
/// keystore, are skipped. How many user records the restore installed is the
/// length of the result.
pub fn records_to_import(keystore: &Vec<StoredKey>, backup: Vec<StoredKey>) -> (r: Vec<StoredKey>)
    ensures
        r@ == importable_records(keystore@, backup@),
{
    let ghost all = backup@;
    let mut rest = backup;
    let mut kept: Vec<StoredKey> = Vec::new();
    let ghost taken: nat = 0;
    proof {
        reveal(Seq::filter);
        assert(all.take(0) =~= Seq::<StoredKey>::empty());
        assert(rest@ =~= all.skip(0));
    }
    while rest.len() > 0
        invariant
            taken <= all.len(),
            rest@ == all.skip(taken as int),
            kept@ == importable_records(keystore@, all.take(taken as int)),
        decreases rest.len(),
    {
        let k = rest.remove(0);
        proof {
            assert(all.take((taken + 1) as int) =~= all.take(taken as int).push(k));
            all.take(taken as int).lemma_filter_push(
                k,
                |k: StoredKey| k.uuid != VERIFICATION_UUID && !has_uuid(keystore@, k.uuid),
            );
            assert(rest@ =~= all.skip((taken + 1) as int));
        }
        if k.uuid != VERIFICATION_UUID && !contains_uuid(keystore, k.uuid) {
            kept.push(k);
        }
        proof {
            taken = taken + 1;
        }
    }
    proof {
        assert(all.take(taken as int) =~= all);
    }
    kept
}

/// Standard padded base64 text of `bytes`.
pub uninterp spec fn base64_of(bytes: Seq<u8>) -> Seq<char>;

/// Relies on `base64::encode`: the standard alphabet with padding, four
/// characters for every three bytes or part of three.
#[verifier::external_body]
fn base64_encode(bytes: &[u8]) -> (r: String)
    requires
        bytes@.len() <= usize::MAX / 2,
    ensures
        r@ == base64_of(bytes@),
        r@.len() == 4 * ((bytes@.len() + 2) / 3),
{
    base64::encode(bytes)
}

impl OnboardingKeys {
    /// The keys to show the user after onboarding: the master password as it
    /// is, and the secret key encoded in base64.
    pub fn new(master_password: String, secret_key: &[u8]) -> (r: OnboardingKeys)
        requires
            secret_key@.len() <= usize::MAX / 2,
        ensures
            r.master_password@ == master_password@,
            r.secret_key@ == base64_of(secret_key@),
            r.secret_key@.len() == 4 * ((secret_key@.len() + 2) / 3),
    {
        OnboardingKeys { master_password, secret_key: base64_encode(secret_key) }
    }
}

} // verus!
