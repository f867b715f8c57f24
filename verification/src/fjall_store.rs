//! Persistent key/value backend on a Fjall LSM partition.
//!
//! The partition itself stays Fjall's: every read and write goes through it.
//! What the store holds is named by [`partition_entries`]; the wrappers below
//! state how each call changes or reads that map.

use vstd::prelude::*;
use fjall::{Keyspace, PartitionHandle};
use crate::storage::{KvBackend, StorageError};

verus! {

#[verifier::external_type_specification]
#[verifier::external_body]
pub struct ExKeyspace(fjall::Keyspace);

#[verifier::external_type_specification]
#[verifier::external_body]
pub struct ExPartitionHandle(fjall::PartitionHandle);

/// The live key/value pairs of a Fjall partition.
pub uninterp spec fn partition_entries(p: PartitionHandle) -> Map<Seq<u8>, Seq<u8>>;

/// Longest key a Fjall partition accepts (`lsm_tree::InternalKey::new` asserts it).
pub const MAX_KEY_LEN: usize = 65535;

/// Longest value a Fjall partition accepts.
pub const MAX_VALUE_LEN: usize = 0xffff_ffff;

/// Partition names Fjall accepts: 1 to 255 characters, each alphanumeric or
/// one of `_ - # $`.
pub open spec fn partition_name_ok(name: Seq<char>) -> bool {
    &&& 1 <= name.len() <= 255
    &&& forall|i: int|
        0 <= i < name.len() ==> {
            let c = #[trigger] name[i];
            ('a' <= c <= 'z') || ('A' <= c <= 'Z') || ('0' <= c <= '9') || c == '_' || c == '-' || c == '#'
                || c == '$'
        }
}

/// Opens (creating if needed) the Fjall keyspace at `path`
/// (`fjall::Config::new(path).open()`).
///
/// Trusted: a failure comes back as a backend error. What is on disk is not
/// described, so nothing is claimed of the keyspace's contents.
#[verifier::external_body]
fn keyspace_open(path: &str) -> (r: Result<Keyspace, StorageError>)
    ensures
        r matches Err(e) ==> e is Backend,
{
    match fjall::Config::new(path).open() {
        Ok(k) => Ok(k),
        Err(e) => Err(StorageError::Backend(e.to_string())),
    }
}

/// Opens (creating if needed) the partition `name` of `keyspace`
/// (`Keyspace::open_partition` with default options).
///
/// Trusted: a failure comes back as a backend error; `open_partition` panics
/// on a name Fjall does not accept, which `requires` rules out. Nothing is
/// claimed of what the partition already holds.
#[verifier::external_body]
fn keyspace_open_partition(keyspace: &Keyspace, name: &str) -> (r: Result<PartitionHandle, StorageError>)
    requires
        partition_name_ok(name@),
    ensures
        r matches Err(e) ==> e is Backend,
{
    match keyspace.open_partition(name, fjall::PartitionCreateOptions::default()) {
        Ok(p) => Ok(p),
        Err(e) => Err(StorageError::Backend(e.to_string())),
    }
}

/// Writes `key -> value` (`PartitionHandle::insert`).
///
/// Trusted: on success the partition holds `value` under `key` and is
/// otherwise unchanged. An empty key makes `insert` panic, which `requires`
/// rules out. On failure the write happened or did not: `insert`
/// can fail after its memtable write, when a memtable rotation fails.
#[verifier::external_body]
fn partition_insert(p: &mut PartitionHandle, key: &[u8], value: &[u8]) -> (r: Result<(), StorageError>)
    requires
        1 <= key@.len() <= MAX_KEY_LEN,
        value@.len() <= MAX_VALUE_LEN,
    ensures
        r is Ok ==> partition_entries(*final(p)) == partition_entries(*old(p)).insert(key@, value@),
        r is Err ==> partition_entries(*final(p)) == partition_entries(*old(p)) || partition_entries(*final(p))
            == partition_entries(*old(p)).insert(key@, value@),
        r matches Err(e) ==> e is Backend,
{
    match p.insert(key, value) {
        Ok(()) => Ok(()),
        Err(e) => Err(StorageError::Backend(e.to_string())),
    }
}

/// Removes `key` (`PartitionHandle::remove`); removing an absent key is no error.
///
/// Trusted: on success the key is gone and nothing else changed. On failure
/// the removal happened or did not, as for [`partition_insert`]. An empty key
/// makes `remove` panic, which `requires` rules out.
#[verifier::external_body]
fn partition_remove(p: &mut PartitionHandle, key: &[u8]) -> (r: Result<(), StorageError>)
    requires
        1 <= key@.len() <= MAX_KEY_LEN,
    ensures
        r is Ok ==> partition_entries(*final(p)) == partition_entries(*old(p)).remove(key@),
        r is Err ==> partition_entries(*final(p)) == partition_entries(*old(p)) || partition_entries(*final(p))
            == partition_entries(*old(p)).remove(key@),
        r matches Err(e) ==> e is Backend,
{
    match p.remove(key) {
        Ok(()) => Ok(()),
        Err(e) => Err(StorageError::Backend(e.to_string())),
    }
}

/// Reads `key` (`PartitionHandle::get`), copying the value out.
///
/// Trusted: a successful read gives the value the partition holds under
/// `key`, or `None` when it holds none.
#[verifier::external_body]
fn partition_get(p: &PartitionHandle, key: &[u8]) -> (r: Result<Option<Vec<u8>>, StorageError>)
    requires
        key@.len() <= MAX_KEY_LEN,
    ensures
        r matches Ok(o) ==> (o is Some <==> partition_entries(*p).contains_key(key@)),
        r matches Ok(Some(v)) ==> v@ == partition_entries(*p)[key@],
        r matches Err(e) ==> e is Backend,
{
    match p.get(key) {
        Ok(Some(v)) => Ok(Some(v.to_vec())),
        Ok(None) => Ok(None),
        Err(e) => Err(StorageError::Backend(e.to_string())),
    }
}

/// Seals the active memtable and waits until it is flushed to disk
/// (`PartitionHandle::rotate_memtable_and_wait`).
///
/// Trusted: a failure comes back as a backend error. The partition's
/// contents are not changed by a flush.
#[verifier::external_body]
fn partition_flush(p: &PartitionHandle) -> (r: Result<(), StorageError>)
    ensures
        r matches Err(e) ==> e is Backend,
{
    match p.rotate_memtable_and_wait() {
        Ok(()) => Ok(()),
        Err(e) => Err(StorageError::Backend(e.to_string())),
    }
}

/// Persistent LSM key/value backend built on Fjall.
pub struct FjallStore {
    _keyspace: Keyspace,
    partition: PartitionHandle,
}

impl FjallStore {
    /// Open (creating if needed) a world store rooted at `path`: its
    /// sub-chunks live in the partition `subchunks`.
    ///
    /// What the store already holds is whatever is on disk, so the contract
    /// says only how a failure is reported.
    pub fn open(path: &str) -> (r: Result<Self, StorageError>)
        ensures
            r matches Err(e) ==> e is Backend,
    {
        let keyspace = keyspace_open(path)?;
        let name = "subchunks";
        proof {
            reveal_strlit("subchunks");
            assert(partition_name_ok(name@));
        }
        let partition = keyspace_open_partition(&keyspace, name)?;
        Ok(FjallStore { _keyspace: keyspace, partition })
    }
}

impl KvBackend for FjallStore {
    closed spec fn kv(&self) -> Map<Seq<u8>, Seq<u8>> {
        partition_entries(self.partition)
    }

    /// Disk writes can fail.
    open spec fn infallible(&self) -> bool {
        false
    }

    fn put(&mut self, key: &[u8], value: &[u8]) -> (r: Result<(), StorageError>)
        ensures
            key@.len() == 0 || key@.len() > MAX_KEY_LEN || value@.len() > MAX_VALUE_LEN ==> r is Err
                && final(self).kv() == old(self).kv(),
            r matches Err(e) ==> e is Backend,
    {
        if key.len() == 0 {
            return Err(StorageError::Backend("empty key".to_string()));
        }
        if key.len() > MAX_KEY_LEN || value.len() > MAX_VALUE_LEN {
            return Err(StorageError::Backend("key or value too long for the partition".to_string()));
        }
        partition_insert(&mut self.partition, key, value)
    }

    fn get(&self, key: &[u8]) -> (r: Result<Option<Vec<u8>>, StorageError>) {
        if key.len() > MAX_KEY_LEN {
            return Err(StorageError::Backend("key too long for the partition".to_string()));
        }
        partition_get(&self.partition, key)
    }

    fn delete(&mut self, key: &[u8]) -> (r: Result<(), StorageError>)
        ensures
            key@.len() == 0 || key@.len() > MAX_KEY_LEN ==> r is Err && final(self).kv() == old(self).kv(),
            r matches Err(e) ==> e is Backend,
    {
        if key.len() == 0 {
            return Err(StorageError::Backend("empty key".to_string()));
        }
        if key.len() > MAX_KEY_LEN {
            return Err(StorageError::Backend("key too long for the partition".to_string()));
        }
        partition_remove(&mut self.partition, key)
    }

    fn flush(&self) -> (r: Result<(), StorageError>)
        ensures
            r matches Err(e) ==> e is Backend,
    {
        partition_flush(&self.partition)
    }
}

} // verus!
