//! World storage: a key/value backend keyed by the 9-byte sub-chunk key,
//! holding Zstandard-compressed sub-chunk blobs.

use vstd::prelude::*;
use crate::format::{
    FormatError, SubChunkKey, blob_check, decodes_to, deserialize_subchunk, key_bytes, serialize_subchunk,
    subchunk_blob,
};
use crate::subchunk::SubChunk;

verus! {

/// Errors from the storage layer.
#[derive(Debug)]
pub enum StorageError {
    /// The stored blob could not be decoded.
    Format(FormatError),
    /// Compression / decompression failed.
    Codec(String),
    /// The underlying KV backend failed.
    Backend(String),
}

/// The Zstandard frame `zstd::encode_all` produces for `raw` at level 3.
pub uninterp spec fn zstd_frame(raw: Seq<u8>) -> Seq<u8>;

/// Zstandard-compress `raw` at level 3 (`zstd::encode_all`).
///
/// Trusted: the result is named [`zstd_frame`] of the input. `encode_all`
/// reads from a byte slice into a `Vec` at a valid level, so it fails only
/// through zstd's own C calls, which such a call cannot trip short of
/// running out of memory; the error arm keeps the text as a codec error.
#[verifier::external_body]
fn zstd_encode(raw: &[u8]) -> (r: Result<Vec<u8>, StorageError>)
    ensures
        r is Ok,
        r matches Ok(c) ==> c@ == zstd_frame(raw@),
{
    match zstd::encode_all(raw, 3) {
        Ok(v) => Ok(v),
        Err(e) => Err(StorageError::Codec(e.to_string())),
    }
}

/// Decompress a Zstandard stream (`zstd::decode_all`).
///
/// Trusted: Zstandard is lossless, so a stream that is the frame of some
/// input decodes back to exactly that input. Nothing is claimed of the
/// output for other streams beyond it being a codec error when it fails.
#[verifier::external_body]
fn zstd_decode(data: &[u8]) -> (r: Result<Vec<u8>, StorageError>)
    ensures
        r is Ok || !(exists|x: Seq<u8>| data@ == zstd_frame(x)),
        r matches Ok(d) ==> (forall|x: Seq<u8>| data@ == zstd_frame(x) ==> d@ == x),
        r matches Err(e) ==> e is Codec,
{
    match zstd::decode_all(data) {
        Ok(v) => Ok(v),
        Err(e) => Err(StorageError::Codec(e.to_string())),
    }
}

/// Compress a raw blob with Zstandard.
pub fn compress(raw: &[u8]) -> (r: Result<Vec<u8>, StorageError>)
    ensures
        r matches Ok(c) && c@ == zstd_frame(raw@),
{
    zstd_encode(raw)
}

/// Inverse of [`compress`].
pub fn decompress(data: &[u8]) -> (r: Result<Vec<u8>, StorageError>)
    ensures
        forall|x: Seq<u8>| data@ == zstd_frame(x) ==> (r matches Ok(d) && d@ == x),
        r matches Err(e) ==> e is Codec,
{
    zstd_decode(data)
}

/// A minimal key/value store. Keys are the 9-byte sub-chunk key encoding;
/// values are compressed sub-chunk blobs.
pub trait KvBackend {
    /// The stored key/value pairs.
    spec fn kv(&self) -> Map<Seq<u8>, Seq<u8>>;

    /// Whether the backend never fails (it holds its pairs in memory).
    spec fn infallible(&self) -> bool;

    /// Insert or overwrite `key`.
    fn put(&mut self, key: &[u8], value: &[u8]) -> (r: Result<(), StorageError>)
        ensures
            final(self).infallible() == old(self).infallible(),
            old(self).infallible() ==> r is Ok,
            r is Ok ==> final(self).kv() == old(self).kv().insert(key@, value@),
            r is Err ==> final(self).kv() == old(self).kv() || final(self).kv() == old(self).kv().insert(key@, value@),
    ;

    /// Fetch `key`, or `None` if absent.
    fn get(&self, key: &[u8]) -> (r: Result<Option<Vec<u8>>, StorageError>)
        ensures
            r matches Ok(o) ==> (o is Some <==> self.kv().contains_key(key@)),
            r matches Ok(Some(v)) ==> v@ == self.kv()[key@],
            r matches Err(e) ==> e is Backend,
            self.infallible() ==> r is Ok,
    ;

    /// Remove `key` (no error if absent).
    fn delete(&mut self, key: &[u8]) -> (r: Result<(), StorageError>)
        ensures
            final(self).infallible() == old(self).infallible(),
            old(self).infallible() ==> r is Ok,
            r is Ok ==> final(self).kv() == old(self).kv().remove(key@),
            r is Err ==> final(self).kv() == old(self).kv() || final(self).kv() == old(self).kv().remove(key@),
    ;

    /// Flush any buffered writes to durable storage. A backend that
    /// buffers nothing has nothing to flush, and succeeds.
    fn flush(&self) -> (r: Result<(), StorageError>)
        ensures
            self.infallible() ==> r is Ok,
        default_ensures
            r is Ok,
    {
        Ok(())
    }
}

fn bytes_eq(a: &[u8], b: &[u8]) -> (r: bool)
    ensures
        r == (a@ == b@),
{
    if a.len() != b.len() {
        return false;
    }
    let mut i: usize = 0;
    while i < a.len()
        invariant
            a@.len() == b@.len(),
            i <= a@.len(),
            forall|j: int| 0 <= j < i ==> a@[j] == b@[j],
        decreases a@.len() - i,
    {
        if a[i] != b[i] {
            return false;
        }
        i += 1;
    }
    assert(a@ =~= b@);
    true
}

/// In-memory backend: a list of distinct keys with their values.
pub struct MemStore {
    entries: Vec<(Vec<u8>, Vec<u8>)>,
}

impl MemStore {
    /// No key occurs twice.
    #[verifier::type_invariant]
    spec fn distinct_keys(&self) -> bool {
        forall|i: int, j: int|
            0 <= i < self.entries@.len() && 0 <= j < self.entries@.len() && i != j ==> (#[trigger] self.entries@[i]).0@
                != (#[trigger] self.entries@[j]).0@
    }

    closed spec fn keys_distinct(entries: Seq<(Vec<u8>, Vec<u8>)>) -> bool {
        forall|i: int, j: int|
            0 <= i < entries.len() && 0 <= j < entries.len() && i != j ==> (#[trigger] entries[i]).0@
                != (#[trigger] entries[j]).0@
    }

    closed spec fn has(entries: Seq<(Vec<u8>, Vec<u8>)>, k: Seq<u8>) -> bool {
        exists|i: int| 0 <= i < entries.len() && entries[i].0@ == k
    }

    closed spec fn pos_of(entries: Seq<(Vec<u8>, Vec<u8>)>, k: Seq<u8>) -> int {
        choose|i: int| 0 <= i < entries.len() && entries[i].0@ == k
    }

    closed spec fn map_of(entries: Seq<(Vec<u8>, Vec<u8>)>) -> Map<Seq<u8>, Seq<u8>> {
        Map::new(|k: Seq<u8>| Self::has(entries, k), |k: Seq<u8>| entries[Self::pos_of(entries, k)].1@)
    }

    /// The stored map.
    pub closed spec fn view(&self) -> Map<Seq<u8>, Seq<u8>> {
        Self::map_of(self.entries@)
    }

    /// Number of stored keys.
    pub closed spec fn spec_len(&self) -> nat {
        self.entries@.len()
    }

    proof fn lemma_pos(entries: Seq<(Vec<u8>, Vec<u8>)>, i: int)
        requires
            Self::keys_distinct(entries),
            0 <= i < entries.len(),
        ensures
            Self::has(entries, entries[i].0@),
            Self::pos_of(entries, entries[i].0@) == i,
            Self::map_of(entries).contains_key(entries[i].0@),
            Self::map_of(entries)[entries[i].0@] == entries[i].1@,
    {
        let j = Self::pos_of(entries, entries[i].0@);
        assert(0 <= j < entries.len() && entries[j].0@ == entries[i].0@);
    }

    proof fn lemma_len(entries: Seq<(Vec<u8>, Vec<u8>)>)
        requires
            Self::keys_distinct(entries),
        ensures
            Self::map_of(entries).dom().finite(),
            Self::map_of(entries).dom().len() == entries.len(),
    {
        let s = entries;
        let d = Self::map_of(entries).dom();
        let keys = Seq::new(s.len(), |i: int| s[i].0@);
        assert(keys.no_duplicates());
        assert forall|k: Seq<u8>| d.contains(k) <==> keys.to_set().contains(k) by {
            if d.contains(k) {
                let i = Self::pos_of(entries, k);
                assert(keys[i] == k);
            }
            if keys.to_set().contains(k) {
                let i = choose|i: int| 0 <= i < keys.len() && keys[i] == k;
                assert(entries[i].0@ == k);
            }
        }
        assert(d =~= keys.to_set());
        keys.unique_seq_to_set();
    }

    fn find(&self, key: &[u8]) -> (r: Option<usize>)
        ensures
            r matches Some(i) ==> i < self.entries@.len() && self.entries@[i as int].0@ == key@,
            r is None ==> !Self::has(self.entries@, key@),
    {
        let mut i: usize = 0;
        while i < self.entries.len()
            invariant
                i <= self.entries@.len(),
                forall|j: int| 0 <= j < i ==> self.entries@[j].0@ != key@,
            decreases self.entries@.len() - i,
        {
            if bytes_eq(self.entries[i].0.as_slice(), key) {
                return Some(i);
            }
            i += 1;
        }
        None
    }

    /// A fresh, empty store.
    pub fn new() -> (r: Self)
        ensures
            r.view() == Map::<Seq<u8>, Seq<u8>>::empty(),
            r.spec_len() == 0,
    {
        let r = Self { entries: Vec::new() };
        assert(r.view() =~= Map::<Seq<u8>, Seq<u8>>::empty());
        r
    }

    /// Number of stored keys.
    pub fn len(&self) -> (r: usize)
        ensures
            r == self.spec_len(),
            self.view().dom().finite(),
            r == self.view().dom().len(),
    {
        proof {
            use_type_invariant(self);
            Self::lemma_len(self.entries@);
        }
        self.entries.len()
    }

    /// Whether the store is empty.
    pub fn is_empty(&self) -> (r: bool)
        ensures
            r == (self.spec_len() == 0),
    {
        self.len() == 0
    }
}

impl KvBackend for MemStore {
    closed spec fn kv(&self) -> Map<Seq<u8>, Seq<u8>> {
        self.view()
    }

    open spec fn infallible(&self) -> bool {
        true
    }

    fn put(&mut self, key: &[u8], value: &[u8]) -> (r: Result<(), StorageError>)
        ensures
            r is Ok,
    {
        proof {
            use_type_invariant(&*self);
        }
        let ghost old_e = self.entries@;
        let k = vstd::slice::slice_to_vec(key);
        let v = vstd::slice::slice_to_vec(value);
        let found = self.find(key);
        let mut e: Vec<(Vec<u8>, Vec<u8>)> = Vec::new();
        std::mem::swap(&mut e, &mut self.entries);
        match found {
            Some(i) => {
                e.set(i, (k, v));
                proof {
                    let ne = e@;
                    assert(Self::keys_distinct(ne));
                    assert forall|q: Seq<u8>| Self::has(ne, q) == Self::map_of(old_e).insert(key@, value@).contains_key(q)
                        && (Self::has(ne, q) ==> ne[Self::pos_of(ne, q)].1@ == Self::map_of(old_e).insert(key@, value@)[q]) by {
                        if Self::has(ne, q) {
                            let j = Self::pos_of(ne, q);
                            Self::lemma_pos(ne, j);
                            if j != i {
                                Self::lemma_pos(old_e, j);
                            }
                        }
                        if Self::has(old_e, q) {
                            let j = Self::pos_of(old_e, q);
                            Self::lemma_pos(old_e, j);
                            Self::lemma_pos(ne, j);
                        }
                    }
                    assert(Self::map_of(ne) =~= Self::map_of(old_e).insert(key@, value@));
                }
            },
            None => {
                e.push((k, v));
                proof {
                    let ne = e@;
                    assert(Self::keys_distinct(ne));
                    let last = ne.len() - 1;
                    assert forall|q: Seq<u8>| Self::has(ne, q) == Self::map_of(old_e).insert(key@, value@).contains_key(q)
                        && (Self::has(ne, q) ==> ne[Self::pos_of(ne, q)].1@ == Self::map_of(old_e).insert(key@, value@)[q]) by {
                        if Self::has(ne, q) {
                            let j = Self::pos_of(ne, q);
                            Self::lemma_pos(ne, j);
                            if j != last {
                                Self::lemma_pos(old_e, j);
                            }
                        }
                        if Self::has(old_e, q) {
                            let j = Self::pos_of(old_e, q);
                            Self::lemma_pos(old_e, j);
                            Self::lemma_pos(ne, j);
                        }
                        if q == key@ {
                            Self::lemma_pos(ne, last);
                        }
                    }
                    assert(Self::map_of(ne) =~= Self::map_of(old_e).insert(key@, value@));
                }
            },
        }
        self.entries = e;
        Ok(())
    }

    fn get(&self, key: &[u8]) -> (r: Result<Option<Vec<u8>>, StorageError>)
        ensures
            r is Ok,
    {
        proof {
            use_type_invariant(self);
        }
        match self.find(key) {
            Some(i) => {
                proof {
                    Self::lemma_pos(self.entries@, i as int);
                }
                Ok(Some(vstd::slice::slice_to_vec(self.entries[i].1.as_slice())))
            },
            None => Ok(None),
        }
    }

    fn delete(&mut self, key: &[u8]) -> (r: Result<(), StorageError>)
        ensures
            r is Ok,
    {
        proof {
            use_type_invariant(&*self);
        }
        let ghost old_e = self.entries@;
        let found = self.find(key);
        let mut e: Vec<(Vec<u8>, Vec<u8>)> = Vec::new();
        std::mem::swap(&mut e, &mut self.entries);
        match found {
            Some(i) => {
                e.remove(i);
                proof {
                    let ne = e@;
                    assert(forall|j: int| 0 <= j < ne.len() ==> #[trigger] ne[j] == old_e[if j < i { j } else { j + 1 }]);
                    assert(Self::keys_distinct(ne));
                    assert forall|q: Seq<u8>| Self::has(ne, q) == Self::map_of(old_e).remove(key@).contains_key(q)
                        && (Self::has(ne, q) ==> ne[Self::pos_of(ne, q)].1@ == Self::map_of(old_e).remove(key@)[q]) by {
                        if Self::has(ne, q) {
                            let j = Self::pos_of(ne, q);
                            Self::lemma_pos(ne, j);
                            let oj = if j < i { j } else { j + 1 };
                            Self::lemma_pos(old_e, oj);
                            Self::lemma_pos(old_e, i as int);
                        }
                        if Self::has(old_e, q) && q != key@ {
                            let j = Self::pos_of(old_e, q);
                            Self::lemma_pos(old_e, j);
                            let nj = if j < i { j } else { j - 1 };
                            assert(ne[nj] == old_e[j]);
                            Self::lemma_pos(ne, nj);
                        }
                    }
                    assert(Self::map_of(ne) =~= Self::map_of(old_e).remove(key@));
                }
            },
            None => {
                proof {
                    assert(Self::map_of(old_e) =~= Self::map_of(old_e).remove(key@));
                }
            },
        }
        self.entries = e;
        Ok(())
    }
}

/// High-level world storage: sub-chunk `save` / `load` over a [`KvBackend`],
/// transparently serializing and (de)compressing blobs.
pub struct WorldStorage<B: KvBackend> {
    backend: B,
}

impl<B: KvBackend> WorldStorage<B> {
    /// The wrapped backend.
    pub closed spec fn spec_backend(&self) -> B {
        self.backend
    }

    /// The stored key/value pairs.
    pub open spec fn kv(&self) -> Map<Seq<u8>, Seq<u8>> {
        self.spec_backend().kv()
    }

    /// Whether the backend never fails.
    pub open spec fn infallible(&self) -> bool {
        self.spec_backend().infallible()
    }

    /// Wrap a backend.
    pub fn new(backend: B) -> (r: Self)
        ensures
            r.spec_backend() == backend,
    {
        Self { backend }
    }

    /// Borrow the underlying backend.
    pub fn backend(&self) -> (r: &B)
        ensures
            *r == self.spec_backend(),
    {
        &self.backend
    }

    /// Serialize, compress and store `sc` under `key`.
    pub fn save(&mut self, key: SubChunkKey, sc: &SubChunk) -> (r: Result<(), StorageError>)
        requires
            sc.wf(),
        ensures
            final(self).infallible() == old(self).infallible(),
            old(self).infallible() ==> r is Ok,
            r is Ok ==> final(self).kv() == old(self).kv().insert(key_bytes(key), zstd_frame(subchunk_blob(*sc))),
            r is Err ==> final(self).kv() == old(self).kv() || final(self).kv() == old(self).kv().insert(
                key_bytes(key),
                zstd_frame(subchunk_blob(*sc)),
            ),
    {
        let raw = serialize_subchunk(sc);
        let blob = compress(raw.as_slice())?;
        let k = key.encode();
        self.backend.put(k.as_slice(), blob.as_slice())
    }

    /// Load, decompress and deserialize the sub-chunk at `key`, if present.
    pub fn load(&self, key: SubChunkKey) -> (r: Result<Option<SubChunk>, StorageError>)
        ensures
            r matches Ok(None) ==> !self.kv().contains_key(key_bytes(key)),
            r matches Ok(Some(sc)) ==> self.kv().contains_key(key_bytes(key)) && sc.wf() && (forall|raw: Seq<u8>|
                self.kv()[key_bytes(key)] == zstd_frame(raw) ==> decodes_to(raw, sc)),
            forall|raw: Seq<u8>|
                self.kv().contains_key(key_bytes(key)) && self.kv()[key_bytes(key)] == zstd_frame(raw) ==> (r matches Err(e)
                    ==> (e is Backend || (e matches StorageError::Format(fe) && blob_check(raw) == Some(fe)))),
            forall|raw: Seq<u8>|
                self.kv().contains_key(key_bytes(key)) && self.kv()[key_bytes(key)] == zstd_frame(raw) ==> !(r matches Ok(None)),
            self.infallible() && !self.kv().contains_key(key_bytes(key)) ==> r matches Ok(None),
            forall|raw: Seq<u8>|
                self.infallible() && self.kv().contains_key(key_bytes(key)) && self.kv()[key_bytes(key)] == zstd_frame(raw)
                    && blob_check(raw) is None ==> (r matches Ok(Some(sc)) && decodes_to(raw, sc)),
            forall|saved: SubChunk|
                saved.wf() && self.infallible() && self.kv().contains_key(key_bytes(key)) && self.kv()[key_bytes(key)]
                    == zstd_frame(#[trigger] subchunk_blob(saved)) ==> (r matches Ok(Some(sc)) && sc.blocks()
                    == saved.blocks() && sc.props() == saved.props()),
    {
        let k = key.encode();
        match self.backend.get(k.as_slice())? {
            None => Ok(None),
            Some(blob) => {
                let raw = decompress(blob.as_slice())?;
                match deserialize_subchunk(raw.as_slice()) {
                    Ok(sc) => {
                        proof {
                            assert forall|saved: SubChunk|
                                saved.wf() && self.infallible() && self.kv().contains_key(key_bytes(key))
                                    && self.kv()[key_bytes(key)] == zstd_frame(#[trigger] subchunk_blob(saved)) implies sc.blocks()
                                    == saved.blocks() && sc.props() == saved.props() by {
                                lemma_load_after_save(&saved, &sc);
                            }
                        }
                        Ok(Some(sc))
                    },
                    Err(e) => {
                        proof {
                            assert forall|saved: SubChunk|
                                saved.wf() && self.infallible() && self.kv().contains_key(key_bytes(key))
                                    && self.kv()[key_bytes(key)] == zstd_frame(#[trigger] subchunk_blob(saved)) implies false by {
                                lemma_saved_blob_is_valid(&saved);
                            }
                        }
                        Err(StorageError::Format(e))
                    },
                }
            },
        }
    }

    /// Delete the sub-chunk at `key`.
    pub fn delete(&mut self, key: SubChunkKey) -> (r: Result<(), StorageError>)
        ensures
            final(self).infallible() == old(self).infallible(),
            old(self).infallible() ==> r is Ok,
            r is Ok ==> final(self).kv() == old(self).kv().remove(key_bytes(key)),
            r is Err ==> final(self).kv() == old(self).kv() || final(self).kv() == old(self).kv().remove(key_bytes(key)),
    {
        let k = key.encode();
        self.backend.delete(k.as_slice())
    }

    /// Flush buffered writes; a backend that never fails flushes successfully.
    pub fn flush(&self) -> (r: Result<(), StorageError>)
        ensures
            self.infallible() ==> r is Ok,
    {
        self.backend.flush()
    }
}

/// The store after `writes` in turn: each names a key and either the blob
/// a save put there or `None` for a delete.
pub open spec fn apply_writes(kv: Map<Seq<u8>, Seq<u8>>, writes: Seq<(SubChunkKey, Option<Seq<u8>>)>) -> Map<
    Seq<u8>,
    Seq<u8>,
>
    decreases writes.len(),
{
    if writes.len() == 0 {
        kv
    } else {
        let prev = apply_writes(kv, writes.drop_last());
        match writes.last().1 {
            Some(v) => prev.insert(key_bytes(writes.last().0), v),
            None => prev.remove(key_bytes(writes.last().0)),
        }
    }
}

/// Distinct keys have distinct encodings.
proof fn lemma_key_bytes_injective(a: SubChunkKey, b: SubChunkKey)
    ensures
        key_bytes(a) == key_bytes(b) ==> a == b,
{
    crate::format::lemma_key_round_trip(a);
    crate::format::lemma_key_round_trip(b);
}

/// What a load reads after a save, or a delete, of `key` and any writes to
/// other keys: the saved sub-chunk's blob is still stored under `key` (so a
/// load on a backend that never fails gives it back, same blocks and
/// properties), and a deleted key is still absent (so a load gives
/// `Ok(None)`).
pub proof fn lemma_read_after_write(
    kv: Map<Seq<u8>, Seq<u8>>,
    key: SubChunkKey,
    saved: SubChunk,
    writes: Seq<(SubChunkKey, Option<Seq<u8>>)>,
)
    requires
        forall|i: int| 0 <= i < writes.len() ==> (#[trigger] writes[i]).0 != key,
    ensures
        apply_writes(kv.insert(key_bytes(key), zstd_frame(subchunk_blob(saved))), writes).contains_key(key_bytes(key)),
        apply_writes(kv.insert(key_bytes(key), zstd_frame(subchunk_blob(saved))), writes)[key_bytes(key)]
            == zstd_frame(subchunk_blob(saved)),
        !apply_writes(kv.remove(key_bytes(key)), writes).contains_key(key_bytes(key)),
    decreases writes.len(),
{
    if writes.len() > 0 {
        let w = writes.drop_last();
        assert forall|i: int| 0 <= i < w.len() implies (#[trigger] w[i]).0 != key by {
            assert(w[i] == writes[i]);
        }
        lemma_read_after_write(kv, key, saved, w);
        lemma_key_bytes_injective(writes.last().0, key);
        assert(writes.last() == writes[writes.len() - 1]);
    }
}

/// What a load gives back of a save: a sub-chunk decoded from the blob a
/// save stored holds the same blocks and properties as the saved one.
pub proof fn lemma_load_after_save(saved: &SubChunk, loaded: &SubChunk)
    requires
        saved.wf(),
        loaded.wf(),
        decodes_to(subchunk_blob(*saved), *loaded),
    ensures
        loaded.blocks() == saved.blocks(),
        loaded.props() == saved.props(),
{
    crate::format::lemma_blob_round_trip(saved);
    crate::format::lemma_decoded_blocks_agree(subchunk_blob(*saved), saved, loaded);
}

/// A saved sub-chunk blob is valid, so a load after a save can neither miss
/// the key nor fail to decode: only a backend failure can stop it.
pub proof fn lemma_saved_blob_is_valid(saved: &SubChunk)
    requires
        saved.wf(),
    ensures
        blob_check(subchunk_blob(*saved)) is None,
{
    crate::format::lemma_blob_round_trip(saved);
}

} // verus!
