//! Conversion bookkeeping: writing decoded chunks to a world store and the
//! audit trail of a run (counts, an order-independent checksum of everything
//! written, non-fatal errors).

use vstd::prelude::*;
use crate::anvil::DecodedChunk;
use crate::bytes::{push_u32_le, u32_le};
use crate::format::{key_bytes, subchunk_blob, SubChunkKey};
use crate::player::{fnv1a64, fnv1a64_spec};
use crate::storage::{apply_writes, zstd_frame, KvBackend, StorageError, WorldStorage};
use crate::subchunk::SubChunk;

verus! {

/// Aggregated result of a conversion run — the audit trail.
#[derive(Debug, Default)]
pub struct ConversionReport {
    /// Region files processed.
    pub regions: usize,
    /// Chunks decoded.
    pub chunks: usize,
    /// Non-empty sub-chunks written.
    pub sections: usize,
    /// Distinct block names encountered (registry size, incl. air).
    pub distinct_blocks: usize,
    /// Order-independent checksum of every `(key, blob)` written.
    pub checksum: u64,
    /// Non-fatal per-chunk / per-region errors.
    pub errors: Vec<String>,
}

impl ConversionReport {
    /// Whether the run completed with no non-fatal errors.
    pub fn is_clean(&self) -> (r: bool)
        ensures
            r == (self.errors@.len() == 0),
    {
        self.errors.len() == 0
    }
}

/// The FNV-1a offset basis the audit checksum starts from.
pub const FNV_SEED: u64 = 0xcbf2_9ce4_8422_2325;

/// FNV-1a of `bytes`. Combined with XOR across sub-chunks so the world
/// checksum is independent of write order.
pub fn fnv1a(bytes: &[u8]) -> (r: u64)
    ensures
        r == fnv1a64_spec(bytes@, FNV_SEED),
{
    fnv1a64(bytes, FNV_SEED)
}

/// What the audit records of one written sub-chunk: its key, its solid block
/// count and its number of distinct block states.
pub open spec fn audit_bytes(key: SubChunkKey, solid: u32, distinct: u32) -> Seq<u8> {
    key_bytes(key) + u32_le(solid) + u32_le(distinct)
}

/// The audit checksum of one written sub-chunk.
pub open spec fn section_checksum_spec(key: SubChunkKey, sc: SubChunk) -> u64 {
    fnv1a64_spec(
        audit_bytes(key, sc.solid_count() as u32, sc.spec_palette().entry_seq().len() as u32),
        FNV_SEED,
    )
}

/// The audit checksum of one written sub-chunk.
pub fn section_checksum(key: SubChunkKey, sc: &SubChunk) -> (r: u64)
    requires
        sc.wf(),
    ensures
        r == section_checksum_spec(key, *sc),
{
    let enc = key.encode();
    let mut buf: Vec<u8> = Vec::new();
    let mut i: usize = 0;
    while i < 9
        invariant
            i <= 9,
            enc@ == key_bytes(key),
            enc@.len() == 9,
            buf@ == enc@.take(i as int),
        decreases 9 - i,
    {
        buf.push(enc[i]);
        i += 1;
        assert(buf@ =~= enc@.take(i as int));
    }
    assert(enc@.take(9) =~= enc@);
    let solid = sc.solid_mask().count();
    push_u32_le(&mut buf, solid);
    proof {
        sc.lemma_masks_match();
    }
    let distinct = sc.palette().distinct() as u32;
    push_u32_le(&mut buf, distinct);
    fnv1a(buf.as_slice())
}

/// One sub-chunk that could not be written.
#[derive(Debug)]
pub struct SaveFailure {
    /// Chunk X.
    pub cx: i32,
    /// Sub-chunk Y.
    pub cy: i8,
    /// Chunk Z.
    pub cz: i32,
    /// Why the store refused it.
    pub error: StorageError,
}

/// What writing a batch of decoded chunks did.
#[derive(Debug)]
pub struct StoreTally {
    /// Chunks handled.
    pub chunks: usize,
    /// Sub-chunks written.
    pub sections: usize,
    /// XOR of the audit checksums of the sub-chunks written.
    pub checksum: u64,
    /// Sub-chunks the store refused.
    pub failures: Vec<SaveFailure>,
}

/// Number of sections across the first `n` chunks.
pub open spec fn section_total(chunks: Seq<DecodedChunk>, n: int) -> int
    decreases n,
{
    if n <= 0 {
        0
    } else {
        section_total(chunks, n - 1) + chunks[n - 1].sections@.len()
    }
}

/// The sub-chunk writes one decoded chunk makes: each section under its
/// `(cx, cy, cz)` key, in section order.
pub open spec fn chunk_writes(c: DecodedChunk) -> Seq<(SubChunkKey, SubChunk)> {
    c.sections@.map_values(|s: (i8, SubChunk)| (SubChunkKey { cx: c.cx, cy: s.0, cz: c.cz }, s.1))
}

/// The sub-chunk writes a batch of decoded chunks makes, in order.
pub open spec fn batch_writes(chunks: Seq<DecodedChunk>) -> Seq<(SubChunkKey, SubChunk)>
    decreases chunks.len(),
{
    if chunks.len() == 0 {
        Seq::empty()
    } else {
        batch_writes(chunks.drop_last()) + chunk_writes(chunks.last())
    }
}

/// XOR of the audit checksums of the writes whose mark is set.
pub open spec fn audit_xor(writes: Seq<(SubChunkKey, SubChunk)>, ok: Seq<bool>) -> u64
    decreases writes.len(),
{
    if writes.len() == 0 {
        0
    } else {
        if ok.last() {
            audit_xor(writes.drop_last(), ok.drop_last()) ^ section_checksum_spec(writes.last().0, writes.last().1)
        } else {
            audit_xor(writes.drop_last(), ok.drop_last())
        }
    }
}

/// The keys of the writes whose mark is clear, in order.
pub open spec fn refused_keys(writes: Seq<(SubChunkKey, SubChunk)>, ok: Seq<bool>) -> Seq<SubChunkKey>
    decreases writes.len(),
{
    if writes.len() == 0 {
        Seq::empty()
    } else {
        refused_keys(writes.drop_last(), ok.drop_last()) + if ok.last() {
            Seq::empty()
        } else {
            seq![writes.last().0]
        }
    }
}

/// The saves of `writes` that reached the store (`landed`), as store writes
/// of each sub-chunk's compressed blob, in order.
pub open spec fn landed_writes(writes: Seq<(SubChunkKey, SubChunk)>, landed: Seq<bool>) -> Seq<
    (SubChunkKey, Option<Seq<u8>>),
>
    decreases writes.len(),
{
    if writes.len() == 0 {
        Seq::empty()
    } else {
        landed_writes(writes.drop_last(), landed.drop_last()) + if landed.last() {
            seq![(writes.last().0, Some(zstd_frame(subchunk_blob(writes.last().1))))]
        } else {
            Seq::empty()
        }
    }
}

/// Number of set marks.
pub open spec fn marked(ok: Seq<bool>) -> nat
    decreases ok.len(),
{
    if ok.len() == 0 {
        0
    } else {
        marked(ok.drop_last()) + if ok.last() { 1nat } else { 0nat }
    }
}

/// The key a refused write was for.
pub open spec fn failure_key(f: SaveFailure) -> SubChunkKey {
    SubChunkKey { cx: f.cx, cy: f.cy, cz: f.cz }
}

proof fn lemma_batch_step(all: Seq<DecodedChunk>, d: int)
    requires
        0 <= d < all.len(),
    ensures
        batch_writes(all.take(d + 1)) == batch_writes(all.take(d)) + chunk_writes(all[d]),
{
    assert(all.take(d + 1).drop_last() =~= all.take(d));
}

/// Write every section of every decoded chunk to `storage` under its
/// `(cx, cy, cz)` key, tallying what was written and what was refused.
pub fn store_chunks<B: KvBackend>(chunks: Vec<DecodedChunk>, storage: &mut WorldStorage<B>) -> (r: StoreTally)
    requires
        forall|k: int|
            0 <= k < chunks@.len() ==> forall|m: int|
                0 <= m < (#[trigger] chunks@[k]).sections@.len() ==> (#[trigger] chunks@[k].sections@[m]).1.wf(),
        section_total(chunks@, chunks@.len() as int) < usize::MAX,
    ensures
        r.chunks == chunks@.len(),
        r.sections + r.failures@.len() == section_total(chunks@, chunks@.len() as int),
        exists|ok: Seq<bool>|
            #![trigger audit_xor(batch_writes(chunks@), ok)]
            ok.len() == batch_writes(chunks@).len() && r.sections == marked(ok) && r.checksum == audit_xor(
                batch_writes(chunks@),
                ok,
            ) && r.failures@.map_values(|f: SaveFailure| failure_key(f)) == refused_keys(batch_writes(chunks@), ok),
        final(storage).infallible() == old(storage).infallible(),
        exists|ok: Seq<bool>, landed: Seq<bool>|
            #![trigger landed_writes(batch_writes(chunks@), landed), marked(ok)]
            ok.len() == batch_writes(chunks@).len() && landed.len() == ok.len() && r.sections == marked(ok) && (forall|i: int|
                0 <= i < ok.len() && #[trigger] ok[i] ==> landed[i]) && (old(storage).infallible() ==> forall|i: int|
                0 <= i < ok.len() ==> #[trigger] ok[i]) && final(storage).kv() == apply_writes(
                old(storage).kv(),
                landed_writes(batch_writes(chunks@), landed),
            ),
{
    let ghost all = chunks@;
    assert(all.len() == chunks.len());
    let mut tally = StoreTally { chunks: 0, sections: 0, checksum: 0, failures: Vec::new() };
    let mut chunks = chunks;
    let mut rest: Vec<DecodedChunk> = Vec::new();
    // Take the chunks back to front into `rest`, then handle them in order.
    while chunks.len() > 0
        invariant
            chunks@ + rest@.reverse() == all,
        decreases chunks@.len(),
    {
        let ghost c0 = chunks@;
        let c = chunks.pop().unwrap();
        proof {
            assert(rest@.push(c).reverse() =~= seq![c] + rest@.reverse());
            assert(c0 =~= chunks@.push(c));
            assert(chunks@ + rest@.push(c).reverse() =~= c0 + rest@.reverse());
        }
        rest.push(c);
    }
    assert(rest@.reverse() =~= all);
    let mut done: usize = 0;
    let ghost mut ok: Seq<bool> = Seq::empty();
    let ghost mut landed: Seq<bool> = Seq::empty();
    let ghost kv0 = storage.kv();
    let ghost inf = storage.infallible();
    proof {
        assert(all.take(0) =~= Seq::<DecodedChunk>::empty());
        assert(tally.failures@.map_values(|f: SaveFailure| failure_key(f)) =~= Seq::<SubChunkKey>::empty());
    }
    while rest.len() > 0
        invariant
            ok.len() == batch_writes(all.take(done as int)).len(),
            landed.len() == ok.len(),
            forall|i: int| 0 <= i < ok.len() && #[trigger] ok[i] ==> landed[i],
            inf ==> forall|i: int| 0 <= i < ok.len() ==> #[trigger] ok[i],
            storage.infallible() == inf,
            storage.kv() == apply_writes(kv0, landed_writes(batch_writes(all.take(done as int)), landed)),
            tally.sections == marked(ok),
            tally.checksum == audit_xor(batch_writes(all.take(done as int)), ok),
            tally.failures@.map_values(|f: SaveFailure| failure_key(f)) == refused_keys(
                batch_writes(all.take(done as int)),
                ok,
            ),
            rest@.reverse() == all.subrange(done as int, all.len() as int),
            done <= all.len(),
            all.len() <= usize::MAX,
            tally.chunks == done,
            tally.sections + tally.failures@.len() == section_total(all, done as int),
            section_total(all, all.len() as int) < usize::MAX,
            forall|k: int|
                0 <= k < all.len() ==> forall|m: int|
                    0 <= m < (#[trigger] all[k]).sections@.len() ==> (#[trigger] all[k].sections@[m]).1.wf(),
        decreases rest@.len(),
    {
        let ghost r0 = rest@;
        let chunk = rest.pop().unwrap();
        proof {
            assert(r0.reverse() =~= seq![chunk] + rest@.reverse());
            let tail = all.subrange(done as int, all.len() as int);
            assert(tail.len() > 0);
            assert(tail[0] == all[done as int]);
            assert((seq![chunk] + rest@.reverse())[0] == chunk);
            assert(chunk == all[done as int]);
            assert((seq![chunk] + rest@.reverse()).drop_first() =~= rest@.reverse());
            assert(tail.drop_first() =~= all.subrange(done + 1, all.len() as int));
            assert(rest@.reverse() =~= all.subrange(done + 1, all.len() as int));
            lemma_total_mono(all, done + 1, all.len() as int);
        }
        proof {
            lemma_batch_step(all, done as int);
        }
        let ghost base = batch_writes(all.take(done as int));
        let ghost cw = chunk_writes(all[done as int]);
        let DecodedChunk { cx, cz, sections } = chunk;
        let mut m: usize = 0;
        proof {
            assert(base + cw.take(0) =~= base);
        }
        while m < sections.len()
            invariant
                m <= sections@.len(),
                sections@ == all[done as int].sections@,
                cx == all[done as int].cx,
                cz == all[done as int].cz,
                cw == chunk_writes(all[done as int]),
                ok.len() == (base + cw.take(m as int)).len(),
                landed.len() == ok.len(),
                forall|i: int| 0 <= i < ok.len() && #[trigger] ok[i] ==> landed[i],
                inf ==> forall|i: int| 0 <= i < ok.len() ==> #[trigger] ok[i],
                storage.infallible() == inf,
                storage.kv() == apply_writes(kv0, landed_writes(base + cw.take(m as int), landed)),
                tally.sections == marked(ok),
                tally.checksum == audit_xor(base + cw.take(m as int), ok),
                tally.failures@.map_values(|f: SaveFailure| failure_key(f)) == refused_keys(base + cw.take(m as int), ok),
                done < all.len(),
                all.len() <= usize::MAX,
                tally.chunks == done,
                tally.sections + tally.failures@.len() == section_total(all, done as int) + m,
                section_total(all, done + 1) <= section_total(all, all.len() as int),
                section_total(all, all.len() as int) < usize::MAX,
                forall|q: int| 0 <= q < sections@.len() ==> (#[trigger] sections@[q]).1.wf(),
            decreases sections@.len() - m,
        {
            let cy = sections[m].0;
            let key = SubChunkKey::new(cx, cy, cz);
            let ghost w0 = base + cw.take(m as int);
            let ghost f0 = tally.failures@;
            let ghost kv_pre = storage.kv();
            let ghost blob = zstd_frame(subchunk_blob(sections@[m as int].1));
            proof {
                assert(cw[m as int] == (key, sections@[m as int].1));
                assert(w0.push(cw[m as int]) =~= base + cw.take(m as int + 1));
            }
            match storage.save(key, &sections[m].1) {
                Ok(()) => {
                    let sum = section_checksum(key, &sections[m].1);
                    tally.sections = tally.sections + 1;
                    tally.checksum = tally.checksum ^ sum;
                    proof {
                        let w1 = w0.push(cw[m as int]);
                        let o1 = ok.push(true);
                        assert(w1.drop_last() =~= w0 && o1.drop_last() =~= ok);
                        assert(w1.last() == (key, sections@[m as int].1));
                        assert(refused_keys(w1, o1) =~= refused_keys(w0, ok));
                        let l1 = landed.push(true);
                        assert(l1.drop_last() =~= landed);
                        let lw0 = landed_writes(w0, landed);
                        assert(landed_writes(w1, l1) =~= lw0.push((key, Some(blob))));
                        assert(lw0.push((key, Some(blob))).drop_last() =~= lw0);
                        ok = o1;
                        landed = l1;
                    }
                },
                Err(e) => {
                    tally.failures.push(SaveFailure { cx, cy, cz, error: e });
                    proof {
                        let w1 = w0.push(cw[m as int]);
                        let o1 = ok.push(false);
                        assert(w1.drop_last() =~= w0 && o1.drop_last() =~= ok);
                        assert(tally.failures@.map_values(|f: SaveFailure| failure_key(f)) =~= f0.map_values(
                            |f: SaveFailure| failure_key(f),
                        ).push(key));
                        assert(refused_keys(w1, o1) =~= refused_keys(w0, ok).push(key));
                        let hit = !(storage.kv() == kv_pre);
                        let l1 = landed.push(hit);
                        assert(l1.drop_last() =~= landed);
                        let lw0 = landed_writes(w0, landed);
                        if hit {
                            assert(landed_writes(w1, l1) =~= lw0.push((key, Some(blob))));
                            assert(lw0.push((key, Some(blob))).drop_last() =~= lw0);
                        } else {
                            assert(landed_writes(w1, l1) =~= lw0);
                        }
                        ok = o1;
                        landed = l1;
                    }
                },
            }
            m += 1;
        }
        proof {
            assert(cw.take(sections@.len() as int) =~= cw);
        }
        tally.chunks = tally.chunks + 1;
        done = done + 1;
    }
    proof {
        assert(all.take(all.len() as int) =~= all);
    }
    assert(all.subrange(done as int, all.len() as int).len() == 0);
    tally
}

proof fn lemma_total_mono(chunks: Seq<DecodedChunk>, a: int, b: int)
    requires
        0 <= a <= b,
    ensures
        section_total(chunks, a) <= section_total(chunks, b),
    decreases b - a,
{
    if a < b {
        lemma_total_mono(chunks, a, b - 1);
    }
}

} // verus!
