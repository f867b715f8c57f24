//! On-disk sub-chunk blob format (version 1) and the KV key encoding.
//!
//! ```text
//! magic     : b"ASC1"                    (4 bytes)
//! entries   : u16 LE                     (palette size, incl. air at 0)
//!   id      : u32 LE                      × entries
//!   flags   : u8  (bit0 solid, bit1 collision, bit2 redstone)  × entries
//! bits      : u8   (index width: 4 / 8 / 16)
//! words     : u16 LE                     (packed-index word count)
//!   word    : u64 LE                      × words
//! ```

use vstd::prelude::*;
use crate::block::{BlockProperties, BlockStateId};
use crate::bytes::{
    be32_at, u32_be, le16_at, le32_at, le64_at, push_u16_le, push_u32_le, push_u64_le, read_u16_le, read_u32_le, read_u64_le,
    u16_le, u32_le, u64_le,
};
use crate::palette::{
    PackedArray, Palette, entry_mask, max_entry, packed_entry, packed_view, valid_width, word_count,
};
use crate::subchunk::SubChunk;

verus! {

/// Magic prefix identifying an Aether Sub-Chunk blob, version 1 (`b"ASC1"`).
pub const MAGIC: [u8; 4] = [65u8, 83u8, 67u8, 49u8];

/// Errors from (de)serializing a sub-chunk blob.
#[derive(Debug, Clone, PartialEq, Eq)]
pub enum FormatError {
    /// The blob did not start with the expected magic.
    BadMagic,
    /// The blob ended before all declared fields were read.
    Truncated,
    /// A field held a value outside its valid range.
    Invalid(&'static str),
}

/// The flag byte of a property set.
pub open spec fn flags_spec(p: BlockProperties) -> u8 {
    ((if p.solid { 1int } else { 0 }) + (if p.collision { 2int } else { 0 }) + (if p.redstone { 4int } else { 0 })) as u8
}

/// The property set encoded by a flag byte.
pub open spec fn props_spec(f: u8) -> BlockProperties {
    BlockProperties { solid: f & 1 != 0, collision: f & 2 != 0, redstone: f & 4 != 0 }
}

/// Little-endian `u32` ids, back to back.
pub open spec fn ids_bytes(ids: Seq<BlockStateId>) -> Seq<u8>
    decreases ids.len(),
{
    if ids.len() == 0 {
        Seq::empty()
    } else {
        ids_bytes(ids.drop_last()) + u32_le(ids.last().0)
    }
}

/// One flag byte per property set.
pub open spec fn flags_bytes(props: Seq<BlockProperties>) -> Seq<u8> {
    Seq::new(props.len(), |i: int| flags_spec(props[i]))
}

/// Little-endian `u64` words, back to back.
pub open spec fn words_bytes(ws: Seq<u64>) -> Seq<u8>
    decreases ws.len(),
{
    if ws.len() == 0 {
        Seq::empty()
    } else {
        words_bytes(ws.drop_last()) + u64_le(ws.last())
    }
}

/// The blob for a palette given by its entries, properties, index width and
/// packed words.
pub open spec fn blob_spec(entries: Seq<BlockStateId>, props: Seq<BlockProperties>, bits: u8, words: Seq<u64>) -> Seq<
    u8,
> {
    seq![65u8, 83u8, 67u8, 49u8] + u16_le(entries.len() as u16) + ids_bytes(entries) + flags_bytes(props) + seq![bits]
        + u16_le(words.len() as u16) + words_bytes(words)
}

/// The blob a sub-chunk serializes to.
pub open spec fn subchunk_blob(sc: SubChunk) -> Seq<u8> {
    blob_spec(
        sc.spec_palette().entry_seq(),
        sc.spec_palette().prop_seq(),
        sc.spec_palette().spec_bits(),
        sc.spec_palette().index_array().spec_words(),
    )
}

/// Declared palette size of a blob.
pub open spec fn blob_n(b: Seq<u8>) -> int {
    le16_at(b, 4) as int
}

/// Declared index width of a blob.
pub open spec fn blob_bits(b: Seq<u8>) -> u8 {
    b[6 + 5 * blob_n(b)]
}

/// Declared packed-word count of a blob.
pub open spec fn blob_wc(b: Seq<u8>) -> int {
    le16_at(b, 7 + 5 * blob_n(b)) as int
}

/// The palette ids stored in a blob.
pub open spec fn blob_ids(b: Seq<u8>) -> Seq<BlockStateId> {
    Seq::new(blob_n(b) as nat, |i: int| BlockStateId(le32_at(b, 6 + 4 * i)))
}

/// The palette properties stored in a blob.
pub open spec fn blob_props(b: Seq<u8>) -> Seq<BlockProperties> {
    Seq::new(blob_n(b) as nat, |i: int| props_spec(b[6 + 4 * blob_n(b) + i]))
}

/// The packed index words stored in a blob.
pub open spec fn blob_words(b: Seq<u8>) -> Seq<u64> {
    Seq::new(blob_wc(b) as nat, |k: int| le64_at(b, 9 + 5 * blob_n(b) + 8 * k))
}

/// Whether the blob starts with the magic.
pub open spec fn blob_magic_ok(b: Seq<u8>) -> bool {
    b[0] == 65u8 && b[1] == 83u8 && b[2] == 67u8 && b[3] == 49u8
}

/// Whether some packed index of the blob points past its palette.
pub open spec fn blob_index_out_of_range(b: Seq<u8>) -> bool {
    exists|i: int| 0 <= i < 4096 && packed_entry(blob_words(b), blob_bits(b), i) as int >= blob_n(b)
}

/// The error deserializing `b` reports, or `None` when `b` is a valid blob.
pub open spec fn blob_check(b: Seq<u8>) -> Option<FormatError> {
    if b.len() < 4 {
        Some(FormatError::Truncated)
    } else if !blob_magic_ok(b) {
        Some(FormatError::BadMagic)
    } else if b.len() < 6 {
        Some(FormatError::Truncated)
    } else if blob_n(b) == 0 {
        Some(FormatError::Invalid("empty palette"))
    } else if b.len() < 7 + 5 * blob_n(b) {
        Some(FormatError::Truncated)
    } else if !valid_width(blob_bits(b)) {
        Some(FormatError::Invalid("bits_per_entry"))
    } else if b.len() < 9 + 5 * blob_n(b) {
        Some(FormatError::Truncated)
    } else if blob_wc(b) != word_count(4096, blob_bits(b)) {
        Some(FormatError::Invalid("packed word count"))
    } else if b.len() < 9 + 5 * blob_n(b) + 8 * blob_wc(b) {
        Some(FormatError::Truncated)
    } else if blob_n(b) > max_entry(blob_bits(b)) + 1 {
        Some(FormatError::Invalid("palette size"))
    } else if blob_index_out_of_range(b) {
        Some(FormatError::Invalid("palette index"))
    } else {
        None
    }
}

/// `sc` holds exactly the palette stored in the valid blob `b`.
pub open spec fn decodes_to(b: Seq<u8>, sc: SubChunk) -> bool {
    &&& blob_check(b) is None
    &&& sc.spec_palette().entry_seq() == blob_ids(b)
    &&& sc.spec_palette().prop_seq() == blob_props(b)
    &&& sc.spec_palette().spec_bits() == blob_bits(b)
    &&& sc.spec_palette().index_array().spec_words() == blob_words(b)
    &&& sc.spec_palette().spec_len() == 4096
}

fn flags_of(p: BlockProperties) -> (f: u8)
    ensures
        f == flags_spec(p),
{
    (if p.solid { 1u8 } else { 0u8 }) + (if p.collision { 2u8 } else { 0u8 }) + (if p.redstone { 4u8 } else { 0u8 })
}

fn props_of(flags: u8) -> (p: BlockProperties)
    ensures
        p == props_spec(flags),
{
    BlockProperties { solid: flags & 1 != 0, collision: flags & 2 != 0, redstone: flags & 4 != 0 }
}

/// Decoding a flag byte gives back the properties it was made from.
pub proof fn lemma_flags_round_trip(p: BlockProperties)
    ensures
        props_spec(flags_spec(p)) == p,
{
    let f = flags_spec(p);
    assert(f == 0 || f == 1 || f == 2 || f == 3 || f == 4 || f == 5 || f == 6 || f == 7);
    assert(0u8 & 1 == 0 && 0u8 & 2 == 0 && 0u8 & 4 == 0 && 1u8 & 1 != 0 && 1u8 & 2 == 0 && 1u8 & 4 == 0 && 2u8 & 1
        == 0 && 2u8 & 2 != 0 && 2u8 & 4 == 0 && 3u8 & 1 != 0 && 3u8 & 2 != 0 && 3u8 & 4 == 0 && 4u8 & 1 == 0 && 4u8
        & 2 == 0 && 4u8 & 4 != 0 && 5u8 & 1 != 0 && 5u8 & 2 == 0 && 5u8 & 4 != 0 && 6u8 & 1 == 0 && 6u8 & 2 != 0
        && 6u8 & 4 != 0 && 7u8 & 1 != 0 && 7u8 & 2 != 0 && 7u8 & 4 != 0) by (bit_vector);
}

proof fn lemma_ids_bytes(ids: Seq<BlockStateId>)
    ensures
        ids_bytes(ids).len() == 4 * ids.len(),
        forall|i: int| 0 <= i < ids.len() ==> #[trigger] ids_bytes(ids).subrange(4 * i, 4 * i + 4) == u32_le(ids[i].0),
    decreases ids.len(),
{
    if ids.len() > 0 {
        let pre = ids.drop_last();
        lemma_ids_bytes(pre);
        assert forall|i: int| 0 <= i < ids.len() implies #[trigger] ids_bytes(ids).subrange(4 * i, 4 * i + 4)
            == u32_le(ids[i].0) by {
            if i < ids.len() - 1 {
                assert(ids_bytes(ids).subrange(4 * i, 4 * i + 4) =~= ids_bytes(pre).subrange(4 * i, 4 * i + 4));
            } else {
                assert(ids_bytes(ids).subrange(4 * i, 4 * i + 4) =~= u32_le(ids.last().0));
            }
        }
    }
}

proof fn lemma_words_bytes(ws: Seq<u64>)
    ensures
        words_bytes(ws).len() == 8 * ws.len(),
        forall|k: int| 0 <= k < ws.len() ==> #[trigger] words_bytes(ws).subrange(8 * k, 8 * k + 8) == u64_le(ws[k]),
    decreases ws.len(),
{
    if ws.len() > 0 {
        let pre = ws.drop_last();
        lemma_words_bytes(pre);
        assert forall|k: int| 0 <= k < ws.len() implies #[trigger] words_bytes(ws).subrange(8 * k, 8 * k + 8)
            == u64_le(ws[k]) by {
            if k < ws.len() - 1 {
                assert(words_bytes(ws).subrange(8 * k, 8 * k + 8) =~= words_bytes(pre).subrange(8 * k, 8 * k + 8));
            } else {
                assert(words_bytes(ws).subrange(8 * k, 8 * k + 8) =~= u64_le(ws.last()));
            }
        }
    }
}

/// Serialize a sub-chunk to its raw (uncompressed) blob form.
pub fn serialize_subchunk(sc: &SubChunk) -> (out: Vec<u8>)
    requires
        sc.wf(),
    ensures
        out@ == subchunk_blob(*sc),
{
    let palette = sc.palette();
    proof {
        sc.lemma_masks_match();
        palette.lemma_wf_facts();
        palette.index_array().lemma_view_def();
    }
    let entries = palette.entries();
    let props = palette.entry_props();
    let indices = palette.indices();
    let words = indices.words();
    let mut out: Vec<u8> = Vec::new();
    out.push(65u8);
    out.push(83u8);
    out.push(67u8);
    out.push(49u8);
    push_u16_le(&mut out, entries.len() as u16);
    let ghost head = out@;
    let mut i: usize = 0;
    while i < entries.len()
        invariant
            i <= entries@.len(),
            out@ == head + ids_bytes(entries@.subrange(0, i as int)),
        decreases entries@.len() - i,
    {
        push_u32_le(&mut out, entries[i].raw());
        proof {
            assert(entries@.subrange(0, i + 1).drop_last() =~= entries@.subrange(0, i as int));
        }
        i += 1;
    }
    assert(entries@.subrange(0, entries@.len() as int) =~= entries@);
    let ghost head2 = out@;
    let mut j: usize = 0;
    while j < props.len()
        invariant
            j <= props@.len(),
            out@ == head2 + flags_bytes(props@.subrange(0, j as int)),
        decreases props@.len() - j,
    {
        out.push(flags_of(props[j]));
        proof {
            assert(flags_bytes(props@.subrange(0, j + 1)) =~= flags_bytes(props@.subrange(0, j as int)).push(
                flags_spec(props@[j as int]),
            ));
        }
        j += 1;
    }
    assert(props@.subrange(0, props@.len() as int) =~= props@);
    out.push(indices.bits_per_entry());
    push_u16_le(&mut out, words.len() as u16);
    let ghost head3 = out@;
    let mut k: usize = 0;
    while k < words.len()
        invariant
            k <= words@.len(),
            out@ == head3 + words_bytes(words@.subrange(0, k as int)),
        decreases words@.len() - k,
    {
        push_u64_le(&mut out, words[k]);
        proof {
            assert(words@.subrange(0, k + 1).drop_last() =~= words@.subrange(0, k as int));
        }
        k += 1;
    }
    assert(words@.subrange(0, words@.len() as int) =~= words@);
    assert(out@ =~= subchunk_blob(*sc));
    out
}

struct Reader<'a> {
    buf: &'a [u8],
    pos: usize,
}

impl<'a> Reader<'a> {
    fn take(&mut self, n: usize) -> (r: Result<&'a [u8], FormatError>)
        requires
            old(self).pos <= old(self).buf@.len(),
        ensures
            final(self).buf == old(self).buf,
            final(self).pos <= final(self).buf@.len(),
            old(self).pos + n <= old(self).buf@.len() ==> r is Ok && final(self).pos == old(self).pos + n && r->Ok_0@
                == old(self).buf@.subrange(old(self).pos as int, old(self).pos + n),
            old(self).pos + n > old(self).buf@.len() ==> r == Err::<&[u8], FormatError>(FormatError::Truncated),
    {
        if n > self.buf.len() - self.pos {
            return Err(FormatError::Truncated);
        }
        let end = self.pos + n;
        let slice = &self.buf[self.pos..end];
        self.pos = end;
        Ok(slice)
    }

    fn u8(&mut self) -> (r: Result<u8, FormatError>)
        requires
            old(self).pos <= old(self).buf@.len(),
        ensures
            final(self).buf == old(self).buf,
            final(self).pos <= final(self).buf@.len(),
            old(self).pos + 1 <= old(self).buf@.len() ==> r == Ok::<u8, FormatError>(old(self).buf@[old(self).pos as int])
                && final(self).pos == old(self).pos + 1,
            old(self).pos + 1 > old(self).buf@.len() ==> r == Err::<u8, FormatError>(FormatError::Truncated),
    {
        let s = self.take(1)?;
        Ok(s[0])
    }

    fn u16(&mut self) -> (r: Result<u16, FormatError>)
        requires
            old(self).pos <= old(self).buf@.len(),
        ensures
            final(self).buf == old(self).buf,
            final(self).pos <= final(self).buf@.len(),
            old(self).pos + 2 <= old(self).buf@.len() ==> r == Ok::<u16, FormatError>(le16_at(old(self).buf@, old(self).pos as int))
                && final(self).pos == old(self).pos + 2,
            old(self).pos + 2 > old(self).buf@.len() ==> r == Err::<u16, FormatError>(FormatError::Truncated),
    {
        let s = self.take(2)?;
        Ok(read_u16_le(s, 0))
    }

    fn u32(&mut self) -> (r: Result<u32, FormatError>)
        requires
            old(self).pos <= old(self).buf@.len(),
        ensures
            final(self).buf == old(self).buf,
            final(self).pos <= final(self).buf@.len(),
            old(self).pos + 4 <= old(self).buf@.len() ==> r == Ok::<u32, FormatError>(le32_at(old(self).buf@, old(self).pos as int))
                && final(self).pos == old(self).pos + 4,
            old(self).pos + 4 > old(self).buf@.len() ==> r == Err::<u32, FormatError>(FormatError::Truncated),
    {
        let s = self.take(4)?;
        Ok(read_u32_le(s, 0))
    }

    fn u64(&mut self) -> (r: Result<u64, FormatError>)
        requires
            old(self).pos <= old(self).buf@.len(),
        ensures
            final(self).buf == old(self).buf,
            final(self).pos <= final(self).buf@.len(),
            old(self).pos + 8 <= old(self).buf@.len() ==> r == Ok::<u64, FormatError>(le64_at(old(self).buf@, old(self).pos as int))
                && final(self).pos == old(self).pos + 8,
            old(self).pos + 8 > old(self).buf@.len() ==> r == Err::<u64, FormatError>(FormatError::Truncated),
    {
        let s = self.take(8)?;
        Ok(read_u64_le(s, 0))
    }
}

fn invalid_palette_index() -> (r: Result<SubChunk, FormatError>)
    ensures
        r == Err::<SubChunk, FormatError>(FormatError::Invalid("palette index")),
{
    Err(FormatError::Invalid("palette index"))
}

/// Deserialize a raw (uncompressed) blob back into a sub-chunk.
///
/// Trailing bytes after the last word are ignored. Besides the layout
/// checks, a blob whose palette is larger than its index width can address,
/// or whose packed indices point past the palette, is reported as
/// `Invalid`.
pub fn deserialize_subchunk(buf: &[u8]) -> (r: Result<SubChunk, FormatError>)
    ensures
        match r {
            Ok(sc) => sc.wf() && decodes_to(buf@, sc),
            Err(e) => blob_check(buf@) == Some(e),
        },
{
    let mut r = Reader { buf, pos: 0 };
    let magic = r.take(4)?;
    if !(magic[0] == 65u8 && magic[1] == 83u8 && magic[2] == 67u8 && magic[3] == 49u8) {
        return Err(FormatError::BadMagic);
    }
    let entry_count = r.u16()? as usize;
    if entry_count == 0 {
        return Err(FormatError::Invalid("empty palette"));
    }
    let ghost n = entry_count as int;
    let mut entries: Vec<BlockStateId> = Vec::new();
    let mut i: usize = 0;
    while i < entry_count
        invariant
            r.buf == buf,
            r.pos == 6 + 4 * i,
            r.pos <= buf@.len(),
            buf@.len() >= 6,
            blob_magic_ok(buf@),
            n == blob_n(buf@),
            n == entry_count,
            n >= 1,
            i <= n,
            entries@ == Seq::new(i as nat, |j: int| BlockStateId(le32_at(buf@, 6 + 4 * j))),
        decreases entry_count - i,
    {
        let v = r.u32()?;
        entries.push(BlockStateId(v));
        proof {
            assert(entries@ =~= Seq::new((i + 1) as nat, |j: int| BlockStateId(le32_at(buf@, 6 + 4 * j))));
        }
        i += 1;
    }
    let mut props: Vec<BlockProperties> = Vec::new();
    let mut j: usize = 0;
    while j < entry_count
        invariant
            r.buf == buf,
            r.pos == 6 + 4 * n + j,
            r.pos <= buf@.len(),
            buf@.len() >= 6,
            blob_magic_ok(buf@),
            n == blob_n(buf@),
            n == entry_count,
            n >= 1,
            j <= n,
            entries@ == blob_ids(buf@),
            props@ == Seq::new(j as nat, |k: int| props_spec(buf@[6 + 4 * n + k])),
        decreases entry_count - j,
    {
        let f = r.u8()?;
        props.push(props_of(f));
        proof {
            assert(props@ =~= Seq::new((j + 1) as nat, |k: int| props_spec(buf@[6 + 4 * n + k])));
        }
        j += 1;
    }
    assert(entries@ =~= blob_ids(buf@));
    assert(props@ =~= blob_props(buf@));
    let bits = r.u8()?;
    if !(bits == 4 || bits == 8 || bits == 16) {
        return Err(FormatError::Invalid("bits_per_entry"));
    }
    let word_count_read = r.u16()? as usize;
    let expected: usize = if bits == 4 {
        256
    } else if bits == 8 {
        512
    } else {
        1024
    };
    assert(expected as int == word_count(4096, bits));
    if word_count_read != expected {
        return Err(FormatError::Invalid("packed word count"));
    }
    let ghost wc = expected as int;
    let mut words: Vec<u64> = Vec::new();
    let mut k: usize = 0;
    while k < expected
        invariant
            r.buf == buf,
            r.pos == 9 + 5 * n + 8 * k,
            r.pos <= buf@.len(),
            n == blob_n(buf@),
            wc == blob_wc(buf@),
            wc == expected,
            k <= wc,
            buf@.len() >= 9 + 5 * n,
            blob_magic_ok(buf@),
            n >= 1,
            valid_width(bits),
            bits == blob_bits(buf@),
            wc == word_count(4096, bits),
            words@ == Seq::new(k as nat, |q: int| le64_at(buf@, 9 + 5 * n + 8 * q)),
        decreases expected - k,
    {
        let w = r.u64()?;
        words.push(w);
        proof {
            assert(words@ =~= Seq::new((k + 1) as nat, |q: int| le64_at(buf@, 9 + 5 * n + 8 * q)));
        }
        k += 1;
    }
    assert(words@ =~= blob_words(buf@));
    let cap: usize = if bits == 4 {
        16
    } else if bits == 8 {
        256
    } else {
        65536
    };
    if entry_count > cap {
        return Err(FormatError::Invalid("palette size"));
    }
    let indices = PackedArray::from_words(bits, 4096, words);
    proof {
        indices.lemma_view_def();
    }
    let mut m: usize = 0;
    while m < 4096
        invariant
            indices.wf(),
            indices.spec_len() == 4096,
            indices.view() == packed_view(blob_words(buf@), bits, 4096),
            bits == blob_bits(buf@),
            n == blob_n(buf@),
            n == entry_count,
            m <= 4096,
            forall|q: int| 0 <= q < m ==> (#[trigger] indices.view()[q]) < n,
            buf@.len() >= 9 + 5 * n + 8 * wc,
            blob_magic_ok(buf@),
            n >= 1,
            valid_width(bits),
            wc == blob_wc(buf@),
            wc == word_count(4096, bits),
            n <= max_entry(bits) + 1,
        decreases 4096 - m,
    {
        if indices.get(m) as usize >= entry_count {
            proof {
                assert(packed_entry(blob_words(buf@), bits, m as int) as int >= blob_n(buf@));
            }
            return invalid_palette_index();
        }
        m += 1;
    }
    proof {
        assert(!blob_index_out_of_range(buf@)) by {
            if blob_index_out_of_range(buf@) {
                let q = choose|q: int| 0 <= q < 4096 && packed_entry(blob_words(buf@), bits, q) as int >= blob_n(buf@);
                assert(indices.view()[q] < n);
            }
        }
    }
    let palette = Palette::from_parts(entries, props, indices);
    Ok(SubChunk::from_palette(palette))
}

/// Serializing a sub-chunk and reading the blob back yields the same
/// palette: the blob is valid and decodes to the sub-chunk's own entries,
/// properties, index width and packed words.
pub proof fn lemma_blob_round_trip(sc: &SubChunk)
    requires
        sc.wf(),
    ensures
        decodes_to(subchunk_blob(*sc), *sc),
{
    sc.lemma_masks_match();
    let p = sc.spec_palette();
    p.lemma_wf_facts();
    p.index_array().lemma_view_def();
    let entries = p.entry_seq();
    let props = p.prop_seq();
    let bits = p.spec_bits();
    let words = p.index_array().spec_words();
    let n = entries.len() as int;
    let wc = words.len() as int;
    let b = subchunk_blob(*sc);
    lemma_ids_bytes(entries);
    lemma_words_bytes(words);
    let p0 = seq![65u8, 83u8, 67u8, 49u8] + u16_le(n as u16);
    let p1 = p0 + ids_bytes(entries);
    let p2 = p1 + flags_bytes(props);
    let p3 = p2 + seq![bits];
    let p4 = p3 + u16_le(wc as u16);
    assert(b == p4 + words_bytes(words));
    assert(b.len() == 9 + 5 * n + 8 * wc);
    assert(b.subrange(4, 6) =~= u16_le(n as u16));
    crate::bytes::lemma_u16_round_trip(n as u16, b, 4);
    assert(blob_n(b) == n);
    assert(blob_magic_ok(b));
    assert(b[6 + 5 * n] == bits);
    assert(b.subrange(7 + 5 * n, 9 + 5 * n) =~= u16_le(wc as u16));
    crate::bytes::lemma_u16_round_trip(wc as u16, b, 7 + 5 * n);
    assert(blob_wc(b) == wc);
    assert forall|i: int| 0 <= i < n implies #[trigger] blob_ids(b)[i] == entries[i] by {
        assert(b.subrange(6 + 4 * i, 6 + 4 * i + 4) =~= ids_bytes(entries).subrange(4 * i, 4 * i + 4));
        crate::bytes::lemma_u32_le_round_trip(entries[i].0, b, 6 + 4 * i);
    }
    assert(blob_ids(b) =~= entries);
    assert forall|i: int| 0 <= i < n implies #[trigger] blob_props(b)[i] == props[i] by {
        assert(b[6 + 4 * n + i] == flags_spec(props[i]));
        lemma_flags_round_trip(props[i]);
    }
    assert(blob_props(b) =~= props);
    assert forall|q: int| 0 <= q < wc implies #[trigger] blob_words(b)[q] == words[q] by {
        assert(b.subrange(9 + 5 * n + 8 * q, 9 + 5 * n + 8 * q + 8) =~= words_bytes(words).subrange(8 * q, 8 * q + 8));
        crate::bytes::lemma_u64_le_round_trip(words[q], b, 9 + 5 * n + 8 * q);
    }
    assert(blob_words(b) =~= words);
    assert(!blob_index_out_of_range(b)) by {
        if blob_index_out_of_range(b) {
            let q = choose|q: int| 0 <= q < 4096 && packed_entry(blob_words(b), blob_bits(b), q) as int >= blob_n(b);
            assert(p.index_array().view()[q] < n);
        }
    }
}

/// Two sub-chunks decoded from the same blob hold the same blocks and
/// properties at every position.
pub proof fn lemma_decoded_blocks_agree(b: Seq<u8>, sc1: &SubChunk, sc2: &SubChunk)
    requires
        sc1.wf(),
        sc2.wf(),
        decodes_to(b, *sc1),
        decodes_to(b, *sc2),
    ensures
        sc1.blocks() == sc2.blocks(),
        sc1.props() == sc2.props(),
{
    sc1.lemma_masks_match();
    sc2.lemma_masks_match();
    sc1.spec_palette().lemma_wf_facts();
    sc2.spec_palette().lemma_wf_facts();
    sc1.spec_palette().index_array().lemma_view_def();
    sc2.spec_palette().index_array().lemma_view_def();
    assert(sc1.spec_palette().index_array().view() =~= sc2.spec_palette().index_array().view());
    assert(sc1.blocks() =~= sc2.blocks());
    assert(sc1.props() =~= sc2.props());
}

/// Coordinates of a sub-chunk within a world: chunk column `(cx, cz)` and the
/// vertical sub-chunk index `cy`.
#[derive(Debug, Clone, Copy, PartialEq, Eq, Structural, Hash, PartialOrd, Ord)]
pub struct SubChunkKey {
    /// Chunk X (column).
    pub cx: i32,
    /// Vertical sub-chunk index (world height / 16).
    pub cy: i8,
    /// Chunk Z (column).
    pub cz: i32,
}

/// The 9-byte key of `k`: sign-flipped big-endian `cx`, then `cz`, then `cy`.
pub open spec fn key_bytes(k: SubChunkKey) -> Seq<u8> {
    u32_be((k.cx as u32) ^ 0x8000_0000u32) + u32_be((k.cz as u32) ^ 0x8000_0000u32) + seq![(k.cy as u8) ^ 0x80u8]
}

/// Lexicographic byte order, as Rust orders byte arrays.
pub open spec fn bytes_lt(a: Seq<u8>, b: Seq<u8>) -> bool
    decreases a.len(),
{
    if a.len() == 0 {
        b.len() > 0
    } else if b.len() == 0 {
        false
    } else if a[0] < b[0] {
        true
    } else if a[0] > b[0] {
        false
    } else {
        bytes_lt(a.drop_first(), b.drop_first())
    }
}

/// Numeric key order: by `cx`, then `cz`, then `cy`.
pub open spec fn key_lt(a: SubChunkKey, b: SubChunkKey) -> bool {
    a.cx < b.cx || (a.cx == b.cx && (a.cz < b.cz || (a.cz == b.cz && a.cy < b.cy)))
}

impl SubChunkKey {
    /// Construct a key.
    pub fn new(cx: i32, cy: i8, cz: i32) -> (k: Self)
        ensures
            k == (SubChunkKey { cx, cy, cz }),
    {
        Self { cx, cy, cz }
    }

    /// Encode to a 9-byte, order-preserving KV key.
    pub fn encode(&self) -> (r: [u8; 9])
        ensures
            r@ == key_bytes(*self),
    {
        let x = (self.cx as u32) ^ 0x8000_0000u32;
        let z = (self.cz as u32) ^ 0x8000_0000u32;
        let mut k = [0u8; 9];
        k[0] = (x >> 24u32) as u8;
        k[1] = (x >> 16u32) as u8;
        k[2] = (x >> 8u32) as u8;
        k[3] = x as u8;
        k[4] = (z >> 24u32) as u8;
        k[5] = (z >> 16u32) as u8;
        k[6] = (z >> 8u32) as u8;
        k[7] = z as u8;
        k[8] = (self.cy as u8) ^ 0x80u8;
        assert(k@ =~= key_bytes(*self));
        k
    }

    /// Decode a key produced by [`SubChunkKey::encode`]; `None` unless the
    /// input is exactly 9 bytes.
    pub fn decode(bytes: &[u8]) -> (r: Option<Self>)
        ensures
            bytes@.len() != 9 ==> r is None,
            bytes@.len() == 9 ==> r == Some(SubChunkKey {
                cx: (be32_at(bytes@, 0) ^ 0x8000_0000u32) as i32,
                cy: (bytes@[8] ^ 0x80u8) as i8,
                cz: (be32_at(bytes@, 4) ^ 0x8000_0000u32) as i32,
            }),
    {
        if bytes.len() != 9 {
            return None;
        }
        let cx = (crate::bytes::read_u32_be(bytes, 0) ^ 0x8000_0000u32) as i32;
        let cz = (crate::bytes::read_u32_be(bytes, 4) ^ 0x8000_0000u32) as i32;
        let cy = (bytes[8] ^ 0x80u8) as i8;
        Some(Self { cx, cy, cz })
    }
}

/// Decoding an encoded key gives the key back.
pub proof fn lemma_key_round_trip(k: SubChunkKey)
    ensures
        key_bytes(k).len() == 9,
        (SubChunkKey {
            cx: (be32_at(key_bytes(k), 0) ^ 0x8000_0000u32) as i32,
            cy: (key_bytes(k)[8] ^ 0x80u8) as i8,
            cz: (be32_at(key_bytes(k), 4) ^ 0x8000_0000u32) as i32,
        }) == k,
{
    let b = key_bytes(k);
    let x = (k.cx as u32) ^ 0x8000_0000u32;
    let z = (k.cz as u32) ^ 0x8000_0000u32;
    assert(b.subrange(0, 4) =~= u32_be(x));
    assert(b.subrange(4, 8) =~= u32_be(z));
    crate::bytes::lemma_u32_be_round_trip(x, b, 0);
    crate::bytes::lemma_u32_be_round_trip(z, b, 4);
    let cx = k.cx;
    let cz = k.cz;
    let cy = k.cy;
    assert(((cx as u32 ^ 0x8000_0000u32) ^ 0x8000_0000u32) as i32 == cx && ((cz as u32 ^ 0x8000_0000u32)
        ^ 0x8000_0000u32) as i32 == cz && (((cy as u8) ^ 0x80u8) ^ 0x80u8) as i8 == cy) by (bit_vector);
}

proof fn lemma_bytes_lt_concat(a1: Seq<u8>, a2: Seq<u8>, b1: Seq<u8>, b2: Seq<u8>)
    requires
        a1.len() == b1.len(),
    ensures
        bytes_lt(a1 + a2, b1 + b2) == (bytes_lt(a1, b1) || (a1 == b1 && bytes_lt(a2, b2))),
    decreases a1.len(),
{
    if a1.len() == 0 {
        assert(a1 + a2 =~= a2);
        assert(b1 + b2 =~= b2);
        assert(a1 =~= b1);
    } else {
        assert((a1 + a2).drop_first() =~= a1.drop_first() + a2);
        assert((b1 + b2).drop_first() =~= b1.drop_first() + b2);
        lemma_bytes_lt_concat(a1.drop_first(), a2, b1.drop_first(), b2);
        if a1[0] == b1[0] && a1.drop_first() == b1.drop_first() {
            assert forall|i: int| 0 <= i < a1.len() implies a1[i] == b1[i] by {
                if i > 0 {
                    assert(a1[i] == a1.drop_first()[i - 1]);
                    assert(b1[i] == b1.drop_first()[i - 1]);
                }
            }
            assert(a1 =~= b1);
        }
        if a1 == b1 {
            assert(a1.drop_first() =~= b1.drop_first());
        }
    }
}

proof fn lemma_u32_be_order(x: u32, y: u32)
    ensures
        bytes_lt(u32_be(x), u32_be(y)) == (x < y),
        (u32_be(x) == u32_be(y)) == (x == y),
{
    let a = u32_be(x);
    let b = u32_be(y);
    reveal_with_fuel(bytes_lt, 5);
    assert(a.drop_first() =~= seq![(x >> 16u32) as u8, (x >> 8u32) as u8, x as u8]);
    assert(b.drop_first() =~= seq![(y >> 16u32) as u8, (y >> 8u32) as u8, y as u8]);
    assert(a.drop_first().drop_first() =~= seq![(x >> 8u32) as u8, x as u8]);
    assert(b.drop_first().drop_first() =~= seq![(y >> 8u32) as u8, y as u8]);
    assert(a.drop_first().drop_first().drop_first() =~= seq![x as u8]);
    assert(b.drop_first().drop_first().drop_first() =~= seq![y as u8]);
    assert(a.drop_first().drop_first().drop_first().drop_first() =~= Seq::<u8>::empty());
    assert(b.drop_first().drop_first().drop_first().drop_first() =~= Seq::<u8>::empty());
    assert((x < y) == (((x >> 24u32) as u8) < ((y >> 24u32) as u8) || (((x >> 24u32) as u8) == ((y >> 24u32) as u8)
        && (((x >> 16u32) as u8) < ((y >> 16u32) as u8) || (((x >> 16u32) as u8) == ((y >> 16u32) as u8) && (((x
        >> 8u32) as u8) < ((y >> 8u32) as u8) || (((x >> 8u32) as u8) == ((y >> 8u32) as u8) && (x as u8) < (y
        as u8)))))))) by (bit_vector);
    assert((x == y) == (((x >> 24u32) as u8) == ((y >> 24u32) as u8) && ((x >> 16u32) as u8) == ((y >> 16u32) as u8)
        && ((x >> 8u32) as u8) == ((y >> 8u32) as u8) && (x as u8) == (y as u8))) by (bit_vector);
    if a == b {
        assert(a[0] == b[0] && a[1] == b[1] && a[2] == b[2] && a[3] == b[3]);
    }
}

/// The encoded keys sort, byte by byte, exactly as the keys do numerically
/// (by `cx`, then `cz`, then `cy`), so a range scan over a region stays
/// contiguous.
pub proof fn lemma_key_order_preserving(a: SubChunkKey, b: SubChunkKey)
    ensures
        bytes_lt(key_bytes(a), key_bytes(b)) == key_lt(a, b),
{
    let (ax, az, ay) = (a.cx, a.cz, a.cy);
    let (bx, bz, by) = (b.cx, b.cz, b.cy);
    let xa = (ax as u32) ^ 0x8000_0000u32;
    let xb = (bx as u32) ^ 0x8000_0000u32;
    let za = (az as u32) ^ 0x8000_0000u32;
    let zb = (bz as u32) ^ 0x8000_0000u32;
    let ya = (ay as u8) ^ 0x80u8;
    let yb = (by as u8) ^ 0x80u8;
    assert((xa < xb) == (ax < bx) && (xa == xb) == (ax == bx)) by (bit_vector)
        requires
            xa == (ax as u32) ^ 0x8000_0000u32,
            xb == (bx as u32) ^ 0x8000_0000u32,
    ;
    assert((za < zb) == (az < bz) && (za == zb) == (az == bz)) by (bit_vector)
        requires
            za == (az as u32) ^ 0x8000_0000u32,
            zb == (bz as u32) ^ 0x8000_0000u32,
    ;
    assert((ya < yb) == (ay < by)) by (bit_vector)
        requires
            ya == (ay as u8) ^ 0x80u8,
            yb == (by as u8) ^ 0x80u8,
    ;
    lemma_u32_be_order(xa, xb);
    lemma_u32_be_order(za, zb);
    lemma_bytes_lt_concat(u32_be(xa) + u32_be(za), seq![ya], u32_be(xb) + u32_be(zb), seq![yb]);
    lemma_bytes_lt_concat(u32_be(xa), u32_be(za), u32_be(xb), u32_be(zb));
    let sa = seq![ya];
    let sb = seq![yb];
    reveal_with_fuel(bytes_lt, 2);
    assert(sa.drop_first() =~= Seq::<u8>::empty());
    assert(sb.drop_first() =~= Seq::<u8>::empty());
    if u32_be(xa) + u32_be(za) == u32_be(xb) + u32_be(zb) {
        assert((u32_be(xa) + u32_be(za)).subrange(0, 4) =~= u32_be(xa));
        assert((u32_be(xb) + u32_be(zb)).subrange(0, 4) =~= u32_be(xb));
        assert((u32_be(xa) + u32_be(za)).subrange(4, 8) =~= u32_be(za));
        assert((u32_be(xb) + u32_be(zb)).subrange(4, 8) =~= u32_be(zb));
    }
}

} // verus!
