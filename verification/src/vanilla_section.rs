//! Decode a vanilla **network chunk section** (paletted container) into an
//! engine [`SubChunk`].
//!
//! The wire layout for a block-states section is:
//!
//! ```text
//! block_count   : i16                     (non-air blocks; advisory)
//! bits_per_entry: u8
//! palette:
//!   bits == 0            -> value: VarInt                    (single-valued)
//!   1 <= bits <= 8       -> len: VarInt, ids: VarInt[len]    (indirect)
//!   bits >= 9            -> (none)                           (direct: raw ids)
//! data_len      : VarInt                  (number of u64 words)
//! data          : u64[data_len]           (big-endian, entries do not span words)
//! ```
//!
//! Entries are ordered **YZX** (`index = y*256 + z*16 + x`).

use vstd::prelude::*;
use crate::anvil::{air_cell, anvil_index, anvil_morton, lemma_anvil_coords, lemma_anvil_morton_injective,
    lemma_anvil_morton_range, lemma_anvil_split};
use crate::block::{BlockProperties, BlockStateId};
use crate::bytes::{be16_at, be64_at, read_u64_be};
use crate::subchunk::{morton_of, SubChunk};
use crate::vanilla_registry::{registered_in, VanillaRegistry};
use crate::varint::{leb_decode, read_varint};

verus! {

/// Errors from decoding a vanilla chunk section.
#[derive(Debug, Clone, Copy, PartialEq, Eq)]
pub enum ProxyError {
    /// Ran out of bytes mid-field.
    UnexpectedEof,
    /// A VarInt was malformed.
    BadVarInt,
    /// `bits_per_entry` or a palette length was invalid.
    Invalid(&'static str),
}

/// A VarInt at `pos`, as an unsigned 32-bit pattern, and the position after it.
pub open spec fn varint_at(buf: Seq<u8>, pos: int) -> Result<(u32, int), ProxyError> {
    match leb_decode(buf.skip(pos), 5) {
        Ok((v, n)) => Ok(((v % 0x1_0000_0000) as u32, pos + n)),
        Err(_) => Err(ProxyError::BadVarInt),
    }
}

/// `k` VarInts from `pos`, and the position after them.
pub open spec fn varints_at(buf: Seq<u8>, pos: int, k: nat) -> Result<(Seq<u32>, int), ProxyError>
    decreases k,
{
    if k == 0 {
        Ok((Seq::empty(), pos))
    } else {
        match varints_at(buf, pos, (k - 1) as nat) {
            Err(e) => Err(e),
            Ok((vs, p)) => match varint_at(buf, p) {
                Err(e) => Err(e),
                Ok((v, q)) => Ok((vs.push(v), q)),
            },
        }
    }
}

/// The palette of a section with `bits` bits per entry, starting at `pos`.
pub open spec fn palette_at(buf: Seq<u8>, pos: int, bits: u8) -> Result<(Option<Seq<u32>>, int), ProxyError> {
    if bits == 0 {
        match varint_at(buf, pos) {
            Err(e) => Err(e),
            Ok((v, p)) => Ok((Some(seq![v]), p)),
        }
    } else if bits <= 8 {
        match varint_at(buf, pos) {
            Err(e) => Err(e),
            Ok((n, p)) => if n == 0 || n > 4096 {
                Err(ProxyError::Invalid("palette length"))
            } else {
                match varints_at(buf, p, n as nat) {
                    Err(e) => Err(e),
                    Ok((ids, q)) => Ok((Some(ids), q)),
                }
            },
        }
    } else if bits <= 32 {
        Ok((None, pos))
    } else {
        Err(ProxyError::Invalid("bits_per_entry"))
    }
}

/// The fields of a section at `pos`: bits per entry, palette, data words,
/// and the position after it.
pub open spec fn section_at(buf: Seq<u8>, pos: int) -> Result<(u8, Option<Seq<u32>>, Seq<u64>, int), ProxyError> {
    if pos + 3 > buf.len() {
        Err(ProxyError::UnexpectedEof)
    } else {
        let bits = buf[pos + 2];
        match palette_at(buf, pos + 3, bits) {
            Err(e) => Err(e),
            Ok((palette, p)) => match varint_at(buf, p) {
                Err(e) => Err(e),
                Ok((n, q)) => if q + 8 * n > buf.len() {
                    Err(ProxyError::UnexpectedEof)
                } else {
                    Ok((bits, palette, Seq::new(n as nat, |i: int| be64_at(buf, q + 8 * i)), q + 8 * n))
                },
            },
        }
    }
}

/// The value packed for block `j` in `data` at `bits` bits per entry (0 for
/// a missing word).
pub open spec fn packed_value(data: Seq<u64>, bits: nat, j: int) -> int {
    let per_long = 64nat / bits;
    let long_idx = j / per_long as int;
    let within = j % per_long as int;
    if long_idx < data.len() {
        ((data[long_idx] >> ((within * bits) as u64)) & (((1u64 << (bits as u64)) - 1) as u64)) as int
    } else {
        0
    }
}

/// The block block `j` of a section decodes to: the state its packed value
/// names (through the palette, if any), resolved; air for a palette index out
/// of range.
pub open spec fn proxy_cell(reg: VanillaRegistry, bits: u8, palette: Option<Seq<u32>>, data: Seq<u64>, j: int) -> (
    BlockStateId,
    BlockProperties,
) {
    let raw = packed_value(data, bits as nat, j);
    let state = match palette {
        Some(p) => if raw < p.len() {
            Some(p[raw])
        } else {
            None
        },
        None => Some(raw as u32),
    };
    match state {
        None => air_cell(),
        Some(s) => if reg.resolve_spec(s).0 == BlockStateId(0) {
            air_cell()
        } else {
            reg.resolve_spec(s)
        },
    }
}

/// Every block of a section decodes to a distinct non-air block: more
/// states than one sub-chunk palette holds.
pub open spec fn overflows(reg: VanillaRegistry, bits: u8, palette: Option<Seq<u32>>, data: Seq<u64>) -> bool {
    &&& forall|j: int| 0 <= j < 4096 ==> (#[trigger] proxy_cell(reg, bits, palette, data, j)).0 != BlockStateId(0)
    &&& forall|a: int, b: int|
        0 <= a < 4096 && 0 <= b < 4096 && a != b ==> (#[trigger] proxy_cell(reg, bits, palette, data, a)).0
            != (#[trigger] proxy_cell(reg, bits, palette, data, b)).0
}

/// A cursor over the section byte buffer.
pub struct SectionReader<'a> {
    buf: &'a [u8],
    pos: usize,
}

/// The ids of the first `i` decoded blocks, plus air.
pub open spec fn cell_ids(reg: VanillaRegistry, bits: u8, palette: Option<Seq<u32>>, data: Seq<u64>, i: int) -> Set<
    BlockStateId,
> {
    Seq::new(i as nat, |j: int| proxy_cell(reg, bits, palette, data, j).0).to_set().insert(BlockStateId(0))
}

/// The sub-chunk palette while a section is written: no id twice, only air
/// and ids already decoded, each with its registered properties.
spec fn palette_tracks(sc: SubChunk, reg: VanillaRegistry, ids: Set<BlockStateId>) -> bool {
    let e = sc.spec_palette().entry_seq();
    let p = sc.spec_palette().prop_seq();
    &&& sc.wf()
    &&& e.no_duplicates()
    &&& e.to_set().subset_of(ids)
    &&& e.len() == p.len()
    &&& e.len() <= 4096
    &&& forall|k: int|
        0 <= k < e.len() ==> (e[k] == BlockStateId(0) && p[k] == BlockProperties::air_spec()) || registered_in(
            reg.engine(),
            (#[trigger] e[k], p[k]),
        )
}

/// A full sub-chunk palette that lacks the next block's id can only come
/// from a section whose blocks are all distinct and non-air.
proof fn lemma_full_palette(entries: Seq<BlockStateId>, cells: Seq<BlockStateId>, id: BlockStateId)
    requires
        entries.no_duplicates(),
        entries.len() == 4096,
        entries.to_set().subset_of(cells.to_set().insert(BlockStateId(0))),
        !entries.contains(id),
        id != BlockStateId(0),
        cells.len() <= 4095,
    ensures
        cells.len() == 4095,
        !cells.contains(BlockStateId(0)),
        cells.no_duplicates(),
        !cells.contains(id),
{
    let u = cells.to_set().insert(BlockStateId(0));
    entries.unique_seq_to_set();
    cells.lemma_cardinality_of_set();
    vstd::set_lib::lemma_len_subset(entries.to_set(), u);
    if cells.contains(BlockStateId(0)) {
        assert(u =~= cells.to_set());
    }
    assert(!cells.to_set().contains(BlockStateId(0)));
    cells.lemma_no_dup_set_cardinality();
    vstd::set_lib::lemma_subset_equality(entries.to_set(), u);
    assert(!entries.to_set().contains(id));
}

/// A value masked to `bits <= 32` bits fits in a `u32`.
pub(crate) proof fn lemma_masked_small(w: u64, sh: u64, bits: u64)
    by (bit_vector)
    requires
        1 <= bits <= 32,
    ensures
        (1u64 << bits) >= 1,
        (w >> sh) & (((1u64 << bits) - 1) as u64) < 0x1_0000_0000,
{
}

proof fn lemma_i32_bits(i: i32)
    by (bit_vector)
    ensures
        (i as u32) as int == if i >= 0 { i as int } else { i as int + 0x1_0000_0000 },
{
}

impl<'a> SectionReader<'a> {
    /// The buffer.
    pub closed spec fn bytes(&self) -> Seq<u8> {
        self.buf@
    }

    /// Bytes consumed so far.
    pub closed spec fn cursor(&self) -> int {
        self.pos as int
    }

    /// Wrap a buffer.
    pub fn new(buf: &'a [u8]) -> (r: Self)
        ensures
            r.bytes() == buf@,
            r.cursor() == 0,
    {
        Self { buf, pos: 0 }
    }

    /// Bytes consumed so far (lets a caller decode consecutive sections).
    pub fn position(&self) -> (r: usize)
        ensures
            r == self.cursor(),
    {
        self.pos
    }

    fn varint(&mut self) -> (r: Result<u32, ProxyError>)
        requires
            old(self).pos <= old(self).buf@.len(),
        ensures
            final(self).buf@ == old(self).buf@,
            final(self).pos <= final(self).buf@.len(),
            match r {
                Ok(v) => varint_at(old(self).buf@, old(self).pos as int) == Ok::<(u32, int), ProxyError>(
                    (v, final(self).pos as int),
                ),
                Err(e) => varint_at(old(self).buf@, old(self).pos as int) == Err::<(u32, int), ProxyError>(e),
            },
    {
        let rest = &self.buf[self.pos..self.buf.len()];
        assert(rest@ =~= self.buf@.skip(self.pos as int));
        match read_varint(rest) {
            Ok((v, n)) => {
                proof {
                    crate::varint::lemma_leb_decode_len(rest@, 5);
                    lemma_i32_bits(v);
                }
                self.pos = self.pos + n;
                Ok(v as u32)
            },
            Err(_) => Err(ProxyError::BadVarInt),
        }
    }

    /// Decode one block-states section into a [`SubChunk`], advancing the
    /// cursor past it (so biome data or the next section follows).
    pub fn read_block_states(&mut self, reg: &VanillaRegistry) -> (r: Result<SubChunk, ProxyError>)
        requires
            reg.wf(),
            old(self).cursor() <= old(self).bytes().len(),
        ensures
            final(self).bytes() == old(self).bytes(),
            match section_at(old(self).bytes(), old(self).cursor()) {
                Err(e) => r == Err::<SubChunk, ProxyError>(e),
                Ok((bits, palette, data, end)) => if bits == 0 {
                    let e = reg.resolve_spec(palette->0[0]);
                    r matches Ok(sc) && final(self).cursor() == end && sc.wf() && forall|x: int, y: int, z: int|
                        0 <= x < 16 && 0 <= y < 16 && 0 <= z < 16 ==> #[trigger] sc.block_at(x, y, z) == (if e.0
                            == BlockStateId(0) {
                            air_cell()
                        } else {
                            e
                        }).0 && sc.props_at(x, y, z) == (if e.0 == BlockStateId(0) {
                            air_cell()
                        } else {
                            e
                        }).1
                } else if data.len() == 0 {
                    r == Err::<SubChunk, ProxyError>(ProxyError::Invalid("missing data array"))
                } else if overflows(*reg, bits, palette, data) {
                    r == Err::<SubChunk, ProxyError>(ProxyError::Invalid("palette overflow"))
                } else {
                    r matches Ok(sc) && final(self).cursor() == end && sc.wf() && forall|x: int, y: int, z: int|
                        0 <= x < 16 && 0 <= y < 16 && 0 <= z < 16 ==> #[trigger] sc.block_at(x, y, z) == proxy_cell(
                            *reg,
                            bits,
                            palette,
                            data,
                            anvil_index(x, y, z),
                        ).0 && sc.props_at(x, y, z) == proxy_cell(*reg, bits, palette, data, anvil_index(x, y, z)).1
                },
            },
    {
        let ghost b = self.buf@;
        let ghost p0 = self.pos as int;
        let len = self.buf.len();
        assert(b.len() == len);
        if len < 3 || self.pos > len - 3 {
            return Err(ProxyError::UnexpectedEof);
        }
        let bits = self.buf[self.pos + 2];
        self.pos = self.pos + 3;
        // The palette, if any.
        let mut palette: Vec<u32> = Vec::new();
        let has_palette = bits <= 8;
        if bits == 0 {
            let v = match self.varint() {
                Ok(v) => v,
                Err(e) => {
                    return Err(e);
                },
            };
            palette.push(v);
        } else if bits <= 8 {
            let n = match self.varint() {
                Ok(v) => v,
                Err(e) => {
                    return Err(e);
                },
            };
            if n == 0 || n > 4096 {
                return Err(ProxyError::Invalid("palette length"));
            }
            let ghost q0 = self.pos as int;
            let mut i: u32 = 0;
            while i < n
                invariant
                    self.buf@ == b,
                    b == old(self).buf@,
                    p0 == old(self).pos,
                    p0 + 3 <= b.len(),
                    bits == b[p0 + 2],
                    1 <= bits <= 8,
                    0 < n <= 4096,
                    varint_at(b, p0 + 3) == Ok::<(u32, int), ProxyError>((n, q0)),
                    self.pos <= b.len(),
                    i <= n,
                    varints_at(b, q0, i as nat) == Ok::<(Seq<u32>, int), ProxyError>((palette@, self.pos as int)),
                decreases n - i,
            {
                let v = match self.varint() {
                    Ok(v) => v,
                    Err(e) => {
                        proof {
                            assert(varints_at(b, q0, (i + 1) as nat) == Err::<(Seq<u32>, int), ProxyError>(e));
                            lemma_varints_err(b, q0, (i + 1) as nat, n as nat);
                        }
                        return Err(e);
                    },
                };
                palette.push(v);
                i += 1;
            }
        } else if bits > 32 {
            return Err(ProxyError::Invalid("bits_per_entry"));
        }
        let ghost pal = if bits <= 8 { Some(palette@) } else { None::<Seq<u32>> };
        assert(palette_at(b, p0 + 3, bits) == Ok::<(Option<Seq<u32>>, int), ProxyError>((pal, self.pos as int)));
        // The data words.
        let data_len = match self.varint() {
            Ok(v) => v as usize,
            Err(e) => {
                return Err(e);
            },
        };
        let q = self.pos;
        if data_len > (len - q) / 8 {
            return Err(ProxyError::UnexpectedEof);
        }
        let mut data: Vec<u64> = Vec::new();
        let mut w: usize = 0;
        while w < data_len
            invariant
                self.buf@ == b,
                b.len() == len,
                q + 8 * data_len <= len,
                w <= data_len,
                data@ =~= Seq::new(w as nat, |k: int| be64_at(b, q + 8 * k)),
            decreases data_len - w,
        {
            data.push(read_u64_be(self.buf, q + 8 * w));
            w += 1;
        }
        self.pos = q + 8 * data_len;
        let ghost dv = data@;
        assert(section_at(b, p0) == Ok::<(u8, Option<Seq<u32>>, Seq<u64>, int), ProxyError>(
            (bits, pal, dv, self.pos as int),
        ));
        if bits == 0 {
            assert(pal == Some(seq![palette@[0]]));
            return Ok(single_valued(reg, palette[0]));
        }
        if data_len == 0 {
            return Err(ProxyError::Invalid("missing data array"));
        }
        decode_cells(reg, bits, &palette, has_palette, &data)
    }
}

/// A section whose every block is the state `v`.
fn single_valued(reg: &VanillaRegistry, v: u32) -> (sc: SubChunk)
    requires
        reg.wf(),
    ensures
        ({
            let e = reg.resolve_spec(v);
            let want = if e.0 == BlockStateId(0) { air_cell() } else { e };
            sc.wf() && forall|x: int, y: int, z: int|
                0 <= x < 16 && 0 <= y < 16 && 0 <= z < 16 ==> #[trigger] sc.block_at(x, y, z) == want.0
                    && sc.props_at(x, y, z) == want.1
        }),
{
    let (id, props) = reg.resolve(v);
    let mut sc = SubChunk::new();
    if id != BlockStateId::air() {
        fill(&mut sc, id, props);
    } else {
        proof {
            assert forall|x: int, y: int, z: int|
                0 <= x < 16 && 0 <= y < 16 && 0 <= z < 16 implies #[trigger] sc.block_at(x, y, z) == air_cell().0
                && sc.props_at(x, y, z) == air_cell().1 by {
                crate::morton::lemma_morton_decode_encode(x as u8, y as u8, z as u8);
            }
        }
    }
    sc
}

proof fn lemma_varints_err(b: Seq<u8>, pos: int, k: nat, n: nat)
    requires
        k <= n,
        varints_at(b, pos, k) is Err,
    ensures
        varints_at(b, pos, n) == varints_at(b, pos, k),
    decreases n - k,
{
    if k < n {
        lemma_varints_err(b, pos, k, (n - 1) as nat);
    }
}

/// Fill a fresh sub-chunk with one registered non-air block.
fn fill(sc: &mut SubChunk, id: BlockStateId, props: BlockProperties)
    requires
        old(sc).wf(),
        old(sc).blocks() == Seq::new(4096, |_m: int| BlockStateId(0)),
        old(sc).props() == Seq::new(4096, |_m: int| BlockProperties::air_spec()),
        old(sc).spec_palette().entry_seq() == seq![BlockStateId(0)],
        old(sc).spec_palette().prop_seq() == seq![BlockProperties::air_spec()],
        id != BlockStateId(0),
    ensures
        final(sc).wf(),
        forall|x: int, y: int, z: int|
            0 <= x < 16 && 0 <= y < 16 && 0 <= z < 16 ==> #[trigger] final(sc).block_at(x, y, z) == id
                && final(sc).props_at(x, y, z) == props,
{
    let mut j: usize = 0;
    proof {
        assert forall|k: int| 0 <= k < 4096 implies 0 <= #[trigger] anvil_morton(k) < 4096 by {
            lemma_anvil_morton_range(k);
        }
    }
    while j < 4096
        invariant
            j <= 4096,
            id != BlockStateId(0),
            sc.wf(),
            1 <= sc.spec_palette().entry_seq().len() <= 2,
            sc.spec_palette().entry_seq()[0] == BlockStateId(0),
            sc.spec_palette().entry_seq().len() == 2 ==> sc.spec_palette().entry_seq()[1] == id
                && sc.spec_palette().prop_seq()[1] == props,
            sc.spec_palette().entry_seq().len() == sc.spec_palette().prop_seq().len(),
            forall|k: int|
                0 <= k < 4096 ==> sc.blocks()[anvil_morton(k)] == (if k < j { id } else { BlockStateId(0) })
                    && sc.props()[anvil_morton(k)] == (if k < j { props } else { BlockProperties::air_spec() }),
        decreases 4096 - j,
    {
        proof {
            lemma_anvil_split(j as int);
            lemma_anvil_morton_range(j as int);
        }
        let ghost before = *sc;
        sc.set(j % 16, j / 256, (j / 16) % 16, id, props);
        proof {
            assert forall|k: int| 0 <= k < 4096 implies sc.blocks()[anvil_morton(k)] == (if k < j + 1 {
                id
            } else {
                BlockStateId(0)
            }) && sc.props()[anvil_morton(k)] == (if k < j + 1 {
                props
            } else {
                BlockProperties::air_spec()
            }) by {
                lemma_anvil_morton_range(k);
                assert(before.blocks()[anvil_morton(k)] == (if k < j { id } else { BlockStateId(0) }));
                assert(before.props()[anvil_morton(k)] == (if k < j { props } else { BlockProperties::air_spec() }));
                before.lemma_masks_match();
                if k != j {
                    lemma_anvil_morton_injective(k, j as int);
                }
            }
            if !before.spec_palette().has_id(id) {
                assert(before.spec_palette().entry_seq().len() == 1);
            }
        }
        j += 1;
    }
    proof {
        assert forall|x: int, y: int, z: int|
            0 <= x < 16 && 0 <= y < 16 && 0 <= z < 16 implies #[trigger] sc.block_at(x, y, z) == id
            && sc.props_at(x, y, z) == props by {
            lemma_anvil_coords(x, y, z);
            assert(anvil_morton(anvil_index(x, y, z)) == morton_of(x, y, z));
        }
    }
}

/// Whether the sub-chunk palette already holds `id`.
pub(crate) fn palette_has(sc: &SubChunk, id: BlockStateId) -> (r: bool)
    ensures
        r == sc.spec_palette().has_id(id),
{
    let entries = sc.palette().entries();
    let mut k: usize = 0;
    while k < entries.len()
        invariant
            k <= entries@.len(),
            entries@ == sc.spec_palette().entry_seq(),
            forall|t: int| 0 <= t < k ==> entries@[t] != id,
        decreases entries@.len() - k,
    {
        if entries[k] == id {
            return true;
        }
        k += 1;
    }
    false
}

/// Decode the 4096 packed blocks of a section with `bits` bits per entry.
fn decode_cells(reg: &VanillaRegistry, bits: u8, palette: &Vec<u32>, has_palette: bool, data: &Vec<u64>) -> (r: Result<
    SubChunk,
    ProxyError,
>)
    requires
        reg.wf(),
        1 <= bits <= 32,
        has_palette == (bits <= 8),
        data@.len() >= 1,
    ensures
        ({
            let pal = if has_palette { Some(palette@) } else { None::<Seq<u32>> };
            if overflows(*reg, bits, pal, data@) {
                r == Err::<SubChunk, ProxyError>(ProxyError::Invalid("palette overflow"))
            } else {
                r matches Ok(sc) && sc.wf() && forall|x: int, y: int, z: int|
                    0 <= x < 16 && 0 <= y < 16 && 0 <= z < 16 ==> #[trigger] sc.block_at(x, y, z) == proxy_cell(
                        *reg,
                        bits,
                        pal,
                        data@,
                        anvil_index(x, y, z),
                    ).0 && sc.props_at(x, y, z) == proxy_cell(*reg, bits, pal, data@, anvil_index(x, y, z)).1
            }
        }),
{
    let ghost pal = if has_palette { Some(palette@) } else { None::<Seq<u32>> };
    let ghost rg = *reg;
    let ghost dv = data@;
    let b = bits as usize;
    let per_long = 64 / b;
    assert(per_long >= 2) by (nonlinear_arith)
        requires
            per_long == 64usize / b,
            1 <= b <= 32,
    ;
    let b64 = bits as u64;
    proof {
        lemma_masked_small(0, 0, b64);
    }
    let mask: u64 = (1u64 << b64) - 1;
    let mut sc = SubChunk::new();
    let mut i: usize = 0;
    proof {
        assert forall|k: int| 0 <= k < 4096 implies 0 <= #[trigger] anvil_morton(k) < 4096 by {
            lemma_anvil_morton_range(k);
        }
        let e = sc.spec_palette().entry_seq();
        assert(e.to_set().subset_of(cell_ids(rg, bits, pal, dv, 0))) by {
            assert forall|x: BlockStateId| e.to_set().contains(x) implies cell_ids(rg, bits, pal, dv, 0).contains(x) by {
                assert(e[0] == BlockStateId(0));
            }
        }
    }
    while i < 4096
        invariant
            i <= 4096,
            rg == *reg,
            reg.wf(),
            dv == data@,
            pal == (if has_palette { Some(palette@) } else { None::<Seq<u32>> }),
            1 <= bits <= 32,
            b == bits as usize,
            has_palette == (bits <= 8),
            per_long >= 2,
            per_long == 64usize / b,
            mask == ((1u64 << (bits as u64)) - 1) as u64,
            palette_tracks(sc, rg, cell_ids(rg, bits, pal, dv, i as int)),
            overflows(rg, bits, pal, dv) ==> sc.spec_palette().entry_seq().len() == i + 1,
            forall|k: int|
                0 <= k < 4096 ==> sc.blocks()[anvil_morton(k)] == (if k < i {
                    proxy_cell(rg, bits, pal, dv, k).0
                } else {
                    BlockStateId(0)
                }) && sc.props()[anvil_morton(k)] == (if k < i {
                    proxy_cell(rg, bits, pal, dv, k).1
                } else {
                    BlockProperties::air_spec()
                }),
        decreases 4096 - i,
    {
        let long_idx = i / per_long;
        let within = i % per_long;
        assert(within * b < 64) by (nonlinear_arith)
            requires
                within < per_long,
                per_long == 64usize / b,
                1 <= b <= 32,
        ;
        let raw: u64 = if long_idx < data.len() {
            (data[long_idx] >> ((within * b) as u64)) & mask
        } else {
            0
        };
        proof {
            if long_idx < data.len() {
                lemma_masked_small(data@[long_idx as int], (within * b) as u64, bits as u64);
            }
        }
        assert(raw as int == packed_value(dv, bits as nat, i as int));
        let ghost cell = proxy_cell(rg, bits, pal, dv, i as int);
        let ghost ids_before = cell_ids(rg, bits, pal, dv, i as int);
        let ghost before = sc;
        let mut state: Option<u32> = None;
        if has_palette {
            if raw < palette.len() as u64 {
                state = Some(palette[raw as usize]);
            }
        } else {
            state = Some(raw as u32);
        }
        match state {
            None => {},
            Some(st) => {
                let (id, props) = reg.resolve(st);
                if id != BlockStateId::air() {
                    proof {
                        lemma_anvil_split(i as int);
                        lemma_anvil_morton_range(i as int);
                        assert(cell == (id, props));
                    }
                    if sc.palette().distinct() >= 4096 && !palette_has(&sc, id) {
                        proof {
                            let cells = Seq::new(i as nat, |j: int| proxy_cell(rg, bits, pal, dv, j).0);
                            assert(cells.to_set().insert(BlockStateId(0)) == ids_before);
                            let e = sc.spec_palette().entry_seq();
                            assert(!e.contains(id));
                            lemma_full_palette(e, cells, id);
                            assert forall|j: int| 0 <= j < 4096 implies (#[trigger] proxy_cell(
                                rg,
                                bits,
                                pal,
                                dv,
                                j,
                            )).0 != BlockStateId(0) by {
                                if j < 4095 {
                                    assert(cells[j] == proxy_cell(rg, bits, pal, dv, j).0);
                                }
                            }
                            assert forall|a: int, c: int|
                                0 <= a < 4096 && 0 <= c < 4096 && a != c implies (#[trigger] proxy_cell(
                                rg,
                                bits,
                                pal,
                                dv,
                                a,
                            )).0 != (#[trigger] proxy_cell(rg, bits, pal, dv, c)).0 by {
                                if a < 4095 {
                                    assert(cells[a] == proxy_cell(rg, bits, pal, dv, a).0);
                                }
                                if c < 4095 {
                                    assert(cells[c] == proxy_cell(rg, bits, pal, dv, c).0);
                                }
                            }
                        }
                        return Err(ProxyError::Invalid("palette overflow"));
                    }
                    proof {
                        let e = sc.spec_palette().entry_seq();
                        let p = sc.spec_palette().prop_seq();
                        assert forall|k: int| 0 <= k < e.len() && e[k] == id implies p[k] == props by {
                            assert((e[k] == BlockStateId(0) && p[k] == BlockProperties::air_spec()) || registered_in(
                                rg.engine(),
                                (e[k], p[k]),
                            ));
                        }
                    }
                    sc.set(i % 16, i / 256, (i / 16) % 16, id, props);
                }
            },
        }
        proof {
            lemma_cells_step(rg, bits, pal, dv, i as int);
            let ids_after = cell_ids(rg, bits, pal, dv, i + 1);
            let e0 = before.spec_palette().entry_seq();
            let e1 = sc.spec_palette().entry_seq();
            let p0 = before.spec_palette().prop_seq();
            let p1 = sc.spec_palette().prop_seq();
            if cell.0 != BlockStateId(0) && !before.spec_palette().has_id(cell.0) {
                assert(e1 == e0.push(cell.0));
                assert(!e0.contains(cell.0));
                assert(e1.no_duplicates()) by {
                    assert forall|a: int, c: int| 0 <= a < e1.len() && 0 <= c < e1.len() && a != c implies e1[a]
                        != e1[c] by {
                        if a < e0.len() && c < e0.len() {
                        } else if a == e0.len() {
                            assert(e1[c] == e0[c]);
                        } else {
                            assert(e1[a] == e0[a]);
                        }
                    }
                }
                assert(e1.to_set().subset_of(ids_after)) by {
                    assert forall|x: BlockStateId| e1.to_set().contains(x) implies ids_after.contains(x) by {
                        if x != cell.0 {
                            let k = choose|k: int| 0 <= k < e1.len() && e1[k] == x;
                            assert(e0.to_set().contains(e0[k]));
                        }
                    }
                }
                assert forall|k: int|
                    0 <= k < e1.len() implies (e1[k] == BlockStateId(0) && p1[k] == BlockProperties::air_spec())
                    || registered_in(rg.engine(), (#[trigger] e1[k], p1[k])) by {
                    if k < e0.len() {
                        assert(e1[k] == e0[k] && p1[k] == p0[k]);
                    }
                }
                if overflows(rg, bits, pal, dv) {
                    assert(e0.len() == i + 1);
                }
            } else {
                assert(e1.to_set().subset_of(ids_after));
                if overflows(rg, bits, pal, dv) {
                    assert(proxy_cell(rg, bits, pal, dv, i as int).0 != BlockStateId(0));
                    assert(!e0.contains(cell.0)) by {
                        if e0.contains(cell.0) {
                            assert(e0.to_set().contains(cell.0));
                            let cells = Seq::new(i as nat, |j: int| proxy_cell(rg, bits, pal, dv, j).0);
                            assert(cells.to_set().contains(cell.0));
                            let j = choose|j: int| 0 <= j < cells.len() && cells[j] == cell.0;
                            assert(proxy_cell(rg, bits, pal, dv, j).0 != proxy_cell(rg, bits, pal, dv, i as int).0);
                        }
                    }
                }
            }
            assert forall|k: int| 0 <= k < 4096 implies sc.blocks()[anvil_morton(k)] == (if k < i + 1 {
                proxy_cell(rg, bits, pal, dv, k).0
            } else {
                BlockStateId(0)
            }) && sc.props()[anvil_morton(k)] == (if k < i + 1 {
                proxy_cell(rg, bits, pal, dv, k).1
            } else {
                BlockProperties::air_spec()
            }) by {
                lemma_anvil_morton_range(k);
                assert(before.blocks()[anvil_morton(k)] == (if k < i {
                    proxy_cell(rg, bits, pal, dv, k).0
                } else {
                    BlockStateId(0)
                }));
                assert(before.props()[anvil_morton(k)] == (if k < i {
                    proxy_cell(rg, bits, pal, dv, k).1
                } else {
                    BlockProperties::air_spec()
                }));
                before.lemma_masks_match();
                if k != i {
                    lemma_anvil_morton_injective(k, i as int);
                }
            }
        }
        i += 1;
    }
    proof {
        assert forall|x: int, y: int, z: int|
            0 <= x < 16 && 0 <= y < 16 && 0 <= z < 16 implies #[trigger] sc.block_at(x, y, z) == proxy_cell(
            rg,
            bits,
            pal,
            dv,
            anvil_index(x, y, z),
        ).0 && sc.props_at(x, y, z) == proxy_cell(rg, bits, pal, dv, anvil_index(x, y, z)).1 by {
            lemma_anvil_coords(x, y, z);
            assert(anvil_morton(anvil_index(x, y, z)) == morton_of(x, y, z));
        }
        if overflows(rg, bits, pal, dv) {
            sc.lemma_masks_match();
        }
    }
    Ok(sc)
}

/// The ids seen grow by the next block's id.
proof fn lemma_cells_step(reg: VanillaRegistry, bits: u8, pal: Option<Seq<u32>>, data: Seq<u64>, i: int)
    requires
        0 <= i,
    ensures
        cell_ids(reg, bits, pal, data, i + 1) == cell_ids(reg, bits, pal, data, i).insert(
            proxy_cell(reg, bits, pal, data, i).0,
        ),
{
    let a = Seq::new(i as nat, |j: int| proxy_cell(reg, bits, pal, data, j).0);
    let c = Seq::new((i + 1) as nat, |j: int| proxy_cell(reg, bits, pal, data, j).0);
    let x = proxy_cell(reg, bits, pal, data, i).0;
    assert(c =~= a + seq![x]);
    Seq::lemma_to_set_insert_commutes(a, x);
    assert(c.to_set() == a.to_set().insert(x));
    assert(cell_ids(reg, bits, pal, data, i + 1) =~= cell_ids(reg, bits, pal, data, i).insert(
        proxy_cell(reg, bits, pal, data, i).0,
    ));
}

/// Decode a single block-states section from `buf`.
pub fn decode_section(buf: &[u8], reg: &VanillaRegistry) -> (r: Result<SubChunk, ProxyError>)
    requires
        reg.wf(),
    ensures
        match section_at(buf@, 0) {
            Err(e) => r == Err::<SubChunk, ProxyError>(e),
            Ok((bits, palette, data, end)) => if bits == 0 {
                let e = reg.resolve_spec(palette->0[0]);
                r matches Ok(sc) && sc.wf() && forall|x: int, y: int, z: int|
                    0 <= x < 16 && 0 <= y < 16 && 0 <= z < 16 ==> #[trigger] sc.block_at(x, y, z) == (if e.0
                        == BlockStateId(0) {
                        air_cell()
                    } else {
                        e
                    }).0 && sc.props_at(x, y, z) == (if e.0 == BlockStateId(0) {
                        air_cell()
                    } else {
                        e
                    }).1
            } else if data.len() == 0 {
                r == Err::<SubChunk, ProxyError>(ProxyError::Invalid("missing data array"))
            } else if overflows(*reg, bits, palette, data) {
                r == Err::<SubChunk, ProxyError>(ProxyError::Invalid("palette overflow"))
            } else {
                r matches Ok(sc) && sc.wf() && forall|x: int, y: int, z: int|
                    0 <= x < 16 && 0 <= y < 16 && 0 <= z < 16 ==> #[trigger] sc.block_at(x, y, z) == proxy_cell(
                        *reg,
                        bits,
                        palette,
                        data,
                        anvil_index(x, y, z),
                    ).0 && sc.props_at(x, y, z) == proxy_cell(*reg, bits, palette, data, anvil_index(x, y, z)).1
            },
        },
{
    let mut reader = SectionReader::new(buf);
    reader.read_block_states(reg)
}

} // verus!
