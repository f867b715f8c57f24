//! Anvil region (`.mca`) reading and chunk-section decoding.
//!
//! An Anvil region file stores a 32×32 grid of chunks behind an 8 KiB header
//! (1024 location entries + 1024 timestamps). Each present chunk is a
//! length-prefixed, compressed NBT blob. This module extracts those blobs,
//! decompresses them (zlib / uncompressed), and decodes the modern
//! `block_states` palette + packed `data` layout into engine sub-chunks.

use vstd::prelude::*;
use crate::block::{BlockProperties, BlockStateId};
use crate::block_map::Interner;
use crate::bytes::{be32_at, read_u32_be};
use crate::names::chars_of;
use crate::nbt::{field, parse, parse_spec, tree, Nbt, NbtError, NbtTree};
use crate::subchunk::{morton_of, SubChunk};

verus! {

/// Upper bound on a single decompressed chunk's NBT (16 MiB): the cap stops a
/// crafted region file from forcing an unbounded allocation during inflation.
pub const MAX_CHUNK_NBT: usize = 16777216;

/// Errors from reading an Anvil region or decoding a chunk.
#[derive(Debug)]
pub enum AnvilError {
    /// The region file is smaller than its 8 KiB header.
    ShortHeader,
    /// A chunk's declared extent runs past the end of the file.
    BadChunkExtent,
    /// The chunk used a compression scheme this reader does not implement.
    UnsupportedCompression(u8),
    /// Decompression failed; the decompressor's report.
    Inflate(String),
    /// The chunk NBT could not be parsed.
    Nbt(NbtError),
    /// The region file name was not `r.<x>.<z>.mca`.
    BadRegionName,
}

// ---------------------------------------------------------------------------
// Region file names
// ---------------------------------------------------------------------------

/// The value of a run of decimal digits.
pub open spec fn digits_value(s: Seq<char>) -> int
    decreases s.len(),
{
    if s.len() == 0 {
        0
    } else {
        10 * digits_value(s.drop_last()) + (s.last() as int - '0' as int)
    }
}

/// Every character is an ASCII digit.
pub open spec fn all_digits(s: Seq<char>) -> bool {
    forall|i: int| 0 <= i < s.len() ==> '0' <= #[trigger] s[i] <= '9'
}

/// What `str::parse::<i32>` gives: an optional sign, then at least one
/// digit, and a value in range.
pub open spec fn parse_i32_spec(s: Seq<char>) -> Option<i32> {
    let neg = s.len() > 0 && s[0] == '-';
    let body = if s.len() > 0 && (s[0] == '-' || s[0] == '+') {
        s.drop_first()
    } else {
        s
    };
    if body.len() == 0 || !all_digits(body) {
        None
    } else {
        let v = if neg {
            -digits_value(body)
        } else {
            digits_value(body)
        };
        if i32::MIN <= v <= i32::MAX {
            Some(v as i32)
        } else {
            None
        }
    }
}

/// `p` without its trailing `/` separators and trailing `.` components
/// (`a/b/./` names `b`, as a path's components do).
pub open spec fn strip_slashes(p: Seq<char>) -> Seq<char>
    decreases p.len(),
{
    if p.len() > 0 && p.last() == '/' {
        strip_slashes(p.drop_last())
    } else if p.len() >= 2 && p.last() == '.' && p[p.len() - 2] == '/' {
        strip_slashes(p.drop_last())
    } else {
        p
    }
}

/// The characters after the last `/` of `p`.
pub open spec fn last_segment(p: Seq<char>) -> Seq<char>
    decreases p.len(),
{
    if p.len() == 0 {
        p
    } else if p.last() == '/' {
        Seq::empty()
    } else {
        last_segment(p.drop_last()).push(p.last())
    }
}

/// The file name of a `/`-separated path: its last component.
pub open spec fn file_name_of(p: Seq<char>) -> Seq<char> {
    last_segment(strip_slashes(p))
}

/// Number of `.` in `s`.
pub open spec fn dots(s: Seq<char>) -> nat
    decreases s.len(),
{
    if s.len() == 0 {
        0
    } else {
        dots(s.drop_last()) + if s.last() == '.' { 1nat } else { 0nat }
    }
}

/// Index of the first `.` in `s`, or -1.
pub open spec fn first_dot(s: Seq<char>) -> int
    decreases s.len(),
{
    if s.len() == 0 {
        -1
    } else if first_dot(s.drop_last()) >= 0 {
        first_dot(s.drop_last())
    } else if s.last() == '.' {
        s.len() - 1
    } else {
        -1
    }
}

/// The region grid coordinates named by a file name `r.<x>.<z>.mca`: four
/// `.`-separated parts, the first `r`, the last `mca`, the middle two integers.
pub open spec fn region_name_spec(name: Seq<char>) -> Option<(i32, i32)> {
    if name.len() >= 6 && name.subrange(0, 2) == "r."@ && name.subrange(name.len() - 4, name.len() as int)
        == ".mca"@ && dots(name.subrange(2, name.len() - 4)) == 1 {
        let mid = name.subrange(2, name.len() - 4);
        let k = first_dot(mid);
        match (parse_i32_spec(mid.subrange(0, k)), parse_i32_spec(mid.subrange(k + 1, mid.len() as int))) {
            (Some(x), Some(z)) => Some((x, z)),
            _ => None,
        }
    } else {
        None
    }
}

proof fn lemma_digits_push(t: Seq<char>, c: char)
    ensures
        digits_value(t.push(c)) == 10 * digits_value(t) + (c as int - '0' as int),
{
    assert(t.push(c).drop_last() =~= t);
}

/// `str::parse::<i32>` over `s[from..to]`: an optional sign, then digits.
fn parse_i32_chars(s: &Vec<char>, from: usize, to: usize) -> (r: Option<i32>)
    requires
        from <= to <= s@.len(),
    ensures
        r == parse_i32_spec(s@.subrange(from as int, to as int)),
{
    let ghost t = s@.subrange(from as int, to as int);
    let mut i = from;
    let mut neg = false;
    if i < to && (s[i] == '-' || s[i] == '+') {
        neg = s[i] == '-';
        i += 1;
    }
    let ghost body = s@.subrange(i as int, to as int);
    proof {
        if t.len() > 0 && (t[0] == '-' || t[0] == '+') {
            assert(body =~= t.drop_first());
        } else {
            assert(body =~= t);
        }
    }
    if i == to {
        return None;
    }
    proof {
        assert(neg == (t.len() > 0 && t[0] == '-'));
    }
    let start = i;
    let mut acc: u64 = 0;
    let mut big = false;
    assert(s@.subrange(start as int, i as int) =~= Seq::<char>::empty());
    while i < to
        invariant
            start <= i <= to <= s@.len(),
            start < to,
            t == s@.subrange(from as int, to as int),
            body == s@.subrange(start as int, to as int),
            body == (if t.len() > 0 && (t[0] == '-' || t[0] == '+') { t.drop_first() } else { t }),
            neg == (t.len() > 0 && t[0] == '-'),
            all_digits(s@.subrange(start as int, i as int)),
            digits_value(s@.subrange(start as int, i as int)) >= 0,
            !big ==> acc == digits_value(s@.subrange(start as int, i as int)) && acc <= 2147483648,
            big ==> digits_value(s@.subrange(start as int, i as int)) > 2147483648,
        decreases to - i,
    {
        let c = s[i];
        if !('0' <= c && c <= '9') {
            proof {
                assert(body[i - start] == c);
            }
            return None;
        }
        proof {
            lemma_digits_push(s@.subrange(start as int, i as int), c);
            assert(s@.subrange(start as int, i + 1) =~= s@.subrange(start as int, i as int).push(c));
        }
        if !big {
            acc = acc * 10 + (c as u64 - '0' as u64);
            if acc > 2147483648 {
                big = true;
            }
        }
        i += 1;
    }
    assert(s@.subrange(start as int, to as int) =~= body);
    if big {
        return None;
    }
    if neg {
        Some((0i64 - acc as i64) as i32)
    } else if acc <= 2147483647 {
        Some(acc as i32)
    } else {
        None
    }
}

/// Bounds `(start, end)` of the file name of the path `p`.
fn file_name_bounds(p: &Vec<char>) -> (r: (usize, usize))
    ensures
        r.0 <= r.1 <= p@.len(),
        p@.subrange(r.0 as int, r.1 as int) == file_name_of(p@),
{
    let mut end = p.len();
    assert(p@.subrange(0, end as int) =~= p@);
    while end > 0 && (p[end - 1] == '/' || (end >= 2 && p[end - 1] == '.' && p[end - 2] == '/'))
        invariant
            end <= p@.len(),
            strip_slashes(p@) == strip_slashes(p@.subrange(0, end as int)),
        decreases end,
    {
        assert(p@.subrange(0, end as int).drop_last() =~= p@.subrange(0, end - 1));
        end -= 1;
    }
    let mut start = end;
    assert(p@.subrange(start as int, end as int) =~= Seq::<char>::empty());
    while start > 0 && p[start - 1] != '/'
        invariant
            start <= end <= p@.len(),
            last_segment(p@.subrange(0, end as int)) == last_segment(p@.subrange(0, start as int)) + p@.subrange(
                start as int,
                end as int,
            ),
        decreases start,
    {
        let ghost q = p@.subrange(0, start as int);
        assert(q.drop_last() =~= p@.subrange(0, start - 1));
        assert(p@.subrange(start - 1, end as int) =~= seq![q.last()] + p@.subrange(start as int, end as int));
        assert(last_segment(q) == last_segment(q.drop_last()).push(q.last()));
        assert(last_segment(q.drop_last()).push(q.last()) + p@.subrange(start as int, end as int)
            =~= last_segment(q.drop_last()) + p@.subrange(start - 1, end as int));
        start -= 1;
    }
    assert(last_segment(p@.subrange(0, start as int)) =~= Seq::<char>::empty());
    assert(Seq::<char>::empty() + p@.subrange(start as int, end as int) =~= p@.subrange(start as int, end as int));
    (start, end)
}

proof fn lemma_dots_push(t: Seq<char>, c: char)
    ensures
        dots(t.push(c)) == dots(t) + if c == '.' { 1nat } else { 0nat },
        first_dot(t.push(c)) == if first_dot(t) >= 0 { first_dot(t) } else if c == '.' { t.len() as int } else { -1 },
{
    assert(t.push(c).drop_last() =~= t);
}

/// Parse the region grid coordinates from a `r.<x>.<z>.mca` path.
pub fn region_coords_from_path(path: &str) -> (r: Result<(i32, i32), AnvilError>)
    ensures
        match region_name_spec(file_name_of(path@)) {
            Some(c) => r matches Ok(v) && v == c,
            None => r matches Err(AnvilError::BadRegionName),
        },
{
    let p = chars_of(path);
    let (a, b) = file_name_bounds(&p);
    let ghost name = p@.subrange(a as int, b as int);
    let n = b - a;
    if n < 6 || p[a] != 'r' || p[a + 1] != '.' || p[b - 4] != '.' || p[b - 3] != 'm' || p[b - 2] != 'c' || p[b
        - 1] != 'a' {
        proof {
            if name.len() >= 6 {
                if name.subrange(0, 2) == "r."@ {
                    reveal_strlit("r.");
                    assert(name.subrange(0, 2)[0] == name[0]);
                    assert(name.subrange(0, 2)[1] == name[1]);
                }
                if name.subrange(name.len() - 4, name.len() as int) == ".mca"@ {
                    reveal_strlit(".mca");
                    assert(name.subrange(name.len() - 4, name.len() as int)[0] == name[name.len() - 4]);
                    assert(name.subrange(name.len() - 4, name.len() as int)[1] == name[name.len() - 3]);
                    assert(name.subrange(name.len() - 4, name.len() as int)[2] == name[name.len() - 2]);
                    assert(name.subrange(name.len() - 4, name.len() as int)[3] == name[name.len() - 1]);
                }
            }
        }
        return Err(AnvilError::BadRegionName);
    }
    proof {
        reveal_strlit("r.");
        reveal_strlit(".mca");
        assert(name.subrange(0, 2) =~= "r."@);
        assert(name.subrange(name.len() - 4, name.len() as int) =~= ".mca"@);
    }
    let lo = a + 2;
    let hi = b - 4;
    let ghost mid = p@.subrange(lo as int, hi as int);
    assert(mid =~= name.subrange(2, name.len() - 4));
    let mut count: usize = 0;
    let mut k: usize = hi;
    let mut i = lo;
    assert(p@.subrange(lo as int, i as int) =~= Seq::<char>::empty());
    while i < hi
        invariant
            lo <= i <= hi <= p@.len(),
            mid == p@.subrange(lo as int, hi as int),
            count == dots(p@.subrange(lo as int, i as int)),
            count <= i - lo,
            first_dot(p@.subrange(lo as int, i as int)) == if k < hi { k - lo } else { -1 },
            k == hi || lo <= k < i,
            (count == 0) == (k == hi),
        decreases hi - i,
    {
        proof {
            lemma_dots_push(p@.subrange(lo as int, i as int), p@[i as int]);
            assert(p@.subrange(lo as int, i + 1) =~= p@.subrange(lo as int, i as int).push(p@[i as int]));
        }
        if p[i] == '.' {
            count += 1;
            if k == hi {
                k = i;
            }
        }
        i += 1;
    }
    if count != 1 {
        return Err(AnvilError::BadRegionName);
    }
    assert(k < hi);
    assert(mid.subrange(0, k - lo) =~= p@.subrange(lo as int, k as int));
    assert(mid.subrange(k - lo + 1, mid.len() as int) =~= p@.subrange(k + 1, hi as int));
    let x = match parse_i32_chars(&p, lo, k) {
        Some(v) => v,
        None => {
            return Err(AnvilError::BadRegionName);
        },
    };
    let z = match parse_i32_chars(&p, k + 1, hi) {
        Some(v) => v,
        None => {
            return Err(AnvilError::BadRegionName);
        },
    };
    Ok((x, z))
}

// ---------------------------------------------------------------------------
// Region files
// ---------------------------------------------------------------------------

/// What `miniz_oxide::inflate::decompress_to_vec_zlib_with_limit` gives for
/// `input` and `limit`: the inflated bytes, or the decompressor's error report.
pub uninterp spec fn zlib_inflate(input: Seq<u8>, limit: usize) -> Result<Seq<u8>, Seq<char>>;

/// Inflate zlib-wrapped deflate data, producing at most `limit` bytes.
///
/// Calls `miniz_oxide::inflate::decompress_to_vec_zlib_with_limit`; its result
/// is named [`zlib_inflate`], and (as its source shows) a successful output
/// never exceeds the limit. A failure is rendered with `Debug`.
#[verifier::external_body]
fn inflate_zlib(input: &[u8], limit: usize) -> (r: Result<Vec<u8>, String>)
    ensures
        match r {
            Ok(v) => zlib_inflate(input@, limit) == Ok::<Seq<u8>, Seq<char>>(v@) && v@.len() <= limit,
            Err(m) => zlib_inflate(input@, limit) == Err::<Seq<u8>, Seq<char>>(m@),
        },
{
    match miniz_oxide::inflate::decompress_to_vec_zlib_with_limit(input, limit) {
        Ok(v) => Ok(v),
        Err(e) => Err(format!("{e:?}")),
    }
}

/// Where a chunk slot's bytes are, as its header entry says.
pub enum ChunkSlot {
    /// No chunk is stored in the slot.
    Empty,
    /// The declared extent runs past the end of the file.
    BadExtent,
    /// A stored chunk: its compression scheme and payload byte range.
    Stored { scheme: u8, start: int, end: int },
}

/// The header entry of local chunk `(lx, lz)` of region bytes `data`.
pub open spec fn chunk_slot(data: Seq<u8>, lx: int, lz: int) -> ChunkSlot {
    let h = (lx + lz * 32) * 4;
    let offset = data[h] as int * 65536 + data[h + 1] as int * 256 + data[h + 2] as int;
    let sectors = data[h + 3];
    if offset == 0 || sectors == 0 {
        ChunkSlot::Empty
    } else {
        let start = offset * 4096;
        if start + 5 > data.len() {
            ChunkSlot::BadExtent
        } else {
            let length = be32_at(data, start);
            if length == 0 {
                ChunkSlot::Empty
            } else if start + 4 + length > data.len() {
                ChunkSlot::BadExtent
            } else {
                ChunkSlot::Stored { scheme: data[start + 4], start: start + 5, end: start + 4 + length }
            }
        }
    }
}

/// A loaded region file (raw bytes) plus its region grid coordinates.
pub struct Region {
    data: Vec<u8>,
    region_x: i32,
    region_z: i32,
}

impl Region {
    /// A region always holds at least its header.
    #[verifier::type_invariant]
    spec fn holds_header(&self) -> bool {
        self.data@.len() >= 8192
    }

    /// The file's bytes.
    pub closed spec fn bytes(&self) -> Seq<u8> {
        self.data@
    }

    /// The region's grid X.
    pub closed spec fn grid_x(&self) -> i32 {
        self.region_x
    }

    /// The region's grid Z.
    pub closed spec fn grid_z(&self) -> i32 {
        self.region_z
    }

    /// Construct from in-memory bytes; files shorter than the header are rejected.
    pub fn from_bytes(data: Vec<u8>, region_x: i32, region_z: i32) -> (r: Result<Self, AnvilError>)
        ensures
            data@.len() < 8192 ==> r matches Err(AnvilError::ShortHeader),
            data@.len() >= 8192 ==> (r matches Ok(reg) && reg.bytes() == data@ && reg.grid_x() == region_x
                && reg.grid_z() == region_z),
    {
        if data.len() < 8192 {
            return Err(AnvilError::ShortHeader);
        }
        Ok(Self { data, region_x, region_z })
    }

    /// Decompressed NBT bytes for the chunk at local `(lx, lz)` (each `0..32`),
    /// or `None` if that slot is empty.
    pub fn chunk_nbt(&self, lx: usize, lz: usize) -> (r: Result<Option<Vec<u8>>, AnvilError>)
        requires
            lx < 32,
            lz < 32,
        ensures
            match chunk_slot(self.bytes(), lx as int, lz as int) {
                ChunkSlot::Empty => r matches Ok(None),
                ChunkSlot::BadExtent => r matches Err(AnvilError::BadChunkExtent),
                ChunkSlot::Stored { scheme, start, end } => if scheme == 2 {
                    match zlib_inflate(self.bytes().subrange(start, end), MAX_CHUNK_NBT) {
                        Ok(v) => r matches Ok(Some(out)) && out@ == v,
                        Err(m) => r matches Err(AnvilError::Inflate(msg)) && msg@ == m,
                    }
                } else if scheme == 3 {
                    r matches Ok(Some(out)) && out@ == self.bytes().subrange(start, end)
                } else {
                    r matches Err(AnvilError::UnsupportedCompression(c)) && c == scheme
                },
            },
    {
        proof {
            use_type_invariant(self);
        }
        let h = (lx + lz * 32) * 4;
        let offset = (self.data[h] as u64) * 65536 + (self.data[h + 1] as u64) * 256 + self.data[h + 2] as u64;
        let sectors = self.data[h + 3];
        if offset == 0 || sectors == 0 {
            return Ok(None);
        }
        let len = self.data.len() as u64;
        let start = offset * 4096;
        if start + 5 > len {
            return Err(AnvilError::BadChunkExtent);
        }
        let start = start as usize;
        let length = read_u32_be(self.data.as_slice(), start) as u64;
        if length == 0 {
            return Ok(None);
        }
        let end = start as u64 + 4 + length;
        if end > len {
            return Err(AnvilError::BadChunkExtent);
        }
        let end = end as usize;
        let scheme = self.data[start + 4];
        let payload = &self.data.as_slice()[start + 5..end];
        assert(payload@ == self.bytes().subrange(start + 5, end as int));
        if scheme == 2 {
            match inflate_zlib(payload, MAX_CHUNK_NBT) {
                Ok(v) => Ok(Some(v)),
                Err(m) => Err(AnvilError::Inflate(m)),
            }
        } else if scheme == 3 {
            let mut out: Vec<u8> = Vec::new();
            let mut i = start + 5;
            while i < end
                invariant
                    start + 5 <= i <= end <= self.data@.len(),
                    out@ =~= self.data@.subrange(start + 5, i as int),
                decreases end - i,
            {
                out.push(self.data[i]);
                i += 1;
            }
            Ok(Some(out))
        } else {
            Err(AnvilError::UnsupportedCompression(scheme))
        }
    }
}

// ---------------------------------------------------------------------------
// Section decoding
// ---------------------------------------------------------------------------

/// Bits needed to write `v` in binary.
pub open spec fn bit_len(v: nat) -> nat
    decreases v,
{
    if v == 0 {
        0
    } else {
        1 + bit_len(v / 2)
    }
}

/// Bits per packed index for a palette of `len` entries (Anvil: at least 4).
pub open spec fn index_bits(len: nat) -> nat {
    let b = bit_len((len - 1) as nat);
    if b < 4 {
        4
    } else {
        b
    }
}

/// `2^k`.
pub open spec fn two_to(k: nat) -> nat
    decreases k,
{
    if k == 0 {
        1
    } else {
        2 * two_to((k - 1) as nat)
    }
}

proof fn lemma_bit_len_le(v: nat)
    ensures
        bit_len(v) <= v,
    decreases v,
{
    if v > 0 {
        lemma_bit_len_le(v / 2);
    }
}

proof fn lemma_bit_len_below(v: nat, k: nat)
    requires
        v < two_to(k),
    ensures
        bit_len(v) <= k,
    decreases k,
{
    if v > 0 && k > 0 {
        lemma_bit_len_below(v / 2, (k - 1) as nat);
    }
}

/// Bits per packed index for a palette of `len` entries (Anvil: min 4).
pub fn bits_per_index(len: usize) -> (r: usize)
    requires
        len >= 1,
    ensures
        r == index_bits(len as nat),
        len <= 4096 ==> 4 <= r <= 12,
        len <= 0x1_0000_0000 ==> 4 <= r <= 32,
{
    let mut v = len - 1;
    let mut n: usize = 0;
    proof {
        lemma_bit_len_le((len - 1) as nat);
    }
    while v > 0
        invariant
            n + bit_len(v as nat) == bit_len((len - 1) as nat),
            bit_len((len - 1) as nat) <= len - 1,
        decreases v,
    {
        v = v / 2;
        n += 1;
    }
    proof {
        if len <= 4096 {
            assert(two_to(12) == 4096) by {
                reveal_with_fuel(two_to, 13);
            }
            lemma_bit_len_below((len - 1) as nat, 12);
        }
        if len <= 0x1_0000_0000 {
            assert(two_to(32) == 0x1_0000_0000) by {
                reveal_with_fuel(two_to, 33);
            }
            lemma_bit_len_below((len - 1) as nat, 32);
        }
    }
    if n < 4 {
        4
    } else {
        n
    }
}

/// The palette index packed for block `j` (Anvil order) in `data`: indices of
/// `bits` bits, `64 / bits` to a long, low bits first; missing longs read 0.
pub open spec fn packed_index(data: Seq<i64>, bits: nat, j: int) -> int {
    let per_long = 64nat / bits;
    let long_idx = j / per_long as int;
    let within = j % per_long as int;
    if long_idx < data.len() {
        (((data[long_idx] as u64) >> ((within * bits) as u64)) & (((1u64 << (bits as u64)) - 1) as u64)) as int
    } else {
        0
    }
}

/// The air block state and properties.
pub open spec fn air_cell() -> (BlockStateId, BlockProperties) {
    (BlockStateId(0), BlockProperties::air_spec())
}

/// The block (and properties) block `j` of a section decodes to: the palette
/// entry its packed index selects, or air for an out-of-range index.
pub open spec fn cell_entry(resolved: Seq<(BlockStateId, BlockProperties)>, data: Seq<i64>, j: int) -> (
    BlockStateId,
    BlockProperties,
) {
    let v = packed_index(data, index_bits(resolved.len()), j);
    if v < resolved.len() && resolved[v].0 != BlockStateId(0) {
        resolved[v]
    } else {
        air_cell()
    }
}

/// Anvil block order within a section is YZX.
pub open spec fn anvil_index(x: int, y: int, z: int) -> int {
    x + 16 * z + 256 * y
}

/// The Morton position of Anvil block `j`.
pub open spec fn anvil_morton(j: int) -> int {
    morton_of(j % 16, j / 256, (j / 16) % 16)
}

/// One id never carries two property sets.
pub open spec fn consistent_table(t: Seq<(BlockStateId, BlockProperties)>) -> bool {
    forall|i: int, j: int|
        0 <= i < t.len() && 0 <= j < t.len() && (#[trigger] t[i]).0 == (#[trigger] t[j]).0 ==> t[i].1 == t[j].1
}

/// The ids of a resolved palette, plus air.
pub open spec fn table_ids(t: Seq<(BlockStateId, BlockProperties)>) -> Set<BlockStateId> {
    t.map_values(|e: (BlockStateId, BlockProperties)| e.0).to_set().insert(BlockStateId(0))
}

pub(crate) proof fn lemma_anvil_split(j: int)
    requires
        0 <= j < 4096,
    ensures
        0 <= j % 16 < 16,
        0 <= j / 256 < 16,
        0 <= (j / 16) % 16 < 16,
        j == anvil_index(j % 16, j / 256, (j / 16) % 16),
{
}

pub(crate) proof fn lemma_anvil_coords(x: int, y: int, z: int)
    requires
        0 <= x < 16,
        0 <= y < 16,
        0 <= z < 16,
    ensures
        0 <= anvil_index(x, y, z) < 4096,
        anvil_index(x, y, z) % 16 == x,
        anvil_index(x, y, z) / 256 == y,
        (anvil_index(x, y, z) / 16) % 16 == z,
{
}

pub(crate) proof fn lemma_anvil_morton_range(j: int)
    requires
        0 <= j < 4096,
    ensures
        0 <= anvil_morton(j) < 4096,
{
    lemma_anvil_split(j);
    crate::morton::lemma_morton_decode_encode((j % 16) as u8, (j / 256) as u8, ((j / 16) % 16) as u8);
}

pub(crate) proof fn lemma_anvil_morton_injective(i: int, j: int)
    requires
        0 <= i < 4096,
        0 <= j < 4096,
        i != j,
    ensures
        anvil_morton(i) != anvil_morton(j),
        0 <= anvil_morton(i) < 4096,
{
    lemma_anvil_split(i);
    lemma_anvil_split(j);
    crate::morton::lemma_morton_decode_encode((i % 16) as u8, (i / 256) as u8, ((i / 16) % 16) as u8);
    crate::morton::lemma_morton_decode_encode((j % 16) as u8, (j / 256) as u8, ((j / 16) % 16) as u8);
}

/// The palette invariant while a section is written: no id twice, only air
/// and ids of the resolved palette, each with its resolved properties.
spec fn palette_tracks(sc: SubChunk, resolved: Seq<(BlockStateId, BlockProperties)>) -> bool {
    let e = sc.spec_palette().entry_seq();
    let p = sc.spec_palette().prop_seq();
    &&& sc.wf()
    &&& e.no_duplicates()
    &&& e.to_set().subset_of(table_ids(resolved))
    &&& e.len() == p.len()
    &&& forall|k: int|
        0 <= k < e.len() && e[k] != BlockStateId(0) ==> exists|t: int|
            0 <= t < resolved.len() && #[trigger] resolved[t] == (e[k], p[k])
}

proof fn lemma_table_ids_card(resolved: Seq<(BlockStateId, BlockProperties)>)
    ensures
        table_ids(resolved).finite(),
        table_ids(resolved).len() <= resolved.len() + 1,
{
    let m = resolved.map_values(|e: (BlockStateId, BlockProperties)| e.0);
    m.lemma_cardinality_of_set();
}

/// Writing a resolved entry keeps the palette invariant.
proof fn lemma_set_keeps_tracking(
    before: SubChunk,
    after: SubChunk,
    resolved: Seq<(BlockStateId, BlockProperties)>,
    v: int,
)
    requires
        palette_tracks(before, resolved),
        0 <= v < resolved.len(),
        consistent_table(resolved),
        resolved[v].0 != BlockStateId(0),
        after.wf(),
        before.spec_palette().has_id(resolved[v].0) ==> after.spec_palette().entry_seq()
            == before.spec_palette().entry_seq() && after.spec_palette().prop_seq()
            == before.spec_palette().prop_seq(),
        !before.spec_palette().has_id(resolved[v].0) ==> after.spec_palette().entry_seq()
            == before.spec_palette().entry_seq().push(resolved[v].0) && after.spec_palette().prop_seq()
            == before.spec_palette().prop_seq().push(resolved[v].1),
    ensures
        palette_tracks(after, resolved),
{
    let e = before.spec_palette().entry_seq();
    let p = before.spec_palette().prop_seq();
    let id = resolved[v].0;
    let m = resolved.map_values(|x: (BlockStateId, BlockProperties)| x.0);
    assert(m[v] == id);
    if !before.spec_palette().has_id(id) {
        let e2 = e.push(id);
        assert(!e.contains(id));
        assert(e2.no_duplicates()) by {
            assert forall|a: int, b: int| 0 <= a < e2.len() && 0 <= b < e2.len() && a != b implies e2[a] != e2[b] by {
                if a < e.len() && b < e.len() {
                } else if a == e.len() {
                    assert(e2[b] == e[b]);
                } else {
                    assert(e2[a] == e[a]);
                }
            }
        }
        assert(e2.to_set().subset_of(table_ids(resolved))) by {
            assert forall|x: BlockStateId| e2.to_set().contains(x) implies table_ids(resolved).contains(x) by {
                if x != id {
                    let k = choose|k: int| 0 <= k < e2.len() && e2[k] == x;
                    assert(e.to_set().contains(e[k]));
                }
            }
        }
        let p2 = p.push(resolved[v].1);
        assert forall|k: int| 0 <= k < e2.len() && e2[k] != BlockStateId(0) implies exists|t: int|
            0 <= t < resolved.len() && #[trigger] resolved[t] == (e2[k], p2[k]) by {
            if k == e.len() {
                assert(resolved[v] == (e2[k], p2[k]));
            } else {
                assert(e2[k] == e[k] && p2[k] == p[k]);
            }
        }
    }
}

/// Whether a fresh id fits: the palette cannot already be full.
proof fn lemma_room_for(sc: SubChunk, resolved: Seq<(BlockStateId, BlockProperties)>, id: BlockStateId)
    requires
        palette_tracks(sc, resolved),
        table_ids(resolved).len() <= 4096,
        table_ids(resolved).contains(id),
        !sc.spec_palette().has_id(id),
    ensures
        sc.spec_palette().entry_seq().len() < 4096,
{
    let e = sc.spec_palette().entry_seq();
    lemma_table_ids_card(resolved);
    e.unique_seq_to_set();
    assert(!e.to_set().contains(id));
    assert(e.to_set().subset_of(table_ids(resolved).remove(id)));
    vstd::set_lib::lemma_len_subset(e.to_set(), table_ids(resolved).remove(id));
}

/// Decode one section's blocks from its resolved palette and packed `data`.
///
/// A single-entry palette fills the section (nothing if that entry is air);
/// otherwise each block takes the entry its packed index selects, and indices
/// out of range leave air. `None` when nothing but air would be written.
pub fn decode_section_blocks(resolved: &Vec<(BlockStateId, BlockProperties)>, data: Option<&[i64]>) -> (r: Option<
    SubChunk,
>)
    requires
        1 <= resolved@.len() <= 0x1_0000_0000,
        table_ids(resolved@).len() <= 4096,
        consistent_table(resolved@),
    ensures
        resolved@.len() == 1 ==> if resolved@[0].0 == BlockStateId(0) {
            r is None
        } else {
            r matches Some(sc) && sc.wf() && forall|x: int, y: int, z: int|
                0 <= x < 16 && 0 <= y < 16 && 0 <= z < 16 ==> #[trigger] sc.block_at(x, y, z) == resolved@[0].0
                    && sc.props_at(x, y, z) == resolved@[0].1
        },
        resolved@.len() > 1 ==> match data {
            None => r is None,
            Some(d) => (r is Some <==> exists|j: int|
                0 <= j < 4096 && (#[trigger] cell_entry(resolved@, d@, j)).0 != BlockStateId(0)) && (r matches Some(
                sc,
            ) ==> sc.wf() && forall|x: int, y: int, z: int|
                0 <= x < 16 && 0 <= y < 16 && 0 <= z < 16 ==> #[trigger] sc.block_at(x, y, z) == cell_entry(
                    resolved@,
                    d@,
                    anvil_index(x, y, z),
                ).0 && sc.props_at(x, y, z) == cell_entry(resolved@, d@, anvil_index(x, y, z)).1),
        },
{
    let ghost rs = resolved@;
    if resolved.len() == 1 {
        let (id, props) = resolved[0];
        if id == BlockStateId::air() {
            return None;
        }
        let mut sc = SubChunk::new();
        let mut j: usize = 0;
        proof {
            assert forall|k: int| 0 <= k < 4096 implies 0 <= #[trigger] anvil_morton(k) < 4096 by {
                lemma_anvil_morton_range(k);
            }
        }
        while j < 4096
            invariant
                j <= 4096,
                rs == resolved@,
                (id, props) == rs[0],
                id != BlockStateId(0),
                sc.wf(),
                1 <= sc.spec_palette().entry_seq().len() <= 2,
                sc.spec_palette().entry_seq()[0] == BlockStateId(0),
                sc.spec_palette().entry_seq().len() == 2 ==> sc.spec_palette().entry_seq()[1] == id
                    && sc.spec_palette().prop_seq()[1] == props,
                sc.spec_palette().entry_seq().len() == sc.spec_palette().prop_seq().len(),
                forall|k: int|
                    0 <= k < 4096 ==> sc.blocks()[anvil_morton(k)] == (if k < j { id } else { BlockStateId(0) })
                        && sc.props()[anvil_morton(k)] == (if k < j { props } else { BlockProperties::air_spec() }),
            decreases 4096 - j,
        {
            proof {
                lemma_anvil_split(j as int);
                lemma_anvil_morton_range(j as int);
            }
            let ghost before = sc;
            sc.set(j % 16, j / 256, (j / 16) % 16, id, props);
            proof {
                assert forall|k: int| 0 <= k < 4096 implies sc.blocks()[anvil_morton(k)] == (if k < j + 1 {
                    id
                } else {
                    BlockStateId(0)
                }) && sc.props()[anvil_morton(k)] == (if k < j + 1 {
                    props
                } else {
                    BlockProperties::air_spec()
                }) by {
                    lemma_anvil_morton_range(k);
                    assert(before.blocks()[anvil_morton(k)] == (if k < j { id } else { BlockStateId(0) }));
                    assert(before.props()[anvil_morton(k)] == (if k < j {
                        props
                    } else {
                        BlockProperties::air_spec()
                    }));
                    before.lemma_masks_match();
                    if k != j {
                        lemma_anvil_morton_injective(k, j as int);
                    }
                }
                if !before.spec_palette().has_id(id) {
                    assert(before.spec_palette().entry_seq().len() == 1);
                }
            }
            j += 1;
        }
        proof {
            assert forall|x: int, y: int, z: int|
                0 <= x < 16 && 0 <= y < 16 && 0 <= z < 16 implies #[trigger] sc.block_at(x, y, z) == rs[0].0
                && sc.props_at(x, y, z) == rs[0].1 by {
                lemma_anvil_coords(x, y, z);
                assert(anvil_morton(anvil_index(x, y, z)) == morton_of(x, y, z));
            }
        }
        return Some(sc);
    }
    let d = match data {
        Some(d) => d,
        None => {
            return None;
        },
    };
    let bits = bits_per_index(resolved.len());
    let per_long = 64 / bits;
    assert(per_long >= 2) by (nonlinear_arith)
        requires
            per_long == 64usize / bits,
            4 <= bits <= 32,
    ;
    let b64 = bits as u64;
    proof {
        crate::vanilla_section::lemma_masked_small(0, 0, b64);
    }
    let mask: u64 = (1u64 << b64) - 1;
    let mut sc = SubChunk::new();
    let mut any = false;
    let mut i: usize = 0;
    proof {
        assert forall|k: int| 0 <= k < 4096 implies 0 <= #[trigger] anvil_morton(k) < 4096 by {
            lemma_anvil_morton_range(k);
        }
        let e = sc.spec_palette().entry_seq();
        assert(e.to_set().subset_of(table_ids(rs))) by {
            assert forall|x: BlockStateId| e.to_set().contains(x) implies table_ids(rs).contains(x) by {
                assert(e[0] == BlockStateId(0));
            }
        }
    }
    while i < 4096
        invariant
            i <= 4096,
            rs == resolved@,
            2 <= rs.len() <= 0x1_0000_0000,
            table_ids(rs).len() <= 4096,
            consistent_table(rs),
            bits == index_bits(rs.len()),
            4 <= bits <= 32,
            per_long >= 2,
            per_long == 64usize / bits,
            mask == ((1u64 << (bits as u64)) - 1) as u64,
            palette_tracks(sc, rs),
            any == exists|j: int| 0 <= j < i && (#[trigger] cell_entry(rs, d@, j)).0 != BlockStateId(0),
            forall|k: int|
                0 <= k < 4096 ==> sc.blocks()[anvil_morton(k)] == (if k < i {
                    cell_entry(rs, d@, k).0
                } else {
                    BlockStateId(0)
                }) && sc.props()[anvil_morton(k)] == (if k < i {
                    cell_entry(rs, d@, k).1
                } else {
                    BlockProperties::air_spec()
                }),
        decreases 4096 - i,
    {
        let long_idx = i / per_long;
        let within = i % per_long;
        assert(within * bits < 64) by (nonlinear_arith)
            requires
                within < per_long,
                per_long == 64usize / bits,
                4 <= bits <= 32,
        ;
        let value: u64 = if long_idx < d.len() {
            ((d[long_idx] as u64) >> ((within * bits) as u64)) & mask
        } else {
            0
        };
        let ghost cell = cell_entry(rs, d@, i as int);
        proof {
            assert(value as int == packed_index(d@, bits as nat, i as int));
        }
        let mut skip = true;
        let ghost before = sc;
        if value < resolved.len() as u64 {
            let (id, props) = resolved[value as usize];
            if id != BlockStateId::air() {
                skip = false;
                proof {
                    lemma_anvil_split(i as int);
                    lemma_anvil_morton_range(i as int);
                    let m = rs.map_values(|e: (BlockStateId, BlockProperties)| e.0);
                    assert(m[value as int] == id);
                    assert(table_ids(rs).contains(id));
                    if !sc.spec_palette().has_id(id) {
                        lemma_room_for(sc, rs, id);
                    }
                    assert forall|k: int|
                        0 <= k < sc.spec_palette().entry_seq().len() && sc.spec_palette().entry_seq()[k]
                            == id implies sc.spec_palette().prop_seq()[k] == props by {
                        let t = choose|t: int|
                            0 <= t < rs.len() && #[trigger] rs[t] == (
                                sc.spec_palette().entry_seq()[k],
                                sc.spec_palette().prop_seq()[k],
                            );
                        assert(rs[t].0 == rs[value as int].0);
                    }
                }
                let ghost pre = sc;
                sc.set(i % 16, i / 256, (i / 16) % 16, id, props);
                proof {
                    lemma_set_keeps_tracking(pre, sc, rs, value as int);
                }
                any = true;
            }
        }
        proof {
            if skip {
                assert(cell == air_cell());
            } else {
                assert(cell.0 != BlockStateId(0));
            }
            assert forall|k: int| 0 <= k < 4096 implies sc.blocks()[anvil_morton(k)] == (if k < i + 1 {
                cell_entry(rs, d@, k).0
            } else {
                BlockStateId(0)
            }) && sc.props()[anvil_morton(k)] == (if k < i + 1 {
                cell_entry(rs, d@, k).1
            } else {
                BlockProperties::air_spec()
            }) by {
                lemma_anvil_morton_range(k);
                assert(before.blocks()[anvil_morton(k)] == (if k < i {
                    cell_entry(rs, d@, k).0
                } else {
                    BlockStateId(0)
                }));
                assert(before.props()[anvil_morton(k)] == (if k < i {
                    cell_entry(rs, d@, k).1
                } else {
                    BlockProperties::air_spec()
                }));
                before.lemma_masks_match();
                if k != i {
                    lemma_anvil_morton_injective(k, i as int);
                }
            }
        }
        i += 1;
    }
    proof {
        assert forall|x: int, y: int, z: int|
            0 <= x < 16 && 0 <= y < 16 && 0 <= z < 16 implies #[trigger] sc.block_at(x, y, z) == cell_entry(
            rs,
            d@,
            anvil_index(x, y, z),
        ).0 && sc.props_at(x, y, z) == cell_entry(rs, d@, anvil_index(x, y, z)).1 by {
            lemma_anvil_coords(x, y, z);
            assert(anvil_morton(anvil_index(x, y, z)) == morton_of(x, y, z));
        }
    }
    if any {
        Some(sc)
    } else {
        None
    }
}

/// Whether no id in `t` carries two property sets.
fn table_is_consistent(t: &Vec<(BlockStateId, BlockProperties)>) -> (r: bool)
    ensures
        r == consistent_table(t@),
{
    let mut i: usize = 0;
    while i < t.len()
        invariant
            i <= t@.len(),
            forall|a: int, b: int|
                0 <= a < i && 0 <= b < t@.len() && (#[trigger] t@[a]).0 == (#[trigger] t@[b]).0 ==> t@[a].1
                    == t@[b].1,
        decreases t@.len() - i,
    {
        let mut j: usize = 0;
        while j < t.len()
            invariant
                i < t@.len(),
                j <= t@.len(),
                forall|a: int, b: int|
                    0 <= a < i && 0 <= b < t@.len() && (#[trigger] t@[a]).0 == (#[trigger] t@[b]).0 ==> t@[a].1
                        == t@[b].1,
                forall|b: int| 0 <= b < j && t@[i as int].0 == (#[trigger] t@[b]).0 ==> t@[i as int].1 == t@[b].1,
            decreases t@.len() - j,
        {
            if t[i].0 == t[j].0 && t[i].1 != t[j].1 {
                return false;
            }
            j += 1;
        }
        i += 1;
    }
    true
}

/// The name a palette entry gives (`minecraft:air` if it gives none).
pub open spec fn entry_name(e: Nbt) -> Seq<char> {
    match field(e, "Name"@) {
        Some(Nbt::String(s)) => s@,
        _ => "minecraft:air"@,
    }
}

/// The block name a palette entry names (`minecraft:air` if it names none).
fn palette_name(entry: &Nbt) -> (r: &str)
    ensures
        r@ == entry_name(*entry),
{
    match entry.get("Name") {
        Some(v) => match v.as_str() {
            Some(s) => s,
            None => "minecraft:air",
        },
        None => "minecraft:air",
    }
}

/// The integer an NBT number tag holds.
pub open spec fn int_value(n: Nbt) -> Option<i64> {
    match n {
        Nbt::Byte(v) => Some(v as i64),
        Nbt::Short(v) => Some(v as i64),
        Nbt::Int(v) => Some(v as i64),
        Nbt::Long(v) => Some(v),
        _ => None,
    }
}

/// The sections list of a chunk (empty when it has none).
pub open spec fn chunk_sections(root: Nbt) -> Seq<Nbt> {
    match field(root, "sections"@) {
        Some(Nbt::List(items)) => items@,
        _ => Seq::empty(),
    }
}

/// What a chunk section asks to decode, if it carries a `Y`, `block_states`
/// and a non-empty `palette` list: its sub-chunk index (`Y` truncated to a
/// byte), its palette entries, and its packed `data` if it has one.
pub open spec fn section_plan(sec: Nbt) -> Option<(i8, Seq<Nbt>, Option<Seq<i64>>)> {
    match field(sec, "Y"@) {
        Some(yv) => match int_value(yv) {
            Some(v) => match field(sec, "block_states"@) {
                Some(bs) => match field(bs, "palette"@) {
                    Some(Nbt::List(items)) => if items@.len() > 0 {
                        Some(
                            (
                                v as i8,
                                items@,
                                match field(bs, "data"@) {
                                    Some(Nbt::LongArray(d)) => Some(d@),
                                    _ => None,
                                },
                            ),
                        )
                    } else {
                        None
                    },
                    _ => None,
                },
                None => None,
            },
            None => None,
        },
        None => None,
    }
}

/// The block names a section hands the interner, palette order.
pub open spec fn section_names(sec: Nbt) -> Seq<Seq<char>> {
    match section_plan(sec) {
        Some(p) => p.1.map_values(|e: Nbt| entry_name(e)),
        None => Seq::empty(),
    }
}

/// Whether a resolved palette can be written into one sub-chunk.
pub open spec fn table_fits(t: Seq<(BlockStateId, BlockProperties)>) -> bool {
    &&& 1 <= t.len() <= 0x1_0000_0000
    &&& consistent_table(t)
    &&& table_ids(t).len() <= 4096
}

/// The cells, Anvil order, of a section with resolved palette `t` and packed
/// `data`, when any of them is not air.
pub open spec fn section_cells(t: Seq<(BlockStateId, BlockProperties)>, data: Option<Seq<i64>>) -> Option<Seq<(BlockStateId, BlockProperties)>> {
    if t.len() == 1 {
        if t[0].0 == BlockStateId(0) {
            None
        } else {
            Some(Seq::new(4096, |j: int| t[0]))
        }
    } else {
        match data {
            None => None,
            Some(d) => if exists|j: int| 0 <= j < 4096 && (#[trigger] cell_entry(t, d, j)).0 != BlockStateId(0) {
                Some(Seq::new(4096, |j: int| cell_entry(t, d, j)))
            } else {
                None
            },
        }
    }
}

/// The sub-chunks decoding `secs` keeps when they resolve to `tables`:
/// index and cells, list order.
pub open spec fn kept_sections(secs: Seq<Nbt>, tables: Seq<Seq<(BlockStateId, BlockProperties)>>) -> Seq<(i8, Seq<(BlockStateId, BlockProperties)>)>
    decreases secs.len(),
{
    if secs.len() == 0 {
        Seq::empty()
    } else {
        let prev = kept_sections(secs.drop_last(), tables.drop_last());
        match section_plan(secs.last()) {
            Some(p) => if table_fits(tables.last()) {
                match section_cells(tables.last(), p.2) {
                    Some(c) => prev.push((p.0, c)),
                    None => prev,
                }
            } else {
                prev
            },
            None => prev,
        }
    }
}

/// Whether `sc` holds the cells `c` (Anvil order).
pub open spec fn holds_cells(sc: SubChunk, c: Seq<(BlockStateId, BlockProperties)>) -> bool {
    &&& sc.wf()
    &&& forall|x: int, y: int, z: int|
        0 <= x < 16 && 0 <= y < 16 && 0 <= z < 16 ==> #[trigger] sc.block_at(x, y, z) == c[anvil_index(x, y, z)].0
            && sc.props_at(x, y, z) == c[anvil_index(x, y, z)].1
}

/// Whether `out` is the sequence of sub-chunks `kept` describes.
pub open spec fn sections_match(out: Seq<(i8, SubChunk)>, kept: Seq<(i8, Seq<(BlockStateId, BlockProperties)>)>) -> bool {
    &&& out.len() == kept.len()
    &&& forall|k: int| 0 <= k < out.len() ==> (#[trigger] out[k]).0 == kept[k].0 && holds_cells(out[k].1, kept[k].1)
}

/// Whether resolving `names` in turn from `states[0]` answers `t`, passing
/// through `states`.
pub open spec fn resolves_in_turn<I: Interner>(names: Seq<Seq<char>>, t: Seq<(BlockStateId, BlockProperties)>, states: Seq<I>) -> bool {
    &&& t.len() == names.len()
    &&& states.len() == names.len() + 1
    &&& forall|i: int| 0 <= i < names.len() ==> #[trigger] states[i].interns(names[i], t[i], states[i + 1])
}

/// Whether decoding `secs` resolved section `k`'s names into `tables[k]`,
/// the interner passing through `states[k]`, from `start` to `end`.
pub open spec fn decode_trace<I: Interner>(start: I, end: I, secs: Seq<Nbt>, tables: Seq<Seq<(BlockStateId, BlockProperties)>>, states: Seq<Seq<I>>) -> bool {
    &&& tables.len() == secs.len()
    &&& states.len() == secs.len()
    &&& forall|k: int| 0 <= k < secs.len() ==> #[trigger] resolves_in_turn(section_names(secs[k]), tables[k], states[k])
    &&& forall|k: int| 0 < k < secs.len() ==> (#[trigger] states[k])[0] == states[k - 1].last()
    &&& secs.len() == 0 ==> end == start
    &&& secs.len() > 0 ==> states[0][0] == start && states.last().last() == end
}

/// Whether the ids of `t`, with air, number at most 4096: whether its
/// blocks can share one sub-chunk palette.
fn ids_fit(t: &Vec<(BlockStateId, BlockProperties)>) -> (r: bool)
    ensures
        r == (table_ids(t@).len() <= 4096),
{
    let ghost m = t@.map_values(|e: (BlockStateId, BlockProperties)| e.0);
    let mut seen: Vec<BlockStateId> = Vec::new();
    seen.push(BlockStateId::air());
    let mut i: usize = 0;
    proof {
        let e = Seq::<BlockStateId>::empty();
        assert(m.take(0) =~= e);
        assert(e.to_set() =~= Set::<BlockStateId>::empty());
        e.lemma_push_to_set_commute(BlockStateId(0));
        assert(seen@ =~= e.push(BlockStateId(0)));
    }
    while i < t.len()
        invariant
            i <= t@.len(),
            m == t@.map_values(|e: (BlockStateId, BlockProperties)| e.0),
            seen@.no_duplicates(),
            seen@.len() <= 4096,
            seen@.to_set() == m.take(i as int).to_set().insert(BlockStateId(0)),
        decreases t@.len() - i,
    {
        let id = t[i].0;
        let mut k: usize = 0;
        let mut found = false;
        while k < seen.len()
            invariant
                k <= seen@.len(),
                found == exists|q: int| 0 <= q < k && seen@[q] == id,
            decreases seen@.len() - k,
        {
            if seen[k] == id {
                found = true;
            }
            k += 1;
        }
        proof {
            assert(m.take(i as int + 1) =~= m.take(i as int).push(id));
            m.take(i as int).lemma_push_to_set_commute(id);
        }
        if !found {
            if seen.len() == 4096 {
                proof {
                    let s2 = seen@.push(id);
                    assert(s2.no_duplicates());
                    s2.unique_seq_to_set();
                    seen@.lemma_push_to_set_commute(id);
                    assert forall|b: BlockStateId| s2.to_set().contains(b) implies table_ids(t@).contains(b) by {
                        if b != BlockStateId(0) {
                            assert(m.take(i as int + 1).to_set().contains(b));
                            let q = choose|q: int| 0 <= q < i + 1 && #[trigger] m.take(i as int + 1)[q] == b;
                            assert(m[q] == b);
                        }
                    }
                    vstd::seq_lib::seq_to_set_is_finite(m);
                    vstd::set_lib::lemma_len_subset(s2.to_set(), table_ids(t@));
                }
                return false;
            }
            let ghost s0 = seen@;
            seen.push(id);
            proof {
                s0.lemma_push_to_set_commute(id);
            }
        } else {
            proof {
                assert(seen@.to_set().contains(id));
            }
        }
        i += 1;
    }
    proof {
        assert(m.take(t@.len() as int) =~= m);
        assert(table_ids(t@) == m.to_set().insert(BlockStateId(0)));
        seen@.unique_seq_to_set();
    }
    true
}

/// A non-air cell makes a multi-entry section worth keeping.
proof fn lemma_cells_some(t: Seq<(BlockStateId, BlockProperties)>, d: Seq<i64>, j: int)
    requires
        t.len() != 1,
        0 <= j < 4096,
        cell_entry(t, d, j).0 != BlockStateId(0),
    ensures
        section_cells(t, Some(d)) == Some(Seq::new(4096, |i: int| cell_entry(t, d, i))),
{
    assert(exists|i: int| 0 <= i < 4096 && (#[trigger] cell_entry(t, d, i)).0 != BlockStateId(0));
}

/// One more section either adds its sub-chunk to what decoding keeps or
/// leaves it as it was.
proof fn lemma_kept_step(secs: Seq<Nbt>, tabs: Seq<Seq<(BlockStateId, BlockProperties)>>, t: Seq<(BlockStateId, BlockProperties)>, n: int)
    requires
        0 <= n < secs.len(),
        tabs.len() == n,
    ensures
        kept_sections(secs.take(n + 1), tabs.push(t)) == match section_plan(secs[n]) {
            Some(p) => if table_fits(t) {
                match section_cells(t, p.2) {
                    Some(c) => kept_sections(secs.take(n), tabs).push((p.0, c)),
                    None => kept_sections(secs.take(n), tabs),
                }
            } else {
                kept_sections(secs.take(n), tabs)
            },
            None => kept_sections(secs.take(n), tabs),
        },
{
    assert(secs.take(n + 1).drop_last() =~= secs.take(n));
    assert(tabs.push(t).drop_last() =~= tabs);
}

/// Decode the `sections` list of a chunk NBT into non-empty sub-chunks.
///
/// A section counts when it carries a `Y`, `block_states` and a non-empty
/// `palette`; each of its palette names is resolved through `registry`, in
/// order. A section whose resolved palette would give one id two property
/// sets, or could not fit one sub-chunk's palette (more than 4096 entries,
/// or 4096 distinct ids none of them air), is skipped rather than written,
/// as is one that would hold nothing but air. Decoding never fails; the kept
/// sections follow the list's order, each under its `Y` as a byte, holding
/// the blocks [`decode_section_blocks`] gives for its resolved palette and
/// data.
pub fn decode_sections<I: Interner>(root: &Nbt, registry: &mut I) -> (r: Result<Vec<(i8, SubChunk)>, AnvilError>)
    ensures
        r matches Ok(out) && exists|tables: Seq<Seq<(BlockStateId, BlockProperties)>>, states: Seq<Seq<I>>|
            #[trigger] decode_trace(*old(registry), *final(registry), chunk_sections(*root), tables, states)
                && sections_match(out@, kept_sections(chunk_sections(*root), tables)),
{
    let mut out: Vec<(i8, SubChunk)> = Vec::new();
    let ghost start = *registry;
    let sections = match root.get("sections") {
        Some(s) => match s.as_list() {
            Some(l) => l,
            None => {
                proof {
                    assert(chunk_sections(*root) =~= Seq::<Nbt>::empty());
                    assert(decode_trace(start, *registry, chunk_sections(*root), Seq::empty(), Seq::empty()));
                }
                return Ok(out);
            },
        },
        None => {
            proof {
                assert(chunk_sections(*root) =~= Seq::<Nbt>::empty());
                assert(decode_trace(start, *registry, chunk_sections(*root), Seq::empty(), Seq::empty()));
            }
            return Ok(out);
        },
    };
    let ghost secs = sections@;
    let ghost mut tabs: Seq<Seq<(BlockStateId, BlockProperties)>> = Seq::empty();
    let ghost mut sts: Seq<Seq<I>> = Seq::empty();
    let mut si: usize = 0;
    while si < sections.len()
        invariant
            si <= sections@.len(),
            secs == sections@,
            secs == chunk_sections(*root),
            tabs.len() == si,
            sts.len() == si,
            forall|k: int| 0 <= k < si ==> #[trigger] resolves_in_turn(section_names(secs[k]), tabs[k], sts[k]),
            forall|k: int| 0 < k < si ==> (#[trigger] sts[k])[0] == sts[k - 1].last(),
            si == 0 ==> *registry == start,
            si > 0 ==> sts[0][0] == start && sts.last().last() == *registry,
            sections_match(out@, kept_sections(secs.take(si as int), tabs)),
        decreases sections@.len() - si,
    {
        let section = &sections[si];
        let ghost sec = secs[si as int];
        let ghost here = *registry;
        let ghost before_out = out@;
        proof {
            assert(secs.take(si as int + 1).drop_last() =~= secs.take(si as int));
            assert(secs.take(si as int + 1).last() == sec);
        }
        let ghost skip_tabs = tabs.push(Seq::empty());
        let ghost skip_sts = sts.push(seq![here]);
        proof {
            assert(skip_tabs.drop_last() =~= tabs);
            assert(skip_sts.last() == seq![here]);
            assert(resolves_in_turn(Seq::<Seq<char>>::empty(), Seq::<(BlockStateId, BlockProperties)>::empty(), seq![here]));
        }
        si += 1;
        let y = match section.get("Y") {
            Some(v) => match v.as_i64() {
                Some(y) => y as i8,
                None => {
                    proof {
                        assert(section_plan(sec) is None);
                        lemma_kept_step(secs, tabs, Seq::empty(), si as int - 1);
                        tabs = skip_tabs;
                        sts = skip_sts;
                    }
                    continue;
                },
            },
            None => {
                proof {
                    assert(section_plan(sec) is None);
                    lemma_kept_step(secs, tabs, Seq::empty(), si as int - 1);
                    tabs = skip_tabs;
                    sts = skip_sts;
                }
                continue;
            },
        };
        let block_states = match section.get("block_states") {
            Some(bs) => bs,
            None => {
                proof {
                    assert(section_plan(sec) is None);
                    lemma_kept_step(secs, tabs, Seq::empty(), si as int - 1);
                    tabs = skip_tabs;
                    sts = skip_sts;
                }
                continue;
            },
        };
        let palette = match block_states.get("palette") {
            Some(p) => match p.as_list() {
                Some(l) => l,
                None => {
                    proof {
                        assert(section_plan(sec) is None);
                        lemma_kept_step(secs, tabs, Seq::empty(), si as int - 1);
                        tabs = skip_tabs;
                        sts = skip_sts;
                    }
                    continue;
                },
            },
            None => {
                proof {
                    assert(section_plan(sec) is None);
                    lemma_kept_step(secs, tabs, Seq::empty(), si as int - 1);
                    tabs = skip_tabs;
                    sts = skip_sts;
                }
                continue;
            },
        };
        if palette.len() == 0 {
            proof {
                assert(section_plan(sec) is None);
                lemma_kept_step(secs, tabs, Seq::empty(), si as int - 1);
                tabs = skip_tabs;
                sts = skip_sts;
            }
            continue;
        }
        let ghost names = palette@.map_values(|e: Nbt| entry_name(e));
        proof {
            assert(section_plan(sec) is Some);
            assert(section_names(sec) == names);
        }
        let mut resolved: Vec<(BlockStateId, BlockProperties)> = Vec::new();
        let ghost mut cur: Seq<I> = seq![here];
        let mut pi: usize = 0;
        while pi < palette.len()
            invariant
                pi <= palette@.len(),
                names == palette@.map_values(|e: Nbt| entry_name(e)),
                resolved@.len() == pi,
                cur.len() == pi + 1,
                cur[0] == here,
                cur.last() == *registry,
                forall|i: int| 0 <= i < pi ==> #[trigger] cur[i].interns(names[i], resolved@[i], cur[i + 1]),
            decreases palette@.len() - pi,
        {
            let name = palette_name(&palette[pi]);
            let ghost pre = *registry;
            let got = registry.intern(name);
            proof {
                assert(names[pi as int] == name@);
                cur = cur.push(*registry);
            }
            resolved.push(got);
            pi += 1;
        }
        let ghost plan_tabs = tabs.push(resolved@);
        let ghost plan_sts = sts.push(cur);
        proof {
            assert(plan_tabs.drop_last() =~= tabs);
            assert(resolves_in_turn(names, resolved@, cur));
        }
        let data = match block_states.get("data") {
            Some(d) => d.as_long_array(),
            None => None,
        };
        proof {
            assert(section_plan(sec).unwrap().2 == match data {
                Some(d) => Some(d@),
                None => None::<Seq<i64>>,
            });
            lemma_kept_step(secs, tabs, resolved@, si as int - 1);
            tabs = plan_tabs;
            sts = plan_sts;
        }
        if resolved.len() as u64 > 0x1_0000_0000u64 || !ids_fit(&resolved) || !table_is_consistent(&resolved) {
            continue;
        }
        let ghost plan = section_plan(sec).unwrap();
        proof {
            assert(table_fits(resolved@));
            assert(plan.0 == y);
        }
        match decode_section_blocks(&resolved, data) {
            Some(sc) => {
                let ghost c = section_cells(resolved@, plan.2).unwrap();
                proof {
                    if resolved@.len() != 1 {
                        match data {
                            Some(d) => {
                                assert(plan.2 == Some(d@));
                                assert(exists|j: int|
                                    0 <= j < 4096 && (#[trigger] cell_entry(resolved@, d@, j)).0 != BlockStateId(0));
                                let j0 = choose|j: int|
                                    0 <= j < 4096 && (#[trigger] cell_entry(resolved@, d@, j)).0 != BlockStateId(0);
                                lemma_cells_some(resolved@, d@, j0);
                            },
                            None => {},
                        }
                    } else {
                        assert(resolved@[0].0 != BlockStateId(0));
                    }
                    assert(section_cells(resolved@, plan.2) is Some);
                    assert forall|x: int, yy: int, z: int|
                        0 <= x < 16 && 0 <= yy < 16 && 0 <= z < 16 implies #[trigger] sc.block_at(x, yy, z)
                            == c[anvil_index(x, yy, z)].0 && sc.props_at(x, yy, z) == c[anvil_index(x, yy, z)].1 by {
                        assert(0 <= anvil_index(x, yy, z) < 4096);
                    }
                    assert(holds_cells(sc, c));
                }
                out.push((y, sc));
                proof {
                    assert(out@ == before_out.push((y, sc)));
                }
            },
            None => {},
        }
    }
    proof {
        assert(secs.take(secs.len() as int) =~= secs);
        assert(decode_trace(start, *registry, chunk_sections(*root), tabs, sts));
    }
    Ok(out)
}

// ---------------------------------------------------------------------------
// Whole regions
// ---------------------------------------------------------------------------

/// One decoded chunk: global chunk column coordinates and its sub-chunks.
pub struct DecodedChunk {
    /// Global chunk X.
    pub cx: i32,
    /// Global chunk Z.
    pub cz: i32,
    /// `(sub-chunk Y index, sub-chunk)` for every non-empty section.
    pub sections: Vec<(i8, SubChunk)>,
}

/// A chunk that could not be decoded; the run goes on without it.
#[derive(Debug)]
pub enum ChunkFailure {
    /// Its bytes could not be read out of the region (local coordinates).
    Read { lx: u8, lz: u8, error: AnvilError },
    /// Its NBT did not parse (local coordinates).
    Nbt { lx: u8, lz: u8, error: NbtError },
    /// Its sections did not decode (global coordinates).
    Decode { cx: i32, cz: i32, error: AnvilError },
}

/// What becomes of one chunk slot of a region.
pub enum SlotOutcome {
    /// The slot is empty.
    Skip,
    /// A chunk is decoded from it.
    Chunk,
    /// Its bytes cannot be read out.
    ReadFailed,
    /// Its bytes are not valid NBT.
    NbtFailed,
}

/// The outcome of slot `(lx, lz)` of region bytes `data`.
pub open spec fn slot_outcome(data: Seq<u8>, lx: int, lz: int) -> SlotOutcome {
    match chunk_slot(data, lx, lz) {
        ChunkSlot::Empty => SlotOutcome::Skip,
        ChunkSlot::BadExtent => SlotOutcome::ReadFailed,
        ChunkSlot::Stored { scheme, start, end } => {
            let bytes = if scheme == 2 {
                match zlib_inflate(data.subrange(start, end), MAX_CHUNK_NBT) {
                    Ok(v) => Some(v),
                    Err(_) => None,
                }
            } else if scheme == 3 {
                Some(data.subrange(start, end))
            } else {
                None
            };
            match bytes {
                None => SlotOutcome::ReadFailed,
                Some(b) => if parse_spec(b) is Ok {
                    SlotOutcome::Chunk
                } else {
                    SlotOutcome::NbtFailed
                },
            }
        },
    }
}

/// Global coordinates of the chunks decoded from the first `k` slots
/// (slots in row order: `lx` fastest).
pub open spec fn chunk_coords(data: Seq<u8>, rx: i32, rz: i32, k: nat) -> Seq<(i32, i32)>
    decreases k,
{
    if k == 0 {
        Seq::empty()
    } else {
        let prev = chunk_coords(data, rx, rz, (k - 1) as nat);
        let lx = (k - 1) as int % 32;
        let lz = (k - 1) as int / 32;
        if slot_outcome(data, lx, lz) is Chunk {
            prev.push(((rx * 32 + lx) as i32, (rz * 32 + lz) as i32))
        } else {
            prev
        }
    }
}

/// Local coordinates of the slots among the first `k` that fail.
pub open spec fn failed_slots(data: Seq<u8>, k: nat) -> Seq<(int, int)>
    decreases k,
{
    if k == 0 {
        Seq::empty()
    } else {
        let prev = failed_slots(data, (k - 1) as nat);
        let lx = (k - 1) as int % 32;
        let lz = (k - 1) as int / 32;
        match slot_outcome(data, lx, lz) {
            SlotOutcome::ReadFailed | SlotOutcome::NbtFailed => prev.push((lx, lz)),
            _ => prev,
        }
    }
}

/// The local slot a failure reports.
pub open spec fn failure_slot(f: ChunkFailure) -> (int, int) {
    match f {
        ChunkFailure::Read { lx, lz, .. } => (lx as int, lz as int),
        ChunkFailure::Nbt { lx, lz, .. } => (lx as int, lz as int),
        ChunkFailure::Decode { cx, cz, .. } => (cx as int, cz as int),
    }
}

/// The NBT tree slot `(lx, lz)` of region bytes `data` holds, when its bytes
/// read out and parse.
pub open spec fn slot_tree(data: Seq<u8>, lx: int, lz: int) -> Option<NbtTree> {
    match chunk_slot(data, lx, lz) {
        ChunkSlot::Stored { scheme, start, end } => {
            let bytes = if scheme == 2 {
                match zlib_inflate(data.subrange(start, end), MAX_CHUNK_NBT) {
                    Ok(v) => Some(v),
                    Err(_) => None,
                }
            } else if scheme == 3 {
                Some(data.subrange(start, end))
            } else {
                None
            };
            match bytes {
                Some(b) => match parse_spec(b) {
                    Ok(t) => Some(t),
                    Err(_) => None,
                },
                None => None,
            }
        },
        _ => None,
    }
}

/// The trees of the chunks decoded from the first `k` slots, in the order
/// of [`chunk_coords`].
pub open spec fn chunk_trees(data: Seq<u8>, k: nat) -> Seq<NbtTree>
    decreases k,
{
    if k == 0 {
        Seq::empty()
    } else {
        let prev = chunk_trees(data, (k - 1) as nat);
        let lx = (k - 1) as int % 32;
        let lz = (k - 1) as int / 32;
        if slot_outcome(data, lx, lz) is Chunk {
            prev.push(slot_tree(data, lx, lz).unwrap())
        } else {
            prev
        }
    }
}

/// Whether `out` is what decoding the chunk trees `trees` in turn gives,
/// each parsed into `roots[k]` and its sections decoded as
/// [`decode_sections`] states, the interner passing through `regs` from
/// `start` to `end`.
pub open spec fn region_trace<I: Interner>(
    trees: Seq<NbtTree>,
    start: I,
    end: I,
    out: Seq<DecodedChunk>,
    roots: Seq<Nbt>,
    tables: Seq<Seq<Seq<(BlockStateId, BlockProperties)>>>,
    states: Seq<Seq<Seq<I>>>,
    regs: Seq<I>,
) -> bool {
    &&& out.len() == trees.len()
    &&& roots.len() == out.len()
    &&& tables.len() == out.len()
    &&& states.len() == out.len()
    &&& regs.len() == out.len() + 1
    &&& regs[0] == start
    &&& regs.last() == end
    &&& forall|k: int|
        0 <= k < out.len() ==> tree(#[trigger] roots[k]) == trees[k] && decode_trace(
            regs[k],
            regs[k + 1],
            chunk_sections(roots[k]),
            tables[k],
            states[k],
        ) && sections_match(out[k].sections@, kept_sections(chunk_sections(roots[k]), tables[k]))
}

impl Region {
    /// Decode every present chunk in the region, in slot order. Per-chunk
    /// failures are appended to `errors` rather than aborting.
    pub fn decode_all<I: Interner>(&self, registry: &mut I, errors: &mut Vec<ChunkFailure>) -> (r: Vec<
        DecodedChunk,
    >)
        requires
            i32::MIN <= self.grid_x() * 32,
            self.grid_x() * 32 + 31 <= i32::MAX,
            i32::MIN <= self.grid_z() * 32,
            self.grid_z() * 32 + 31 <= i32::MAX,
        ensures
            r@.len() == chunk_coords(self.bytes(), self.grid_x(), self.grid_z(), 1024).len(),
            forall|k: int|
                0 <= k < r@.len() ==> ((#[trigger] r@[k]).cx, r@[k].cz) == chunk_coords(
                    self.bytes(),
                    self.grid_x(),
                    self.grid_z(),
                    1024,
                )[k],
            forall|k: int|
                0 <= k < r@.len() ==> forall|m: int|
                    0 <= m < (#[trigger] r@[k]).sections@.len() ==> (#[trigger] r@[k].sections@[m]).1.wf(),
            final(errors)@.len() == old(errors)@.len() + failed_slots(self.bytes(), 1024).len(),
            forall|k: int| 0 <= k < old(errors)@.len() ==> final(errors)@[k] == old(errors)@[k],
            forall|k: int|
                0 <= k < failed_slots(self.bytes(), 1024).len() ==> failure_slot(
                    #[trigger] final(errors)@[old(errors)@.len() + k],
                ) == failed_slots(self.bytes(), 1024)[k],
            exists|roots: Seq<Nbt>, tables: Seq<Seq<Seq<(BlockStateId, BlockProperties)>>>, states: Seq<Seq<Seq<I>>>, regs: Seq<I>|
                #[trigger] region_trace(chunk_trees(self.bytes(), 1024), *old(registry), *final(registry), r@, roots, tables, states, regs),
    {
        let ghost b = self.bytes();
        let ghost mut roots: Seq<Nbt> = Seq::empty();
        let ghost mut tabs: Seq<Seq<Seq<(BlockStateId, BlockProperties)>>> = Seq::empty();
        let ghost mut sts: Seq<Seq<Seq<I>>> = Seq::empty();
        let ghost mut regs: Seq<I> = seq![*registry];
        let ghost reg0 = *registry;
        let ghost rx = self.grid_x();
        let ghost rz = self.grid_z();
        let ghost e0 = errors@;
        let mut chunks: Vec<DecodedChunk> = Vec::new();
        let mut k: usize = 0;
        while k < 1024
            invariant
                k <= 1024,
                b == self.bytes(),
                rx == self.grid_x(),
                rz == self.grid_z(),
                i32::MIN <= rx * 32,
                rx * 32 + 31 <= i32::MAX,
                i32::MIN <= rz * 32,
                rz * 32 + 31 <= i32::MAX,
                chunks@.len() == chunk_coords(b, rx, rz, k as nat).len(),
                forall|c: int|
                    0 <= c < chunks@.len() ==> ((#[trigger] chunks@[c]).cx, chunks@[c].cz) == chunk_coords(
                        b,
                        rx,
                        rz,
                        k as nat,
                    )[c],
                forall|c: int|
                    0 <= c < chunks@.len() ==> forall|m: int|
                        0 <= m < (#[trigger] chunks@[c]).sections@.len() ==> (
                        #[trigger] chunks@[c].sections@[m]).1.wf(),
                errors@.len() == e0.len() + failed_slots(b, k as nat).len(),
                forall|c: int| 0 <= c < e0.len() ==> errors@[c] == e0[c],
                region_trace(chunk_trees(b, k as nat), reg0, *registry, chunks@, roots, tabs, sts, regs),
                forall|c: int|
                    0 <= c < failed_slots(b, k as nat).len() ==> failure_slot(#[trigger] errors@[e0.len() + c])
                        == failed_slots(b, k as nat)[c],
            decreases 1024 - k,
        {
            let lx = k % 32;
            let lz = k / 32;
            let ghost coords = chunk_coords(b, rx, rz, k as nat);
            let ghost fails = failed_slots(b, k as nat);
            let ghost n_before = chunks@.len();
            let ghost e_before = errors@;
            let ghost trees = chunk_trees(b, k as nat);
            match self.chunk_nbt(lx, lz) {
                Ok(None) => {},
                Ok(Some(bytes)) => match parse(bytes.as_slice()) {
                    Ok(root) => {
                        let cx = self.region_x * 32 + lx as i32;
                        let cz = self.region_z * 32 + lz as i32;
                        let ghost before_reg = *registry;
                        match decode_sections(&root, registry) {
                            Ok(sections) => {
                                let ghost out0 = chunks@;
                                proof {
                                    let (tb, st) = choose|tb: Seq<Seq<(BlockStateId, BlockProperties)>>, st: Seq<Seq<I>>|
                                        #[trigger] decode_trace(before_reg, *registry, chunk_sections(root), tb, st)
                                            && sections_match(sections@, kept_sections(chunk_sections(root), tb));
                                    roots = roots.push(root);
                                    tabs = tabs.push(tb);
                                    sts = sts.push(st);
                                    regs = regs.push(*registry);
                                }
                                chunks.push(DecodedChunk { cx, cz, sections });
                            },
                            Err(e) => {
                                errors.push(ChunkFailure::Decode { cx, cz, error: e });
                            },
                        }
                    },
                    Err(e) => {
                        errors.push(ChunkFailure::Nbt { lx: lx as u8, lz: lz as u8, error: e });
                    },
                },
                Err(e) => {
                    errors.push(ChunkFailure::Read { lx: lx as u8, lz: lz as u8, error: e });
                },
            }
            proof {
                assert(chunk_trees(b, (k + 1) as nat) == if slot_outcome(b, lx as int, lz as int) is Chunk {
                    trees.push(slot_tree(b, lx as int, lz as int).unwrap())
                } else {
                    trees
                });
                assert(chunk_coords(b, rx, rz, (k + 1) as nat) == if slot_outcome(b, lx as int, lz as int) is Chunk {
                    coords.push(((rx * 32 + lx) as i32, (rz * 32 + lz) as i32))
                } else {
                    coords
                });
                assert(failed_slots(b, (k + 1) as nat) == match slot_outcome(b, lx as int, lz as int) {
                    SlotOutcome::ReadFailed | SlotOutcome::NbtFailed => fails.push((lx as int, lz as int)),
                    _ => fails,
                });
            }
            k += 1;
        }
        chunks
    }
}

} // verus!
