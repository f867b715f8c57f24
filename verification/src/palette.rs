//! Palette compression for sub-chunk block storage.
//!
//! A sub-chunk keeps a small **palette** of its distinct block states and a
//! [`PackedArray`] of narrow indices into it. The index width auto-expands
//! `u4 → u8 → u16` as the palette grows.

use vstd::prelude::*;
use crate::block::{BlockProperties, BlockStateId};
use std::collections::HashMap;

verus! {

broadcast use vstd::std_specs::hash::group_hash_axioms;

/// Whether `bits` is a supported entry width.
pub open spec fn valid_width(bits: u8) -> bool {
    bits == 4 || bits == 8 || bits == 16
}

/// Entries that fit in one 64-bit word at `bits` bits each.
pub open spec fn spec_epw(bits: u8) -> int {
    if bits == 4 {
        16
    } else if bits == 8 {
        8
    } else {
        4
    }
}

/// Mask selecting one entry of width `bits`.
pub open spec fn entry_mask(bits: u8) -> u64 {
    if bits == 4 {
        15
    } else if bits == 8 {
        255
    } else {
        65535
    }
}

/// Number of words needed for `len` entries at `bits` bits each.
pub open spec fn word_count(len: int, bits: u8) -> int {
    (len + spec_epw(bits) - 1) / spec_epw(bits)
}

/// Entry `i` decoded from a word sequence at width `bits`.
pub open spec fn packed_entry(words: Seq<u64>, bits: u8, i: int) -> u16 {
    ((words[i / spec_epw(bits)] >> (((i % spec_epw(bits)) * bits as int) as u64)) & entry_mask(bits)) as u16
}

/// The entries encoded by `len` packed entries in `words`.
pub open spec fn packed_view(words: Seq<u64>, bits: u8, len: int) -> Seq<u16> {
    Seq::new(len as nat, |i: int| packed_entry(words, bits, i))
}

/// The largest value an entry of width `bits` can hold.
pub open spec fn max_entry(bits: u8) -> int {
    entry_mask(bits) as int
}

proof fn lemma_field_update(w: u64, v: u64, m: u64, s: u64, s2: u64, b: u64)
    by (bit_vector)
    requires
        b == 4 || b == 8 || b == 16,
        m == (1u64 << b) - 1,
        s + b <= 64,
        s2 + b <= 64,
        s == s2 || s + b <= s2 || s2 + b <= s,
    ensures
        s == s2 ==> (((w & !(m << s)) | ((v & m) << s)) >> s2) & m == v & m,
        s != s2 ==> (((w & !(m << s)) | ((v & m) << s)) >> s2) & m == (w >> s2) & m,
{
}

proof fn lemma_zero_word(s: u64, m: u64)
    by (bit_vector)
    ensures
        (0u64 >> s) & m == 0,
{
}

proof fn lemma_mask_values()
    by (bit_vector)
    ensures
        (1u64 << 4u64) - 1 == 15,
        (1u64 << 8u64) - 1 == 255,
        (1u64 << 16u64) - 1 == 65535,
{
}

proof fn lemma_masked_small(x: u64, m: u64)
    by (bit_vector)
    requires
        m == 15 || m == 255 || m == 65535,
    ensures
        x & m <= m,
        ((x & m) as u16) as u64 == x & m,
{
}

proof fn lemma_small_masked(v: u64, m: u64)
    by (bit_vector)
    requires
        m == 15 || m == 255 || m == 65535,
        v <= m,
    ensures
        v & m == v,
{
}

proof fn lemma_slot(bits: u8, len: int, i: int, j: int)
    requires
        valid_width(bits),
        0 <= i < len,
        0 <= j < len,
    ensures
        0 <= i / spec_epw(bits) < word_count(len, bits),
        0 <= (i % spec_epw(bits)) * bits as int,
        (i % spec_epw(bits)) * bits as int + bits as int <= 64,
        (i / spec_epw(bits) == j / spec_epw(bits) && i != j) ==> ((i % spec_epw(bits)) * bits as int
            + bits as int <= (j % spec_epw(bits)) * bits as int || (j % spec_epw(bits)) * bits as int
            + bits as int <= (i % spec_epw(bits)) * bits as int),
{
    let e = spec_epw(bits);
    let b = bits as int;
    assert(e * b == 64);
    assert(0 <= i / e < (len + e - 1) / e && 0 <= i % e < e) by (nonlinear_arith)
        requires
            0 <= i < len,
            e >= 1,
    ;
    assert((i % e) * b + b <= 64) by (nonlinear_arith)
        requires
            0 <= i % e < e,
            e * b == 64,
            b > 0,
    ;
    assert((i / e == j / e && i != j) ==> (i % e) != (j % e)) by (nonlinear_arith)
        requires
            e >= 1,
    ;
    assert(0 <= (i % e) * b) by (nonlinear_arith)
        requires
            0 <= i % e,
            b > 0,
    ;
    assert((i % e) != (j % e) && 0 <= i % e < e && 0 <= j % e < e ==> ((i % e) * b + b <= (j % e) * b
        || (j % e) * b + b <= (i % e) * b)) by (nonlinear_arith)
        requires
            b > 0,
    ;
    assert(0 <= j % e < e) by (nonlinear_arith)
        requires
            e >= 1,
    ;
}

/// A tightly packed array of fixed-width unsigned integers (4, 8 or 16 bits,
/// each of which divides 64, so an entry never straddles a word).
#[derive(Debug, Clone, PartialEq, Eq)]
pub struct PackedArray {
    bits_per_entry: u8,
    len: usize,
    words: Vec<u64>,
}

impl PackedArray {
    /// Well-formedness: a supported width and exactly enough words.
    pub closed spec fn wf(&self) -> bool {
        &&& valid_width(self.bits_per_entry)
        &&& self.words@.len() == word_count(self.len as int, self.bits_per_entry)
    }

    /// The entry width.
    pub closed spec fn spec_bits(&self) -> u8 {
        self.bits_per_entry
    }

    /// The number of entries.
    pub closed spec fn spec_len(&self) -> int {
        self.len as int
    }

    /// The raw backing words.
    pub closed spec fn spec_words(&self) -> Seq<u64> {
        self.words@
    }

    /// The entries, in index order.
    pub closed spec fn view(&self) -> Seq<u16> {
        packed_view(self.words@, self.bits_per_entry, self.len as int)
    }

    /// The entries are the packed decoding of the backing words.
    pub proof fn lemma_view_def(&self)
        requires
            self.wf(),
        ensures
            valid_width(self.spec_bits()),
            self.spec_words().len() == word_count(self.spec_len(), self.spec_bits()),
            self.view() == packed_view(self.spec_words(), self.spec_bits(), self.spec_len()),
            self.view().len() == self.spec_len(),
    {
    }

    fn entries_per_word(bits: u8) -> (r: usize)
        requires
            valid_width(bits),
        ensures
            r as int == spec_epw(bits),
            r == 16 || r == 8 || r == 4,
    {
        if bits == 4 {
            16
        } else if bits == 8 {
            8
        } else {
            4
        }
    }

    /// A zero-filled array of `len` entries at `bits_per_entry` bits each.
    pub fn new(bits_per_entry: u8, len: usize) -> (r: Self)
        requires
            valid_width(bits_per_entry),
        ensures
            r.wf(),
            r.spec_bits() == bits_per_entry,
            r.spec_len() == len,
            r.view() == Seq::new(len as nat, |_i: int| 0u16),
    {
        let epw = Self::entries_per_word(bits_per_entry);
        let n = len / epw + if len % epw != 0 { 1 } else { 0 };
        let words = vec![0u64; n];
        let r = Self { bits_per_entry, len, words };
        proof {
            assert(n == word_count(len as int, bits_per_entry));
            assert forall|i: int| 0 <= i < len implies packed_entry(r.words@, bits_per_entry, i) == 0u16 by {
                let q = i / spec_epw(bits_per_entry);
                assert(0 <= q < n);
                assert(r.words@[q] == 0u64);
                lemma_zero_word((((i % spec_epw(bits_per_entry)) * bits_per_entry as int) as u64), entry_mask(bits_per_entry));
            }
            assert(r.view() =~= Seq::new(len as nat, |_i: int| 0u16));
        }
        r
    }

    /// Bits used per entry.
    pub fn bits_per_entry(&self) -> (r: u8)
        ensures
            r == self.spec_bits(),
    {
        self.bits_per_entry
    }

    /// Number of entries.
    pub fn len(&self) -> (r: usize)
        ensures
            r == self.spec_len(),
    {
        self.len
    }

    /// Whether the array holds no entries.
    pub fn is_empty(&self) -> (r: bool)
        ensures
            r == (self.spec_len() == 0),
    {
        self.len == 0
    }

    /// Raw backing words (used by the storage serializer).
    pub fn words(&self) -> (r: &[u64])
        ensures
            r@ == self.spec_words(),
    {
        self.words.as_slice()
    }

    /// Rebuild directly from raw words (used by the storage deserializer).
    pub fn from_words(bits_per_entry: u8, len: usize, words: Vec<u64>) -> (r: Self)
        requires
            valid_width(bits_per_entry),
            words@.len() == word_count(len as int, bits_per_entry),
        ensures
            r.wf(),
            r.spec_bits() == bits_per_entry,
            r.spec_len() == len,
            r.spec_words() == words@,
    {
        Self { bits_per_entry, len, words }
    }

    fn locate(&self, i: usize) -> (r: (usize, u64, u64))
        requires
            self.wf(),
            i < self.len,
        ensures
            r.0 as int == i as int / spec_epw(self.bits_per_entry),
            r.0 < self.words@.len(),
            r.1 as int == (i as int % spec_epw(self.bits_per_entry)) * self.bits_per_entry as int,
            r.1 + self.bits_per_entry <= 64,
            r.2 == entry_mask(self.bits_per_entry),
            r.2 == (1u64 << (self.bits_per_entry as u64)) - 1,
    {
        let epw = Self::entries_per_word(self.bits_per_entry);
        let word = i / epw;
        proof {
            lemma_slot(self.bits_per_entry, self.len as int, i as int, i as int);
        }
        let shift = ((i % epw) * self.bits_per_entry as usize) as u64;
        let mask: u64 = if self.bits_per_entry == 16 {
            0xffff
        } else {
            proof {
                lemma_mask_values();
            }
            (1u64 << (self.bits_per_entry as u64)) - 1
        };
        proof {
            lemma_mask_values();
            lemma_slot(self.bits_per_entry, self.len as int, i as int, i as int);
        }
        (word, shift, mask)
    }

    /// Read entry `i`.
    pub fn get(&self, i: usize) -> (v: u16)
        requires
            self.wf(),
            i < self.spec_len(),
        ensures
            v == self.view()[i as int],
    {
        let (word, shift, mask) = self.locate(i);
        ((self.words[word] >> shift) & mask) as u16
    }

    /// Write entry `i` (keeping the low `bits_per_entry` bits of `value`);
    /// every other entry is unchanged.
    pub fn set(&mut self, i: usize, value: u16)
        requires
            old(self).wf(),
            i < old(self).spec_len(),
        ensures
            final(self).wf(),
            final(self).spec_bits() == old(self).spec_bits(),
            final(self).spec_len() == old(self).spec_len(),
            final(self).view() == old(self).view().update(i as int, ((value as u64) & entry_mask(old(self).spec_bits())) as u16),
    {
        let (word, shift, mask) = self.locate(i);
        let w = self.words[word];
        let nw = (w & !(mask << shift)) | (((value as u64) & mask) << shift);
        self.words.set(word, nw);
        proof {
            let bits = old(self).bits_per_entry;
            let epw = spec_epw(bits);
            let ws = old(self).words@;
            assert forall|j: int| 0 <= j < self.len implies packed_entry(self.words@, bits, j)
                == old(self).view().update(i as int, ((value as u64) & entry_mask(bits)) as u16)[j] by {
                let qj = j / epw;
                lemma_slot(bits, self.len as int, j, i as int);
                let sj = ((j % epw) * bits as int) as u64;
                if qj == word as int {
                    lemma_field_update(w, value as u64, mask, shift, sj, bits as u64);
                    if j != i as int {
                        assert(sj != shift);
                        assert(shift + bits as u64 <= sj || sj + bits as u64 <= shift);
                    }
                } else {
                    assert(self.words@[qj] == ws[qj]);
                }
            }
            assert(self.view() =~= old(self).view().update(i as int, ((value as u64) & entry_mask(bits)) as u16));
        }
    }

    /// Return a copy widened to `new_bits`, preserving every entry.
    fn widened(&self, new_bits: u8) -> (r: PackedArray)
        requires
            self.wf(),
            valid_width(new_bits),
            new_bits >= self.spec_bits(),
        ensures
            r.wf(),
            r.spec_bits() == new_bits,
            r.spec_len() == self.spec_len(),
            r.view() == self.view(),
    {
        let mut out = PackedArray::new(new_bits, self.len);
        let mut i: usize = 0;
        while i < self.len
            invariant
                self.wf(),
                valid_width(new_bits),
                new_bits >= self.spec_bits(),
                out.wf(),
                out.spec_bits() == new_bits,
                out.spec_len() == self.spec_len(),
                i <= self.len,
                forall|j: int| 0 <= j < i ==> out.view()[j] == self.view()[j],
            decreases self.len - i,
        {
            let v = self.get(i);
            proof {
                lemma_masked_small(
                    self.words@[i as int / spec_epw(self.bits_per_entry)] >> (((i as int % spec_epw(self.bits_per_entry)) * self.bits_per_entry as int) as u64),
                    entry_mask(self.bits_per_entry),
                );
                lemma_small_masked(v as u64, entry_mask(new_bits));
            }
            out.set(i, v);
            i += 1;
        }
        assert(out.view() =~= self.view());
        out
    }
}

/// The minimum index width that can hold `distinct` palette entries.
pub open spec fn required_bits_spec(distinct: int) -> u8 {
    if distinct <= 16 {
        4
    } else if distinct <= 256 {
        8
    } else {
        16
    }
}

/// A sub-chunk palette: distinct block states plus their [`BlockProperties`],
/// with an auto-widening [`PackedArray`] of per-block indices.
#[derive(Debug, Clone)]
pub struct Palette {
    entries: Vec<BlockStateId>,
    props: Vec<BlockProperties>,
    lookup: HashMap<u32, u16>,
    indices: PackedArray,
}

impl Palette {
    /// Well-formedness: parallel entry/property tables, a lookup that finds
    /// every entry, every packed index in range and representable at the
    /// current width.
    pub closed spec fn wf(&self) -> bool {
        &&& self.indices.wf()
        &&& 1 <= self.entries@.len()
        &&& self.entries@.len() == self.props@.len()
        &&& self.entries@.len() <= max_entry(self.indices.spec_bits()) + 1
        &&& self.entries@.len() <= 65535
        &&& forall|i: int| 0 <= i < self.indices.spec_len() ==> (#[trigger] self.indices.view()[i]) < self.entries@.len()
        &&& forall|k: u32| #[trigger] self.lookup@.contains_key(k) ==> (self.lookup@[k] as int) < self.entries@.len()
            && self.entries@[self.lookup@[k] as int].0 == k
        &&& forall|i: int| 0 <= i < self.entries@.len() ==> self.lookup@.contains_key(#[trigger] self.entries@[i].0)
    }

    /// Distinct palette entries, index order.
    pub closed spec fn entry_seq(&self) -> Seq<BlockStateId> {
        self.entries@
    }

    /// Per-entry properties, parallel to [`Palette::entry_seq`].
    pub closed spec fn prop_seq(&self) -> Seq<BlockProperties> {
        self.props@
    }

    /// The packed index array.
    pub closed spec fn index_array(&self) -> PackedArray {
        self.indices
    }

    /// Number of block positions.
    pub open spec fn spec_len(&self) -> int {
        self.index_array().spec_len()
    }

    /// Current index width.
    pub open spec fn spec_bits(&self) -> u8 {
        self.index_array().spec_bits()
    }

    /// The block state at every position.
    pub open spec fn blocks(&self) -> Seq<BlockStateId> {
        Seq::new(self.spec_len() as nat, |i: int| self.entry_seq()[self.index_array().view()[i] as int])
    }

    /// The properties of the block at every position.
    pub open spec fn block_props(&self) -> Seq<BlockProperties> {
        Seq::new(self.spec_len() as nat, |i: int| self.prop_seq()[self.index_array().view()[i] as int])
    }

    /// A palette as building it leaves it: air is entry 0, no id is listed
    /// twice, and the width is the narrowest for the number of entries.
    pub open spec fn canonical(&self) -> bool {
        &&& self.entry_seq().len() >= 1
        &&& self.entry_seq()[0] == BlockStateId(0)
        &&& self.entry_seq().no_duplicates()
        &&& self.spec_bits() == required_bits_spec(self.entry_seq().len() as int)
    }

    /// Whether `id` is one of the palette entries.
    pub open spec fn has_id(&self, id: BlockStateId) -> bool {
        exists|i: int| 0 <= i < self.entry_seq().len() && self.entry_seq()[i] == id
    }

    /// Every palette entry equal to `id` carries `props`.
    pub open spec fn consistent(&self, id: BlockStateId, props: BlockProperties) -> bool {
        forall|i: int| 0 <= i < self.entry_seq().len() && self.entry_seq()[i] == id ==> self.prop_seq()[i] == props
    }

    /// Whether `id` can be stored: it is already known, or there is room for
    /// one more palette entry.
    pub open spec fn can_store(&self, id: BlockStateId) -> bool {
        self.has_id(id) || self.entry_seq().len() < 4096
    }

    pub proof fn lemma_wf_facts(&self)
        requires
            self.wf(),
        ensures
            1 <= self.entry_seq().len() <= 65535,
            self.entry_seq().len() == self.prop_seq().len(),
            self.index_array().wf(),
            self.entry_seq().len() <= max_entry(self.spec_bits()) + 1,
            forall|i: int| 0 <= i < self.spec_len() ==> (#[trigger] self.index_array().view()[i]) < self.entry_seq().len(),
    {
    }

    /// A palette for `len` blocks, initialised entirely to air (index 0).
    pub fn new(len: usize) -> (p: Self)
        ensures
            p.wf(),
            p.spec_len() == len,
            p.spec_bits() == 4,
            p.canonical(),
            p.entry_seq() == seq![BlockStateId(0)],
            p.prop_seq() == seq![BlockProperties::air_spec()],
            p.blocks() == Seq::new(len as nat, |_i: int| BlockStateId(0)),
            p.block_props() == Seq::new(len as nat, |_i: int| BlockProperties::air_spec()),
    {
        let air = BlockStateId(0);
        let mut lookup: HashMap<u32, u16> = HashMap::new();
        lookup.insert(0u32, 0u16);
        let mut entries: Vec<BlockStateId> = Vec::new();
        entries.push(air);
        let mut props: Vec<BlockProperties> = Vec::new();
        props.push(BlockProperties::air());
        let indices = PackedArray::new(4, len);
        let p = Self { entries, props, lookup, indices };
        proof {
            assert(p.entries@ =~= seq![BlockStateId(0)]);
            assert(p.props@ =~= seq![BlockProperties::air_spec()]);
            assert(p.blocks() =~= Seq::new(len as nat, |_i: int| BlockStateId(0)));
            assert(p.block_props() =~= Seq::new(len as nat, |_i: int| BlockProperties::air_spec()));
        }
        p
    }

    /// Number of distinct block states in the palette.
    pub fn distinct(&self) -> (r: usize)
        ensures
            r == self.entry_seq().len(),
    {
        self.entries.len()
    }

    /// Current index bit-width (4, 8 or 16).
    pub fn bits_per_entry(&self) -> (r: u8)
        ensures
            r == self.spec_bits(),
    {
        self.indices.bits_per_entry()
    }

    /// The minimum index width that can hold `distinct` palette entries.
    fn required_bits(distinct: usize) -> (r: u8)
        ensures
            r == required_bits_spec(distinct as int),
    {
        if distinct <= 16 {
            4
        } else if distinct <= 256 {
            8
        } else {
            16
        }
    }

    /// Get or insert the palette index for `(id, props)`, widening the index
    /// array when the palette outgrows the current width.
    fn intern(&mut self, id: BlockStateId, props: BlockProperties) -> (idx: u16)
        requires
            old(self).wf(),
            old(self).consistent(id, props),
            old(self).can_store(id),
        ensures
            final(self).wf(),
            (idx as int) < final(self).entry_seq().len(),
            final(self).entry_seq()[idx as int] == id,
            final(self).prop_seq()[idx as int] == props,
            final(self).spec_len() == old(self).spec_len(),
            final(self).index_array().view() == old(self).index_array().view(),
            old(self).has_id(id) ==> final(self).entry_seq() == old(self).entry_seq()
                && final(self).prop_seq() == old(self).prop_seq()
                && final(self).spec_bits() == old(self).spec_bits(),
            !old(self).has_id(id) ==> final(self).entry_seq() == old(self).entry_seq().push(id)
                && final(self).prop_seq() == old(self).prop_seq().push(props)
                && final(self).spec_bits() == (if required_bits_spec(final(self).entry_seq().len() as int)
                    > old(self).spec_bits() { required_bits_spec(final(self).entry_seq().len() as int) } else { old(self).spec_bits() }),
            old(self).canonical() ==> final(self).canonical(),
    {
        match self.lookup.get(&id.0) {
            Some(idx) => {
                let idx = *idx;
                proof {
                    assert(self.entries@[idx as int].0 == id.0);
                }
                return idx;
            },
            None => {},
        }
        proof {
            assert(!old(self).has_id(id)) by {
                if old(self).has_id(id) {
                    let i = choose|i: int| 0 <= i < self.entries@.len() && self.entries@[i] == id;
                    assert(self.lookup@.contains_key(self.entries@[i].0));
                }
            }
        }
        let idx = self.entries.len() as u16;
        self.entries.push(id);
        self.props.push(props);
        self.lookup.insert(id.0, idx);
        let needed = Self::required_bits(self.entries.len());
        if needed > self.indices.bits_per_entry() {
            self.indices = self.indices.widened(needed);
        }
        proof {
            let n = self.entries@.len();
            assert(n <= max_entry(self.indices.spec_bits()) + 1);
            assert forall|k: u32| #[trigger] self.lookup@.contains_key(k) implies (self.lookup@[k] as int)
                < self.entries@.len() && self.entries@[self.lookup@[k] as int].0 == k by {
                if k != id.0 {
                    assert(old(self).lookup@.contains_key(k));
                }
            }
            assert forall|i: int| 0 <= i < self.entries@.len() implies self.lookup@.contains_key(
                #[trigger] self.entries@[i].0) by {
                if i < n - 1 {
                    assert(old(self).entries@[i] == self.entries@[i]);
                    assert(old(self).lookup@.contains_key(old(self).entries@[i].0));
                }
            }
            assert forall|i: int| 0 <= i < self.indices.spec_len() implies (#[trigger] self.indices.view()[i])
                < self.entries@.len() by {
                assert(old(self).indices.view()[i] < old(self).entries@.len());
            }
        }
        idx
    }

    /// Set block at flat position `pos`, returning its old and new properties.
    pub fn set(&mut self, pos: usize, id: BlockStateId, props: BlockProperties) -> (r: (
        BlockProperties,
        BlockProperties,
    ))
        requires
            old(self).wf(),
            pos < old(self).spec_len(),
            old(self).consistent(id, props),
            old(self).can_store(id),
        ensures
            final(self).wf(),
            final(self).spec_len() == old(self).spec_len(),
            final(self).blocks() == old(self).blocks().update(pos as int, id),
            final(self).block_props() == old(self).block_props().update(pos as int, props),
            r == (old(self).block_props()[pos as int], props),
            old(self).has_id(id) ==> final(self).entry_seq() == old(self).entry_seq()
                && final(self).prop_seq() == old(self).prop_seq()
                && final(self).spec_bits() == old(self).spec_bits(),
            !old(self).has_id(id) ==> final(self).entry_seq() == old(self).entry_seq().push(id)
                && final(self).prop_seq() == old(self).prop_seq().push(props)
                && final(self).spec_bits() == (if required_bits_spec(final(self).entry_seq().len() as int)
                    > old(self).spec_bits() { required_bits_spec(final(self).entry_seq().len() as int) } else { old(self).spec_bits() }),
    {
        let old_idx = self.indices.get(pos);
        let old_props = self.props[old_idx as usize];
        let idx = self.intern(id, props);
        proof {
            lemma_small_masked(idx as u64, entry_mask(self.indices.spec_bits()));
        }
        self.indices.set(pos, idx);
        proof {
            let v = self.indices.view();
            assert forall|i: int| 0 <= i < self.indices.spec_len() implies (#[trigger] self.indices.view()[i])
                < self.entries@.len() by {
                if i != pos {
                    assert(old(self).indices.view()[i] < old(self).entries@.len());
                }
            }
            assert forall|i: int| 0 <= i < self.spec_len() implies self.blocks()[i] == old(self).blocks().update(
                pos as int, id)[i] && self.block_props()[i] == old(self).block_props().update(pos as int, props)[i] by {
                if i != pos {
                    assert(old(self).indices.view()[i] < old(self).entries@.len());
                }
            }
            assert(self.blocks() =~= old(self).blocks().update(pos as int, id));
            assert(self.block_props() =~= old(self).block_props().update(pos as int, props));
            if old(self).canonical() && !old(self).has_id(id) {
                lemma_width_tracks_growth(
                    old(self).spec_bits(),
                    old(self).entry_seq().len() as int,
                    self.entry_seq().len() as int,
                );
                assert forall|a: int, b: int|
                    0 <= a < b < self.entry_seq().len() implies self.entry_seq()[a] != self.entry_seq()[b] by {
                    if b == self.entry_seq().len() - 1 {
                        assert(old(self).entry_seq()[a] != id);
                    }
                }
            }
        }
        (old_props, props)
    }

    /// The block state at flat position `pos`.
    pub fn get(&self, pos: usize) -> (r: BlockStateId)
        requires
            self.wf(),
            pos < self.spec_len(),
        ensures
            r == self.blocks()[pos as int],
    {
        self.entries[self.indices.get(pos) as usize]
    }

    /// The properties of the block at flat position `pos`.
    pub fn props_at(&self, pos: usize) -> (r: BlockProperties)
        requires
            self.wf(),
            pos < self.spec_len(),
        ensures
            r == self.block_props()[pos as int],
    {
        self.props[self.indices.get(pos) as usize]
    }

    /// Distinct palette entries, index order (index 0 is air for palettes
    /// made by [`Palette::new`]).
    pub fn entries(&self) -> (r: &[BlockStateId])
        ensures
            r@ == self.entry_seq(),
    {
        self.entries.as_slice()
    }

    /// Per-entry properties, parallel to [`Palette::entries`].
    pub fn entry_props(&self) -> (r: &[BlockProperties])
        ensures
            r@ == self.prop_seq(),
    {
        self.props.as_slice()
    }

    /// The packed index array (used by the storage serializer).
    pub fn indices(&self) -> (r: &PackedArray)
        ensures
            *r == self.index_array(),
    {
        &self.indices
    }

    /// Reassemble a palette from its serialized parts.
    pub fn from_parts(entries: Vec<BlockStateId>, props: Vec<BlockProperties>, indices: PackedArray) -> (p: Self)
        requires
            entries@.len() == props@.len(),
            entries@.len() >= 1,
            indices.wf(),
            entries@.len() <= max_entry(indices.spec_bits()) + 1,
            entries@.len() <= 65535,
            forall|i: int| 0 <= i < indices.spec_len() ==> (#[trigger] indices.view()[i]) < entries@.len(),
        ensures
            p.wf(),
            p.entry_seq() == entries@,
            p.prop_seq() == props@,
            p.index_array() == indices,
    {
        let mut lookup: HashMap<u32, u16> = HashMap::new();
        let mut i: usize = 0;
        while i < entries.len()
            invariant
                i <= entries@.len(),
                entries@.len() <= 65535,
                forall|k: u32| #[trigger] lookup@.contains_key(k) ==> (lookup@[k] as int) < i
                    && entries@[lookup@[k] as int].0 == k,
                forall|j: int| 0 <= j < i ==> lookup@.contains_key(#[trigger] entries@[j].0),
            decreases entries@.len() - i,
        {
            lookup.insert(entries[i].0, i as u16);
            i += 1;
        }
        Self { entries, props, lookup, indices }
    }
}

/// Once a palette's width matches its size, it keeps matching as the palette
/// grows: widening always lands on the minimum width for the new size.
pub proof fn lemma_width_tracks_growth(bits: u8, n: int, m: int)
    requires
        bits == required_bits_spec(n),
        n <= m,
    ensures
        (if required_bits_spec(m) > bits { required_bits_spec(m) } else { bits }) == required_bits_spec(m),
{
}

} // verus!
