//! Player identity: game modes and offline-mode UUIDs.
//!
//! Vanilla derives an offline player's UUID from the name; a client in
//! offline mode does not verify it, so a stable FNV-based value with the
//! version/variant nibbles set is enough.

use vstd::prelude::*;
use vstd::string::StringSliceAdditionalSpecFns;
use crate::names::chars_of;

verus! {

/// Minecraft game modes (numbered as the vanilla protocol numbers them).
#[derive(Debug, Clone, Copy, PartialEq, Eq, Structural)]
pub enum GameMode {
    /// Survival.
    Survival,
    /// Creative (flying, no fall damage).
    Creative,
    /// Adventure.
    Adventure,
    /// Spectator.
    Spectator,
}

impl GameMode {
    /// The protocol byte of a mode.
    pub open spec fn as_u8_spec(self) -> u8 {
        match self {
            GameMode::Survival => 0u8,
            GameMode::Creative => 1u8,
            GameMode::Adventure => 2u8,
            GameMode::Spectator => 3u8,
        }
    }

    /// The protocol byte for this mode.
    pub fn as_u8(self) -> (r: u8)
        ensures
            r == self.as_u8_spec(),
    {
        match self {
            GameMode::Survival => 0,
            GameMode::Creative => 1,
            GameMode::Adventure => 2,
            GameMode::Spectator => 3,
        }
    }
}

/// The 64-bit FNV-1a hash of `bytes` from `seed`.
pub open spec fn fnv1a64_spec(bytes: Seq<u8>, seed: u64) -> u64
    decreases bytes.len(),
{
    if bytes.len() == 0 {
        seed
    } else {
        vstd::wrapping::u64_specs::wrapping_mul(
            fnv1a64_spec(bytes.drop_last(), seed) ^ (bytes.last() as u64),
            0x1000_0000_01b3,
        )
    }
}

/// FNV-1a over `bytes`, seeded by `seed`.
pub fn fnv1a64(bytes: &[u8], seed: u64) -> (r: u64)
    ensures
        r == fnv1a64_spec(bytes@, seed),
{
    let mut h = seed;
    let mut i: usize = 0;
    while i < bytes.len()
        invariant
            i <= bytes@.len(),
            h == fnv1a64_spec(bytes@.take(i as int), seed),
        decreases bytes@.len() - i,
    {
        proof {
            assert(bytes@.take(i + 1).drop_last() =~= bytes@.take(i as int));
        }
        h = h ^ (bytes[i] as u64);
        h = h.wrapping_mul(0x1000_0000_01b3);
        i += 1;
    }
    assert(bytes@.take(bytes@.len() as int) =~= bytes@);
    h
}

/// The UUID the bytes of `OfflinePlayer:<name>` give: two FNV-1a passes fill
/// 128 bits, then the version (3) and RFC-4122 variant bits are set.
pub open spec fn uuid_of_seed(seed: Seq<u8>) -> u128 {
    let lo = fnv1a64_spec(seed, 0xcbf2_9ce4_8422_2325);
    let hi = fnv1a64_spec(seed, 0x8422_2325_cbf2_9ce4);
    let v = ((hi as u128) << 64u128) | (lo as u128);
    let v = v & !(0xf000u128 << 64u128);
    let v = v | (0x3000u128 << 64u128);
    let v = v & !(0xc000u128 << 48u128);
    v | (0x8000u128 << 48u128)
}

/// A deterministic offline-mode UUID derived from the player name.
pub fn offline_uuid(name: &str) -> (r: u128)
    ensures
        r == uuid_of_seed("OfflinePlayer:".spec_bytes() + name.spec_bytes()),
{
    let prefix = "OfflinePlayer:".as_bytes();
    let tail = name.as_bytes();
    let mut seed: Vec<u8> = Vec::new();
    let mut i: usize = 0;
    while i < prefix.len()
        invariant
            i <= prefix@.len(),
            seed@ == prefix@.take(i as int),
        decreases prefix@.len() - i,
    {
        seed.push(prefix[i]);
        i += 1;
        assert(seed@ =~= prefix@.take(i as int));
    }
    let mut j: usize = 0;
    assert(prefix@.take(prefix@.len() as int) =~= prefix@);
    while j < tail.len()
        invariant
            j <= tail@.len(),
            seed@ == prefix@ + tail@.take(j as int),
        decreases tail@.len() - j,
    {
        seed.push(tail[j]);
        j += 1;
        assert(seed@ =~= prefix@ + tail@.take(j as int));
    }
    assert(tail@.take(tail@.len() as int) =~= tail@);
    let lo = fnv1a64(seed.as_slice(), 0xcbf2_9ce4_8422_2325);
    let hi = fnv1a64(seed.as_slice(), 0x8422_2325_cbf2_9ce4);
    let mut v: u128 = ((hi as u128) << 64u128) | (lo as u128);
    v = v & !(0xf000u128 << 64u128);
    v = v | (0x3000u128 << 64u128);
    v = v & !(0xc000u128 << 48u128);
    v = v | (0x8000u128 << 48u128);
    v
}

/// Every offline UUID is a well-formed version-3, RFC-4122-variant UUID.
pub proof fn lemma_uuid_well_formed(seed: Seq<u8>)
    ensures
        (uuid_of_seed(seed) >> 76u128) & 0xf == 3,
        (uuid_of_seed(seed) >> 62u128) & 0x3 == 2,
{
    let lo = fnv1a64_spec(seed, 0xcbf2_9ce4_8422_2325);
    let hi = fnv1a64_spec(seed, 0x8422_2325_cbf2_9ce4);
    assert({
        let v = ((hi as u128) << 64u128) | (lo as u128);
        let v = v & !(0xf000u128 << 64u128);
        let v = v | (0x3000u128 << 64u128);
        let v = v & !(0xc000u128 << 48u128);
        let v = v | (0x8000u128 << 48u128);
        (v >> 76u128) & 0xf == 3 && (v >> 62u128) & 0x3 == 2
    }) by (bit_vector);
}

/// The lowercase hex digit of `d` (`d < 16`).
pub open spec fn hex_digit(d: u128) -> char {
    "0123456789abcdef"@[d as int]
}

/// The 32 hex digits of `u`, most significant first.
pub open spec fn hex_of(u: u128) -> Seq<char> {
    Seq::new(32, |k: int| hex_digit((u >> ((4 * (31 - k)) as u128)) & 0xf))
}

/// A UUID written `8-4-4-4-12` as vanilla expects on the wire.
pub open spec fn hyphenated_spec(u: u128) -> Seq<char> {
    let h = hex_of(u);
    h.subrange(0, 8) + seq!['-'] + h.subrange(8, 12) + seq!['-'] + h.subrange(12, 16) + seq!['-'] + h.subrange(
        16,
        20,
    ) + seq!['-'] + h.subrange(20, 32)
}

/// Format a UUID `8-4-4-4-12` in lowercase hex.
pub fn hyphenated_uuid(uuid: u128) -> (r: String)
    ensures
        r@ == hyphenated_spec(uuid),
{
    let digits = chars_of("0123456789abcdef");
    proof {
        reveal_strlit("0123456789abcdef");
    }
    let mut out = String::new();
    let mut k: usize = 0;
    let ghost h = hex_of(uuid);
    while k < 32
        invariant
            k <= 32,
            digits@ == "0123456789abcdef"@,
            digits@.len() == 16,
            h == hex_of(uuid),
            out@ == hyphen_prefix(h, k as int),
        decreases 32 - k,
    {
        if k == 8 || k == 12 || k == 16 || k == 20 {
            out.push('-');
        }
        let shift = (4 * (31 - k)) as u128;
        let d = (uuid >> shift) & 0xf;
        assert(d < 16) by (bit_vector)
            requires
                d == (uuid >> shift) & 0xf,
        ;
        out.push(digits[d as usize]);
        proof {
            assert(h[k as int] == digits@[d as int]);
            assert(hyphen_prefix(h, k + 1) =~= hyphen_prefix(h, k as int) + (if k == 8 || k == 12 || k == 16 || k
                == 20 {
                seq!['-']
            } else {
                Seq::empty()
            }) + seq![h[k as int]]);
        }
        k += 1;
    }
    proof {
        lemma_run(h, 0, 8);
        lemma_run(h, 8, 12);
        lemma_run(h, 12, 16);
        lemma_run(h, 16, 20);
        lemma_run(h, 20, 32);
        assert(hyphen_prefix(h, 0) =~= Seq::<char>::empty());
        assert(hyphen_prefix(h, 32) =~= hyphenated_spec(uuid));
    }
    out
}

/// A run of digits with no hyphen inside it extends the prefix by those digits.
proof fn lemma_run(h: Seq<char>, a: int, b: int)
    requires
        0 <= a < b <= 32,
        h.len() == 32,
        (a < 8 ==> b <= 8) && (a < 12 ==> b <= 12) && (a < 16 ==> b <= 16) && (a < 20 ==> b <= 20),
    ensures
        hyphen_prefix(h, b) == hyphen_prefix(h, a) + (if a == 8 || a == 12 || a == 16 || a == 20 {
            seq!['-']
        } else {
            Seq::empty()
        }) + h.subrange(a, b),
    decreases b - a,
{
    if b - 1 == a {
        assert(h.subrange(a, b) =~= seq![h[a]]);
    } else {
        lemma_run(h, a, b - 1);
        assert(h.subrange(a, b) =~= h.subrange(a, b - 1) + seq![h[b - 1]]);
        assert(hyphen_prefix(h, b) == hyphen_prefix(h, b - 1) + Seq::<char>::empty() + seq![h[b - 1]]);
        assert(hyphen_prefix(h, b) =~= hyphen_prefix(h, a) + (if a == 8 || a == 12 || a == 16 || a == 20 {
            seq!['-']
        } else {
            Seq::empty()
        }) + h.subrange(a, b));
    }
}

/// The first `k` hex digits of `h` with the hyphens that precede them.
pub open spec fn hyphen_prefix(h: Seq<char>, k: int) -> Seq<char>
    decreases k,
{
    if k <= 0 {
        Seq::empty()
    } else {
        hyphen_prefix(h, k - 1) + (if k - 1 == 8 || k - 1 == 12 || k - 1 == 16 || k - 1 == 20 {
            seq!['-']
        } else {
            Seq::empty()
        }) + seq![h[k - 1]]
    }
}

} // verus!
