//! The LEB128-style VarInt / VarLong codec that every Minecraft-protocol
//! frame uses: seven value bits per byte, least significant group first, the
//! high bit set on every byte but the last.

use vstd::prelude::*;

verus! {

/// Errors returned by the VarInt / VarLong decoders.
#[derive(Debug, Clone, Copy, PartialEq, Eq, Structural)]
pub enum VarIntError {
    /// The buffer ended before the value was fully decoded.
    UnexpectedEof,
    /// The encoding used more bytes than the target type allows.
    TooLong,
}

impl VarIntError {
    /// A human-readable description of the error.
    pub fn message(&self) -> (r: &'static str)
        ensures
            r == match self {
                VarIntError::UnexpectedEof => "unexpected end of buffer while reading VarInt",
                VarIntError::TooLong => "VarInt is longer than its type permits",
            },
    {
        match self {
            VarIntError::UnexpectedEof => "unexpected end of buffer while reading VarInt",
            VarIntError::TooLong => "VarInt is longer than its type permits",
        }
    }
}

/// The unsigned 32-bit pattern of `v` (two's complement).
pub open spec fn u32_bits(v: i32) -> nat {
    if v >= 0 {
        v as nat
    } else {
        (v + 0x1_0000_0000) as nat
    }
}

/// The unsigned 64-bit pattern of `v` (two's complement).
pub open spec fn u64_bits(v: i64) -> nat {
    if v >= 0 {
        v as nat
    } else {
        (v + 0x1_0000_0000_0000_0000) as nat
    }
}

/// The signed value of a 32-bit pattern.
pub open spec fn i32_of_bits(u: nat) -> int {
    if u < 0x8000_0000 {
        u as int
    } else {
        u - 0x1_0000_0000
    }
}

/// The signed value of a 64-bit pattern.
pub open spec fn i64_of_bits(u: nat) -> int {
    if u < 0x8000_0000_0000_0000 {
        u as int
    } else {
        u - 0x1_0000_0000_0000_0000
    }
}

/// The base-128 groups of `v`, least significant first, each byte but the
/// last carrying the continuation bit.
pub open spec fn leb_bytes(v: nat) -> Seq<u8>
    decreases v,
{
    if v < 128 {
        seq![v as u8]
    } else {
        seq![(v % 128 + 128) as u8] + leb_bytes(v / 128)
    }
}

/// Decode at most `max` base-128 groups from the front of `buf`: the value
/// and the number of bytes it took, or why there is none.
pub open spec fn leb_decode(buf: Seq<u8>, max: nat) -> Result<(nat, nat), VarIntError>
    decreases max,
{
    if max == 0 {
        Err(VarIntError::TooLong)
    } else if buf.len() == 0 {
        Err(VarIntError::UnexpectedEof)
    } else if buf[0] < 128 {
        Ok((buf[0] as nat, 1nat))
    } else {
        match leb_decode(buf.drop_first(), (max - 1) as nat) {
            Ok((v, n)) => Ok((((buf[0] - 128) + 128 * v) as nat, n + 1)),
            Err(e) => Err(e),
        }
    }
}

proof fn lemma_bits_i32(value: i32)
    ensures
        (value as u32) as nat == u32_bits(value),
{
    assert(value >= 0 ==> (value as u32) as int == value as int) by (bit_vector);
    assert(value < 0 ==> (value as u32) as int == value as int + 0x1_0000_0000) by (bit_vector);
}


proof fn lemma_bits_i64(value: i64)
    ensures
        (value as u64) as nat == u64_bits(value),
{
    assert(value >= 0 ==> (value as u64) as int == value as int) by (bit_vector);
    assert(value < 0 ==> (value as u64) as int == value as int + 0x1_0000_0000_0000_0000) by (bit_vector);
}

proof fn lemma_i32_of(u: u32)
    ensures
        (u as i32) as int == i32_of_bits(u as nat),
{
    assert(u < 0x8000_0000 ==> (u as i32) as int == u as int) by (bit_vector);
    assert(u >= 0x8000_0000 ==> (u as i32) as int == u as int - 0x1_0000_0000) by (bit_vector);
}

proof fn lemma_i64_of(u: u64)
    ensures
        (u as i64) as int == i64_of_bits(u as nat),
{
    assert(u < 0x8000_0000_0000_0000 ==> (u as i64) as int == u as int) by (bit_vector);
    assert(u >= 0x8000_0000_0000_0000 ==> (u as i64) as int == u as int - 0x1_0000_0000_0000_0000)
        by (bit_vector);
}

/// `128^i`.
pub open spec fn pow128(i: nat) -> nat
    decreases i,
{
    if i == 0 {
        1
    } else {
        128 * pow128((i - 1) as nat)
    }
}

/// The decoding of `buf` in terms of the decoding of what follows its first
/// `i` bytes: `acc` holds the value of those bytes, `mult` is `128^i`.
spec fn leb_resume(
    buf: Seq<u8>,
    max: nat,
    i: nat,
    acc: nat,
    mult: nat,
) -> bool {
    leb_decode(buf, max) == match leb_decode(buf.skip(i as int), (max - i) as nat) {
        Ok((v, n)) => Ok(((acc + mult * v) as nat, n + i)),
        Err(e) => Err(e),
    }
}

proof fn lemma_leb_resume_step(buf: Seq<u8>, max: nat, i: nat, acc: nat, mult: nat)
    requires
        leb_resume(buf, max, i, acc, mult),
        i < max,
        i < buf.len(),
        buf[i as int] >= 128,
    ensures
        leb_resume(buf, max, i + 1, (acc + mult * (buf[i as int] - 128)) as nat, mult * 128),
{
    let t = buf.skip(i as int);
    assert(t[0] == buf[i as int]);
    assert(t.drop_first() =~= buf.skip((i + 1) as int));
    assert(mult * (128 * 0) == 0) by (nonlinear_arith);
    match leb_decode(buf.skip((i + 1) as int), (max - i - 1) as nat) {
        Ok((v, n)) => {
            assert(mult * ((buf[i as int] - 128) + 128 * v) == mult * (buf[i as int] - 128) + (mult
                * 128) * v) by (nonlinear_arith);
        },
        Err(e) => {},
    }
}

/// Append `value` to `out` as a Minecraft-protocol VarInt (at most 5 bytes).
pub fn write_varint(value: i32, out: &mut Vec<u8>)
    ensures
        final(out)@ == old(out)@ + leb_bytes(u32_bits(value)),
{
    proof {
        lemma_bits_i32(value);
    }
    let mut v: u32 = value as u32;
    loop
        invariant
            out@ + leb_bytes(v as nat) == old(out)@ + leb_bytes(u32_bits(value)),
        decreases v,
    {
        if v < 0x80 {
            let ghost before = out@;
            out.push(v as u8);
            proof {
                assert(leb_bytes(v as nat) == seq![v as u8]);
                assert(out@ =~= before + leb_bytes(v as nat));
            }
            return;
        }
        let ghost before = out@;
        out.push((v % 0x80 + 0x80) as u8);
        proof {
            assert(leb_bytes(v as nat) == seq![(v % 128 + 128) as u8] + leb_bytes((v / 128) as nat));
            assert(before + leb_bytes(v as nat) =~= out@ + leb_bytes((v / 128) as nat));
        }
        v = v / 0x80;
    }
}

/// Append `value` to `out` as a Minecraft-protocol VarLong (at most 10
/// bytes).
pub fn write_varlong(value: i64, out: &mut Vec<u8>)
    ensures
        final(out)@ == old(out)@ + leb_bytes(u64_bits(value)),
{
    proof {
        lemma_bits_i64(value);
    }
    let mut v: u64 = value as u64;
    loop
        invariant
            out@ + leb_bytes(v as nat) == old(out)@ + leb_bytes(u64_bits(value)),
        decreases v,
    {
        if v < 0x80 {
            let ghost before = out@;
            out.push(v as u8);
            proof {
                assert(leb_bytes(v as nat) == seq![v as u8]);
                assert(out@ =~= before + leb_bytes(v as nat));
            }
            return;
        }
        let ghost before = out@;
        out.push((v % 0x80 + 0x80) as u8);
        proof {
            assert(leb_bytes(v as nat) == seq![(v % 128 + 128) as u8] + leb_bytes((v / 128) as nat));
            assert(before + leb_bytes(v as nat) =~= out@ + leb_bytes((v / 128) as nat));
        }
        v = v / 0x80;
    }
}

/// Read a VarInt from the front of `buf`: the value (the low 32 bits of the
/// decoded groups, as a signed pattern) and the number of bytes read.
pub fn read_varint(buf: &[u8]) -> (r: Result<(i32, usize), VarIntError>)
    ensures
        r == match leb_decode(buf@, 5) {
            Ok((v, n)) => Ok::<(i32, usize), VarIntError>(
                (i32_of_bits(v % 0x1_0000_0000) as i32, n as usize),
            ),
            Err(e) => Err(e),
        },
{
    let mut result: u64 = 0;
    let mut mult: u64 = 1;
    let mut i: usize = 0;
    proof {
        assert(buf@.skip(0) =~= buf@);
    }
    while i < 5
        invariant
            0 <= i <= 5,
            i <= buf@.len(),
            mult == pow128(i as nat),
            result < mult,
            leb_resume(buf@, 5, i as nat, result as nat, mult as nat),
        decreases 5 - i,
    {
        if i >= buf.len() {
            proof {
                assert(buf@.skip(i as int).len() == 0);
            }
            return Err(VarIntError::UnexpectedEof);
        }
        let byte = buf[i];
        proof {
            assert(buf@.skip(i as int)[0] == byte);
            assert(mult <= 0x1000_0000) by {
                reveal_with_fuel(pow128, 5);
            }
        }
        if byte < 0x80 {
            proof {
                assert(result + mult * byte < mult * 128) by (nonlinear_arith)
                    requires
                        result < mult,
                        byte < 128,
                ;
            }
            let total = result + mult * (byte as u64);
            let low = (total % 0x1_0000_0000) as u32;
            proof {
                lemma_i32_of(low);
            }
            return Ok((low as i32, i + 1));
        }
        proof {
            lemma_leb_resume_step(buf@, 5, i as nat, result as nat, mult as nat);
            assert(result + mult * (byte - 128) < mult * 128) by (nonlinear_arith)
                requires
                    result < mult,
                    byte - 128 < 128,
                    byte >= 128,
            ;
        }
        result = result + mult * ((byte - 0x80) as u64);
        mult = mult * 128;
        i += 1;
    }
    proof {
        assert(leb_decode(buf@.skip(5), 0) == Err::<(nat, nat), VarIntError>(VarIntError::TooLong));
    }
    Err(VarIntError::TooLong)
}

/// Read a VarLong from the front of `buf`: the value (the low 64 bits of the
/// decoded groups, as a signed pattern) and the number of bytes read.
pub fn read_varlong(buf: &[u8]) -> (r: Result<(i64, usize), VarIntError>)
    ensures
        r == match leb_decode(buf@, 10) {
            Ok((v, n)) => Ok::<(i64, usize), VarIntError>(
                (i64_of_bits(v % 0x1_0000_0000_0000_0000) as i64, n as usize),
            ),
            Err(e) => Err(e),
        },
{
    let mut result: u128 = 0;
    let mut mult: u128 = 1;
    let mut i: usize = 0;
    proof {
        assert(buf@.skip(0) =~= buf@);
    }
    while i < 10
        invariant
            0 <= i <= 10,
            i <= buf@.len(),
            mult == pow128(i as nat),
            result < mult,
            leb_resume(buf@, 10, i as nat, result as nat, mult as nat),
        decreases 10 - i,
    {
        if i >= buf.len() {
            proof {
                assert(buf@.skip(i as int).len() == 0);
            }
            return Err(VarIntError::UnexpectedEof);
        }
        let byte = buf[i];
        proof {
            assert(buf@.skip(i as int)[0] == byte);
            assert(mult <= 0x8000_0000_0000_0000) by {
                reveal_with_fuel(pow128, 10);
            }
        }
        if byte < 0x80 {
            proof {
                assert(result + mult * byte < mult * 128) by (nonlinear_arith)
                    requires
                        result < mult,
                        byte < 128,
                ;
            }
            let total = result + mult * (byte as u128);
            let low = (total % 0x1_0000_0000_0000_0000) as u64;
            proof {
                lemma_i64_of(low);
            }
            return Ok((low as i64, i + 1));
        }
        proof {
            lemma_leb_resume_step(buf@, 10, i as nat, result as nat, mult as nat);
            assert(result + mult * (byte - 128) < mult * 128) by (nonlinear_arith)
                requires
                    result < mult,
                    byte - 128 < 128,
                    byte >= 128,
            ;
        }
        result = result + mult * ((byte - 0x80) as u128);
        mult = mult * 128;
        i += 1;
    }
    proof {
        assert(leb_decode(buf@.skip(10), 0) == Err::<(nat, nat), VarIntError>(VarIntError::TooLong));
    }
    Err(VarIntError::TooLong)
}


pub proof fn lemma_leb_decode_encode(v: nat, rest: Seq<u8>, max: nat)
    requires
        leb_bytes(v).len() <= max,
    ensures
        leb_decode(leb_bytes(v) + rest, max) == Ok::<(nat, nat), VarIntError>((v, leb_bytes(v).len())),
    decreases v,
{
    let buf = leb_bytes(v) + rest;
    if v < 128 {
        assert(buf[0] == v as u8);
    } else {
        let tail = leb_bytes(v / 128);
        lemma_leb_decode_encode(v / 128, rest, (max - 1) as nat);
        assert(buf[0] == (v % 128 + 128) as u8);
        assert(buf.drop_first() =~= tail + rest);
    }
}

proof fn lemma_leb_len(v: nat, k: nat)
    requires
        1 <= k,
        v < pow128(k),
    ensures
        leb_bytes(v).len() <= k,
    decreases v,
{
    if v >= 128 {
        if k == 1 {
            assert(pow128(1) == 128) by {
                reveal_with_fuel(pow128, 2);
            }
        } else {
            assert(v / 128 < pow128((k - 1) as nat));
            lemma_leb_len(v / 128, (k - 1) as nat);
        }
    }
}

/// A VarInt decodes back to the value it encodes, whatever follows it, and
/// takes at most 5 bytes.
pub proof fn lemma_varint_round_trip(value: i32, rest: Seq<u8>)
    ensures
        leb_bytes(u32_bits(value)).len() <= 5,
        leb_decode(leb_bytes(u32_bits(value)) + rest, 5) == Ok::<(nat, nat), VarIntError>(
            (u32_bits(value), leb_bytes(u32_bits(value)).len()),
        ),
        i32_of_bits(u32_bits(value) % 0x1_0000_0000) == value,
{
    assert(pow128(5) == 0x8_0000_0000) by {
        reveal_with_fuel(pow128, 6);
    }
    lemma_leb_len(u32_bits(value), 5);
    lemma_leb_decode_encode(u32_bits(value), rest, 5);
}

/// A VarLong decodes back to the value it encodes, whatever follows it, and
/// takes at most 10 bytes.
pub proof fn lemma_varlong_round_trip(value: i64, rest: Seq<u8>)
    ensures
        leb_bytes(u64_bits(value)).len() <= 10,
        leb_decode(leb_bytes(u64_bits(value)) + rest, 10) == Ok::<(nat, nat), VarIntError>(
            (u64_bits(value), leb_bytes(u64_bits(value)).len()),
        ),
        i64_of_bits(u64_bits(value) % 0x1_0000_0000_0000_0000) == value,
{
    assert(pow128(10) == 0x40_0000_0000_0000_0000) by {
        reveal_with_fuel(pow128, 11);
    }
    lemma_leb_len(u64_bits(value), 10);
    lemma_leb_decode_encode(u64_bits(value), rest, 10);
}


/// A decoded value takes at least one byte, at most `max`, and no more
/// than the buffer holds.
pub proof fn lemma_leb_decode_len(buf: Seq<u8>, max: nat)
    ensures
        leb_decode(buf, max) matches Ok((v, n)) ==> 1 <= n <= max && n <= buf.len(),
    decreases max,
{
    if max > 0 && buf.len() > 0 && buf[0] >= 128 {
        lemma_leb_decode_len(buf.drop_first(), (max - 1) as nat);
    }
}

/// A decoding that runs out of groups has seen `max` bytes.
pub proof fn lemma_leb_decode_too_long(buf: Seq<u8>, max: nat)
    ensures
        leb_decode(buf, max) == Err::<(nat, nat), VarIntError>(VarIntError::TooLong) ==> max <= buf.len(),
    decreases max,
{
    if max > 0 && buf.len() > 0 && buf[0] >= 128 {
        lemma_leb_decode_too_long(buf.drop_first(), (max - 1) as nat);
    }
}


/// Decoding a strict prefix of an encoding runs out of bytes.
pub proof fn lemma_leb_prefix_eof(v: nat, j: int, max: nat)
    requires
        0 <= j < leb_bytes(v).len(),
        leb_bytes(v).len() <= max,
    ensures
        leb_decode(leb_bytes(v).take(j), max) == Err::<(nat, nat), VarIntError>(VarIntError::UnexpectedEof),
    decreases v,
{
    let b = leb_bytes(v).take(j);
    if j > 0 && v >= 128 {
        let tail = leb_bytes(v / 128);
        assert(b[0] == (v % 128 + 128) as u8);
        assert(b.drop_first() =~= tail.take(j - 1));
        lemma_leb_prefix_eof(v / 128, j - 1, (max - 1) as nat);
    }
}

} // verus!
