//! Minecraft protocol wire primitives (uncompressed framing): packets are
//! `VarInt length | VarInt id | data`. Building a packet body, reading fields
//! out of a payload, and the decisions of the frame reader (how many bytes to
//! ask for next, when a frame is complete or malformed, what a stalled or
//! closed stream means) live here; the byte transport stays with the caller.

use vstd::prelude::*;
use vstd::utf8::{encode_utf8, valid_utf8};
use vstd::string::StringSliceAdditionalSpecFns;
use crate::bytes::{be16_at, be64_at, push_u16_be, push_u32_be, push_u64_be, read_u16_be, read_u64_be, u16_be, u32_be, u64_be};
use crate::varint::{
    i32_of_bits, leb_bytes, leb_decode, lemma_leb_decode_encode, lemma_leb_prefix_eof,
    lemma_varint_round_trip, read_varint, u32_bits, write_varint, VarIntError,
};

verus! {

/// What went wrong reading a packet.
#[derive(Debug, Clone, Copy, PartialEq, Eq, Structural)]
pub enum ProtoErrorKind {
    /// The bytes ended inside a field or frame.
    UnexpectedEof,
    /// The bytes do not form a valid field or frame.
    InvalidData,
    /// A frame stopped arriving before its deadline.
    TimedOut,
}

/// A protocol error: its kind and a short description.
#[derive(Debug, Clone, Copy, PartialEq, Eq)]
pub struct ProtoError {
    /// The kind of failure.
    pub kind: ProtoErrorKind,
    /// A short description.
    pub message: &'static str,
}

/// Upper bound on an inbound frame length: anything larger is malformed or
/// hostile, and is refused before any allocation.
pub const MAX_PACKET_LEN: usize = 2097152;

/// Builds a packet body (everything after the length prefix).
#[derive(Debug, Clone)]
pub struct PacketOut {
    buf: Vec<u8>,
}

impl PacketOut {
    /// The body bytes written so far.
    pub closed spec fn body_seq(&self) -> Seq<u8> {
        self.buf@
    }

    /// Start a packet with the given id.
    pub fn new(id: i32) -> (p: Self)
        ensures
            p.body_seq() == leb_bytes(u32_bits(id)),
    {
        let mut p = PacketOut { buf: Vec::new() };
        p.var_int(id);
        proof {
            assert(p.buf@ =~= Seq::<u8>::empty() + leb_bytes(u32_bits(id)));
        }
        p
    }

    /// Append a VarInt.
    pub fn var_int(&mut self, value: i32) -> (r: &mut Self)
        ensures
            r.body_seq() == old(self).body_seq() + leb_bytes(u32_bits(value)),
            *final(self) == *final(r),
    {
        write_var_int(&mut self.buf, value);
        self
    }

    /// Append a length-prefixed UTF-8 string (the prefix is the byte length,
    /// as an `i32` VarInt).
    pub fn string(&mut self, s: &str) -> (r: &mut Self)
        ensures
            r.body_seq() == old(self).body_seq() + leb_bytes(u32_bits(s.spec_bytes().len() as i32))
                + s.spec_bytes(),
            *final(self) == *final(r),
    {
        write_var_int(&mut self.buf, s.len() as i32);
        let bytes = s.as_bytes();
        let ghost before = self.buf@;
        let mut i: usize = 0;
        while i < bytes.len()
            invariant
                0 <= i <= bytes@.len(),
                self.buf@ == before + bytes@.take(i as int),
            decreases bytes@.len() - i,
        {
            self.buf.push(bytes[i]);
            i += 1;
            proof {
                assert(self.buf@ =~= before + bytes@.take(i as int));
            }
        }
        proof {
            assert(bytes@.take(bytes@.len() as int) =~= bytes@);
        }
        self
    }

    /// Append a single byte.
    pub fn u8(&mut self, v: u8) -> (r: &mut Self)
        ensures
            r.body_seq() == old(self).body_seq().push(v),
            *final(self) == *final(r),
    {
        self.buf.push(v);
        self
    }

    /// Append a bool (0/1).
    pub fn bool(&mut self, v: bool) -> (r: &mut Self)
        ensures
            r.body_seq() == old(self).body_seq().push(if v { 1u8 } else { 0u8 }),
            *final(self) == *final(r),
    {
        self.buf.push(if v { 1 } else { 0 });
        self
    }

    /// Append a big-endian `u16`.
    pub fn u16(&mut self, v: u16) -> (r: &mut Self)
        ensures
            r.body_seq() == old(self).body_seq() + u16_be(v),
            *final(self) == *final(r),
    {
        push_u16_be(&mut self.buf, v);
        self
    }

    /// Append a big-endian `i32`.
    pub fn i32(&mut self, v: i32) -> (r: &mut Self)
        ensures
            r.body_seq() == old(self).body_seq() + u32_be(v as u32),
            *final(self) == *final(r),
    {
        push_u32_be(&mut self.buf, v as u32);
        self
    }

    /// Append a big-endian `i64`.
    pub fn i64(&mut self, v: i64) -> (r: &mut Self)
        ensures
            r.body_seq() == old(self).body_seq() + u64_be(v as u64),
            *final(self) == *final(r),
    {
        push_u64_be(&mut self.buf, v as u64);
        self
    }

    /// Append raw bytes.
    pub fn bytes(&mut self, b: &[u8]) -> (r: &mut Self)
        ensures
            r.body_seq() == old(self).body_seq() + b@,
            *final(self) == *final(r),
    {
        let ghost before = self.buf@;
        let mut i: usize = 0;
        while i < b.len()
            invariant
                0 <= i <= b@.len(),
                self.buf@ == before + b@.take(i as int),
            decreases b@.len() - i,
        {
            self.buf.push(b[i]);
            i += 1;
            proof {
                assert(self.buf@ =~= before + b@.take(i as int));
            }
        }
        proof {
            assert(b@.take(b@.len() as int) =~= b@);
        }
        self
    }

    /// The body built so far.
    pub fn body(&self) -> (r: &[u8])
        ensures
            r@ == self.body_seq(),
    {
        self.buf.as_slice()
    }

    /// The framed packet (length prefix and body), ready to write out.
    pub fn frame(&self) -> (r: Vec<u8>)
        ensures
            r@ == leb_bytes(u32_bits(self.body_seq().len() as i32)) + self.body_seq(),
    {
        let mut frame: Vec<u8> = Vec::new();
        write_var_int(&mut frame, self.buf.len() as i32);
        let ghost before = frame@;
        let mut i: usize = 0;
        while i < self.buf.len()
            invariant
                0 <= i <= self.buf@.len(),
                frame@ == before + self.buf@.take(i as int),
            decreases self.buf@.len() - i,
        {
            frame.push(self.buf[i]);
            i += 1;
            proof {
                assert(frame@ =~= before + self.buf@.take(i as int));
            }
        }
        proof {
            assert(self.buf@.take(self.buf@.len() as int) =~= self.buf@);
            assert(before =~= Seq::<u8>::empty() + leb_bytes(u32_bits(self.buf@.len() as i32)));
        }
        frame
    }
}

impl Default for PacketOut {
    fn default() -> (r: Self)
        ensures
            r.body_seq() == Seq::<u8>::empty(),
    {
        PacketOut { buf: Vec::new() }
    }
}

/// Encode a VarInt into `out`.
pub fn write_var_int(out: &mut Vec<u8>, value: i32)
    ensures
        final(out)@ == old(out)@ + leb_bytes(u32_bits(value)),
{
    write_varint(value, out);
}


#[verifier::external_type_specification]
#[verifier::external_body]
pub struct ExUtf8Error(core::str::Utf8Error);

/// `std::str::from_utf8` succeeds exactly on valid UTF-8, and the string it
/// returns has exactly the given bytes.
pub assume_specification[ core::str::from_utf8 ](v: &[u8]) -> (r: Result<&str, core::str::Utf8Error>)
    ensures
        r is Ok <==> valid_utf8(v@),
        r matches Ok(s) ==> s.spec_bytes() == v@,
;

/// The error a truncated field reports.
pub open spec fn eof_error(message: &'static str) -> ProtoError {
    ProtoError { kind: ProtoErrorKind::UnexpectedEof, message }
}

/// The error a malformed field reports.
pub open spec fn invalid_error(message: &'static str) -> ProtoError {
    ProtoError { kind: ProtoErrorKind::InvalidData, message }
}

/// What reading a VarInt field at `pos` of `buf` gives: the value and the
/// position after it, or the error and the position the reader is left at.
pub open spec fn var_int_field(buf: Seq<u8>, pos: int) -> (Result<i32, ProtoError>, int) {
    match leb_decode(buf.skip(pos), 5) {
        Ok((v, n)) => (Ok(i32_of_bits(v % 0x1_0000_0000) as i32), pos + n),
        Err(VarIntError::UnexpectedEof) => (Err(eof_error("varint eof")), buf.len() as int),
        Err(VarIntError::TooLong) => (Err(invalid_error("varint too long")), pos + 5),
    }
}

/// Reads packet fields from an in-memory payload.
pub struct PacketIn<'a> {
    buf: &'a [u8],
    pos: usize,
}

impl<'a> PacketIn<'a> {
    /// The cursor never passes the end of the payload.
    #[verifier::type_invariant]
    spec fn in_range(&self) -> bool {
        self.pos <= self.buf@.len()
    }

    /// The payload.
    pub closed spec fn payload(&self) -> Seq<u8> {
        self.buf@
    }

    /// The read position.
    pub closed spec fn cursor(&self) -> int {
        self.pos as int
    }

    /// Wrap a payload slice.
    pub fn new(buf: &'a [u8]) -> (r: Self)
        ensures
            r.payload() == buf@,
            r.cursor() == 0,
    {
        Self { buf, pos: 0 }
    }

    /// The read position.
    pub fn position(&self) -> (r: usize)
        ensures
            r == self.cursor(),
            r <= self.payload().len(),
    {
        proof {
            use_type_invariant(self);
        }
        self.pos
    }

    /// Read a VarInt.
    pub fn var_int(&mut self) -> (r: Result<i32, ProtoError>)
        ensures
            final(self).payload() == old(self).payload(),
            r == var_int_field(old(self).payload(), old(self).cursor()).0,
            final(self).cursor() == var_int_field(old(self).payload(), old(self).cursor()).1,
    {
        proof {
            use_type_invariant(&*self);
        }
        let rest = &self.buf[self.pos..self.buf.len()];
        proof {
            assert(rest@ =~= self.buf@.skip(self.pos as int));
        }
        match read_varint(rest) {
            Ok((v, n)) => {
                proof {
                    crate::varint::lemma_leb_decode_len(rest@, 5);
                }
                self.pos = self.pos + n;
                Ok(v)
            },
            Err(VarIntError::UnexpectedEof) => {
                self.pos = self.buf.len();
                Err(ProtoError { kind: ProtoErrorKind::UnexpectedEof, message: "varint eof" })
            },
            Err(VarIntError::TooLong) => {
                proof {
                    crate::varint::lemma_leb_decode_too_long(rest@, 5);
                }
                self.pos = self.pos + 5;
                Err(ProtoError { kind: ProtoErrorKind::InvalidData, message: "varint too long" })
            },
        }
    }

    /// Read a length-prefixed UTF-8 string.
    pub fn string(&mut self) -> (r: Result<String, ProtoError>)
        ensures
            final(self).payload() == old(self).payload(),
            ({
                let (len, p1) = var_int_field(old(self).payload(), old(self).cursor());
                match len {
                    Err(e) => r == Err::<String, ProtoError>(e) && final(self).cursor() == p1,
                    Ok(l) => {
                        let end = p1 + (l as usize) as int;
                        if end > old(self).payload().len() {
                            r == Err::<String, ProtoError>(eof_error("string eof")) && final(self).cursor() == p1
                        } else if !valid_utf8(old(self).payload().subrange(p1, end)) {
                            r == Err::<String, ProtoError>(invalid_error("bad utf8")) && final(self).cursor() == p1
                        } else {
                            r matches Ok(s) && encode_utf8(s@) == old(self).payload().subrange(p1, end)
                                && final(self).cursor() == end
                        }
                    },
                }
            }),
    {
        let len = match self.var_int() {
            Ok(l) => l as usize,
            Err(e) => {
                return Err(e);
            },
        };
        proof {
            use_type_invariant(&*self);
        }
        let end = match self.pos.checked_add(len) {
            Some(e) => e,
            None => {
                proof {
                    assert(self.buf@.len() == self.buf.len());
                }
                return Err(ProtoError { kind: ProtoErrorKind::UnexpectedEof, message: "string eof" });
            },
        };
        if end > self.buf.len() {
            return Err(ProtoError { kind: ProtoErrorKind::UnexpectedEof, message: "string eof" });
        }
        let slice = &self.buf[self.pos..end];
        match core::str::from_utf8(slice) {
            Ok(s) => {
                let owned = s.to_owned();
                proof {
                    assert(owned@ == s@);
                }
                self.pos = end;
                Ok(owned)
            },
            Err(_) => Err(ProtoError { kind: ProtoErrorKind::InvalidData, message: "bad utf8" }),
        }
    }

    /// Read a big-endian `u16`.
    pub fn u16(&mut self) -> (r: Result<u16, ProtoError>)
        ensures
            final(self).payload() == old(self).payload(),
            old(self).cursor() + 2 <= old(self).payload().len() ==> r == Ok::<u16, ProtoError>(
                be16_at(old(self).payload(), old(self).cursor()),
            ) && final(self).cursor() == old(self).cursor() + 2,
            old(self).cursor() + 2 > old(self).payload().len() ==> r == Err::<u16, ProtoError>(
                eof_error("u16 eof"),
            ) && final(self).cursor() == old(self).cursor(),
    {
        proof {
            use_type_invariant(&*self);
        }
        if self.buf.len() - self.pos < 2 {
            return Err(ProtoError { kind: ProtoErrorKind::UnexpectedEof, message: "u16 eof" });
        }
        let v = read_u16_be(self.buf, self.pos);
        self.pos = self.pos + 2;
        Ok(v)
    }

    /// Read a big-endian `i64`.
    pub fn i64(&mut self) -> (r: Result<i64, ProtoError>)
        ensures
            final(self).payload() == old(self).payload(),
            old(self).cursor() + 8 <= old(self).payload().len() ==> r == Ok::<i64, ProtoError>(
                be64_at(old(self).payload(), old(self).cursor()) as i64,
            ) && final(self).cursor() == old(self).cursor() + 8,
            old(self).cursor() + 8 > old(self).payload().len() ==> r == Err::<i64, ProtoError>(
                eof_error("i64 eof"),
            ) && final(self).cursor() == old(self).cursor(),
    {
        proof {
            use_type_invariant(&*self);
        }
        if self.buf.len() - self.pos < 8 {
            return Err(ProtoError { kind: ProtoErrorKind::UnexpectedEof, message: "i64 eof" });
        }
        let v = read_u64_be(self.buf, self.pos);
        self.pos = self.pos + 8;
        Ok(v as i64)
    }

    /// The bytes from the read position to the end of the payload.
    pub fn rest(&self) -> (r: &'a [u8])
        ensures
            r@ == self.payload().skip(self.cursor()),
    {
        proof {
            use_type_invariant(self);
        }
        let r = &self.buf[self.pos..self.buf.len()];
        proof {
            assert(r@ =~= self.buf@.skip(self.pos as int));
        }
        r
    }
}

/// A decoded packet: its id and payload (id VarInt already stripped).
#[derive(Debug)]
pub struct RawPacket {
    /// Packet id.
    pub id: i32,
    /// Payload after the id.
    pub data: Vec<u8>,
}

/// What a complete frame body holds: its id and the data after it, or the
/// error reading the id gives.
pub open spec fn frame_body(body: Seq<u8>) -> Result<(i32, Seq<u8>), ProtoError> {
    match var_int_field(body, 0).0 {
        Ok(id) => Ok((id, body.skip(var_int_field(body, 0).1))),
        Err(e) => Err(e),
    }
}

/// Split a complete frame body into its id and data.
pub fn parse_frame(body: &[u8]) -> (r: Result<RawPacket, ProtoError>)
    ensures
        match frame_body(body@) {
            Ok((id, data)) => r matches Ok(p) && p.id == id && p.data@ == data,
            Err(e) => r == Err::<RawPacket, ProtoError>(e),
        },
{
    let mut pin = PacketIn::new(body);
    let id = match pin.var_int() {
        Ok(id) => id,
        Err(e) => {
            return Err(e);
        },
    };
    let rest = pin.rest();
    let mut data: Vec<u8> = Vec::new();
    let mut i: usize = 0;
    while i < rest.len()
        invariant
            0 <= i <= rest@.len(),
            data@ == rest@.take(i as int),
        decreases rest@.len() - i,
    {
        data.push(rest[i]);
        i += 1;
        proof {
            assert(data@ =~= rest@.take(i as int));
        }
    }
    proof {
        assert(rest@.take(rest@.len() as int) =~= rest@);
        assert(body@.skip(0) =~= body@);
    }
    Ok(RawPacket { id, data })
}


/// The frame reader's verdict on the first bytes `s` of a stream: `None`
/// while more bytes are needed, else the packet the frame holds or why it is
/// refused. The length prefix is a VarInt of at most 5 bytes; a negative
/// length, or one over [`MAX_PACKET_LEN`], is refused before the body.
pub open spec fn frame_verdict(s: Seq<u8>) -> Option<Result<(i32, Seq<u8>), ProtoError>> {
    match leb_decode(s, 5) {
        Err(VarIntError::UnexpectedEof) => None,
        Err(VarIntError::TooLong) => Some(Err(invalid_error("varint too long"))),
        Ok((v, k)) => {
            let len = i32_of_bits(v % 0x1_0000_0000);
            if len < 0 {
                Some(Err(invalid_error("neg len")))
            } else if len > MAX_PACKET_LEN {
                Some(Err(invalid_error("packet too large")))
            } else if s.len() < k + len {
                None
            } else {
                Some(frame_body(s.subrange(k as int, k + len)))
            }
        },
    }
}

/// How many more bytes the reader asks for before it can decide: one at a
/// time through the length prefix, then the rest of the body at once.
pub open spec fn frame_wants(s: Seq<u8>) -> int {
    match leb_decode(s, 5) {
        Ok((v, k)) => k + i32_of_bits(v % 0x1_0000_0000) - s.len(),
        Err(_) => 1,
    }
}

/// What feeding bytes to the frame reader led to.
#[derive(Debug)]
pub enum FrameStep {
    /// The frame is not complete yet.
    More,
    /// A complete packet.
    Packet(RawPacket),
    /// The frame is malformed.
    Failed(ProtoError),
}

/// What to do when a read reports no data (would block, timed out or was
/// interrupted).
#[derive(Debug, Clone, Copy, PartialEq, Eq)]
pub enum StallAction {
    /// No frame has started: report the stream idle.
    ReportIdle,
    /// Read again.
    Retry,
    /// Give up on the frame.
    Fail(ProtoError),
}

/// Decides, byte by byte, how an incoming frame is read: once its first
/// byte is in, the reader is committed to the frame.
#[derive(Debug)]
pub struct FrameReader {
    seen: Vec<u8>,
}

impl FrameReader {
    /// The bytes of the frame taken in so far.
    pub closed spec fn seen_seq(&self) -> Seq<u8> {
        self.seen@
    }

    /// A reader waiting for the first byte of a frame.
    pub fn new() -> (r: Self)
        ensures
            r.seen_seq() == Seq::<u8>::empty(),
    {
        FrameReader { seen: Vec::new() }
    }

    /// Whether no byte of the frame has arrived yet.
    pub fn is_idle(&self) -> (r: bool)
        ensures
            r == (self.seen_seq().len() == 0),
    {
        self.seen.len() == 0
    }

    /// How many bytes to read next (at least one).
    pub fn want(&self) -> (r: usize)
        requires
            frame_verdict(self.seen_seq()) is None,
        ensures
            r == frame_wants(self.seen_seq()),
            r >= 1,
    {
        match read_varint(self.seen.as_slice()) {
            Ok((len, k)) => {
                proof {
                    crate::varint::lemma_leb_decode_len(self.seen@, 5);
                }
                k + (len as usize) - self.seen.len()
            },
            Err(_) => 1,
        }
    }

    /// Take in the next bytes of the frame (no more than [`FrameReader::want`]
    /// asked for) and say whether the frame is done.
    pub fn on_bytes(&mut self, bytes: &[u8]) -> (r: FrameStep)
        requires
            frame_verdict(old(self).seen_seq()) is None,
            1 <= bytes@.len() <= frame_wants(old(self).seen_seq()),
        ensures
            final(self).seen_seq() == old(self).seen_seq() + bytes@,
            match frame_verdict(final(self).seen_seq()) {
                None => r is More,
                Some(Ok((id, data))) => r matches FrameStep::Packet(p) && p.id == id && p.data@ == data,
                Some(Err(e)) => r == FrameStep::Failed(e),
            },
    {
        let ghost before = self.seen@;
        let mut i: usize = 0;
        while i < bytes.len()
            invariant
                0 <= i <= bytes@.len(),
                self.seen@ == before + bytes@.take(i as int),
            decreases bytes@.len() - i,
        {
            self.seen.push(bytes[i]);
            i += 1;
            proof {
                assert(self.seen@ =~= before + bytes@.take(i as int));
            }
        }
        proof {
            assert(bytes@.take(bytes@.len() as int) =~= bytes@);
            assert(self.seen@.len() == self.seen.len());
        }
        match read_varint(self.seen.as_slice()) {
            Err(VarIntError::UnexpectedEof) => FrameStep::More,
            Err(VarIntError::TooLong) => FrameStep::Failed(
                ProtoError { kind: ProtoErrorKind::InvalidData, message: "varint too long" },
            ),
            Ok((len, k)) => {
                proof {
                    crate::varint::lemma_leb_decode_len(self.seen@, 5);
                }
                if len < 0 {
                    FrameStep::Failed(ProtoError { kind: ProtoErrorKind::InvalidData, message: "neg len" })
                } else if (len as usize) > MAX_PACKET_LEN {
                    FrameStep::Failed(
                        ProtoError { kind: ProtoErrorKind::InvalidData, message: "packet too large" },
                    )
                } else if self.seen.len() < k + (len as usize) {
                    FrameStep::More
                } else {
                    let end = k + (len as usize);
                    match parse_frame(&self.seen.as_slice()[k..end]) {
                        Ok(p) => FrameStep::Packet(p),
                        Err(e) => FrameStep::Failed(e),
                    }
                }
            },
        }
    }

    /// The error a closed stream means here.
    pub fn on_eof(&self) -> (r: ProtoError)
        ensures
            r == (if self.seen_seq().len() == 0 {
                eof_error("eof")
            } else {
                eof_error("eof mid-packet")
            }),
    {
        if self.seen.len() == 0 {
            ProtoError { kind: ProtoErrorKind::UnexpectedEof, message: "eof" }
        } else {
            ProtoError { kind: ProtoErrorKind::UnexpectedEof, message: "eof mid-packet" }
        }
    }

    /// What a read that brought no data means here: before a frame starts, a
    /// timeout reports the stream idle and an interruption is retried; once
    /// committed, the reader waits until its deadline has passed.
    pub fn on_stall(&self, interrupted: bool, deadline_passed: bool) -> (r: StallAction)
        ensures
            r == (if self.seen_seq().len() == 0 {
                if interrupted {
                    StallAction::Retry
                } else {
                    StallAction::ReportIdle
                }
            } else if deadline_passed {
                StallAction::Fail(ProtoError { kind: ProtoErrorKind::TimedOut, message: "frame stalled" })
            } else {
                StallAction::Retry
            }),
    {
        if self.seen.len() == 0 {
            if interrupted {
                StallAction::Retry
            } else {
                StallAction::ReportIdle
            }
        } else if deadline_passed {
            StallAction::Fail(ProtoError { kind: ProtoErrorKind::TimedOut, message: "frame stalled" })
        } else {
            StallAction::Retry
        }
    }
}


/// The frame a packet with id `id` and data `data` is sent as.
pub open spec fn framed(id: i32, data: Seq<u8>) -> Seq<u8> {
    let body = leb_bytes(u32_bits(id)) + data;
    leb_bytes(u32_bits(body.len() as i32)) + body
}

/// A frame read back gives the packet that was framed, and the reader
/// decides nothing before the frame's last byte: however the stream is cut
/// into reads, the packet comes out whole at the end.
pub proof fn lemma_frame_round_trip(id: i32, data: Seq<u8>)
    requires
        leb_bytes(u32_bits(id)).len() + data.len() <= MAX_PACKET_LEN,
    ensures
        frame_verdict(framed(id, data)) == Some(Ok::<(i32, Seq<u8>), ProtoError>((id, data))),
        forall|j: int| 0 <= j < framed(id, data).len() ==> #[trigger] frame_verdict(framed(id, data).take(j)) is None,
{
    let body = leb_bytes(u32_bits(id)) + data;
    let n = body.len();
    let len_bits = u32_bits(n as i32);
    assert(len_bits == n);
    let f = framed(id, data);
    let k = leb_bytes(len_bits).len();
    lemma_varint_round_trip(n as i32, body);
    lemma_varint_round_trip(id, data);
    assert(n % 0x1_0000_0000 == n);
    assert(i32_of_bits(n % 0x1_0000_0000) == n);
    assert(f.subrange(k as int, (k + n) as int) =~= body);
    assert(body.skip(0) =~= body);
    assert(body.skip(leb_bytes(u32_bits(id)).len() as int) =~= data);
    assert forall|j: int| 0 <= j < f.len() implies #[trigger] frame_verdict(f.take(j)) is None by {
        if j < k {
            assert(f.take(j) =~= leb_bytes(len_bits).take(j));
            lemma_leb_prefix_eof(len_bits, j, 5);
        } else {
            assert(f.take(j) =~= leb_bytes(len_bits) + body.take(j - k));
            lemma_leb_decode_encode(len_bits, body.take(j - k), 5);
        }
    }
}

} // verus!
