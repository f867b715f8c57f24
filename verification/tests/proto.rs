use aether::proto::{
    write_var_int, FrameReader, FrameStep, PacketIn, PacketOut, ProtoError, ProtoErrorKind, RawPacket, StallAction,
    MAX_PACKET_LEN,
};
use std::io::{self, Read};
use std::time::{Duration, Instant};

fn io_error(e: ProtoError) -> io::Error {
    let kind = match e.kind {
        ProtoErrorKind::UnexpectedEof => io::ErrorKind::UnexpectedEof,
        ProtoErrorKind::InvalidData => io::ErrorKind::InvalidData,
        ProtoErrorKind::TimedOut => io::ErrorKind::TimedOut,
    };
    io::Error::new(kind, e.message)
}

/// Drive a [`FrameReader`] over a byte stream: the transport loop the server
/// runs around the library's decisions.
fn read_packet<R: Read>(r: &mut R) -> io::Result<Option<RawPacket>> {
    let mut fr = FrameReader::new();
    let mut deadline = Instant::now() + Duration::from_secs(30);
    loop {
        let mut buf = vec![0u8; fr.want()];
        match r.read(&mut buf) {
            Ok(0) => return Err(io_error(fr.on_eof())),
            Ok(n) => {
                if fr.is_idle() {
                    deadline = Instant::now() + Duration::from_secs(30);
                }
                match fr.on_bytes(&buf[..n]) {
                    FrameStep::More => {}
                    FrameStep::Packet(p) => return Ok(Some(p)),
                    FrameStep::Failed(e) => return Err(io_error(e)),
                }
            }
            Err(e)
                if matches!(
                    e.kind(),
                    io::ErrorKind::WouldBlock | io::ErrorKind::TimedOut | io::ErrorKind::Interrupted
                ) =>
            {
                let interrupted = e.kind() == io::ErrorKind::Interrupted;
                match fr.on_stall(interrupted, Instant::now() >= deadline) {
                    StallAction::ReportIdle => return Ok(None),
                    StallAction::Retry => {}
                    StallAction::Fail(e) => return Err(io_error(e)),
                }
            }
            Err(e) => return Err(e),
        }
    }
}

#[test]
fn multibyte_length_prefixes_round_trip() {
    // Bodies whose length prefix spans one and two VarInt bytes.
    for body_len in [0usize, 1, 127, 128, 300, 16384] {
        let mut p = PacketOut::new(0x00);
        p.bytes(&vec![0xABu8; body_len]);
        let wire = p.frame();

        let mut cur = std::io::Cursor::new(wire);
        let pkt = read_packet(&mut cur).unwrap().unwrap();
        assert_eq!(pkt.id, 0x00);
        assert_eq!(pkt.data, vec![0xABu8; body_len]);
    }
}

#[test]
fn idle_first_byte_returns_none() {
    // A reader that reports WouldBlock with no data yields Ok(None).
    struct Idle;
    impl Read for Idle {
        fn read(&mut self, _buf: &mut [u8]) -> io::Result<usize> {
            Err(io::Error::new(io::ErrorKind::WouldBlock, "idle"))
        }
    }
    assert!(read_packet(&mut Idle).unwrap().is_none());
}

#[test]
fn packet_frames_round_trip() {
    let mut p = PacketOut::new(0x00);
    p.string("hello").u16(25565).var_int(2);
    let wire = p.frame();

    let mut cur = std::io::Cursor::new(wire);
    let pkt = read_packet(&mut cur).unwrap().unwrap();
    assert_eq!(pkt.id, 0x00);
    let mut pin = PacketIn::new(&pkt.data);
    assert_eq!(pin.string().unwrap(), "hello");
    assert_eq!(pin.u16().unwrap(), 25565);
    assert_eq!(pin.var_int().unwrap(), 2);
}

#[test]
fn oversized_length_is_rejected_without_allocating() {
    // A forged length prefix far beyond MAX_PACKET_LEN must error, not
    // try to allocate gigabytes.
    let mut wire = Vec::new();
    write_var_int(&mut wire, (MAX_PACKET_LEN + 1) as i32);
    let mut cur = std::io::Cursor::new(wire);
    let err = read_packet(&mut cur).unwrap_err();
    assert_eq!(err.kind(), io::ErrorKind::InvalidData);
}

/// A reader that hands out its bytes in fixed chunks, injecting a transient
/// `WouldBlock` between every chunk to mimic a slow / timing-out socket.
struct FlakyReader {
    data: Vec<u8>,
    pos: usize,
    chunk: usize,
    block_next: bool,
}

impl Read for FlakyReader {
    fn read(&mut self, buf: &mut [u8]) -> io::Result<usize> {
        if self.pos >= self.data.len() {
            return Ok(0);
        }
        if self.block_next {
            self.block_next = false;
            return Err(io::Error::new(io::ErrorKind::WouldBlock, "slow"));
        }
        self.block_next = true;
        let n = self.chunk.min(buf.len()).min(self.data.len() - self.pos);
        buf[..n].copy_from_slice(&self.data[self.pos..self.pos + n]);
        self.pos += n;
        Ok(n)
    }
}

#[test]
fn body_read_survives_midframe_timeouts() {
    // Once the length prefix is consumed, transient timeouts inside the body
    // must not desync the frame — the reader keeps waiting for the rest.
    let mut p = PacketOut::new(0x21);
    p.string("a fairly long payload that spans several reads").i64(1234567890);
    let wire = p.frame();

    let mut r = FlakyReader { data: wire, pos: 0, chunk: 3, block_next: false };
    let pkt = read_packet(&mut r).unwrap().unwrap();
    assert_eq!(pkt.id, 0x21);
    let mut pin = PacketIn::new(&pkt.data);
    assert_eq!(pin.string().unwrap(), "a fairly long payload that spans several reads");
    assert_eq!(pin.i64().unwrap(), 1234567890);
}

#[test]
fn eof_and_negative_lengths_are_reported() {
    let mut empty = std::io::Cursor::new(Vec::<u8>::new());
    assert_eq!(read_packet(&mut empty).unwrap_err().kind(), io::ErrorKind::UnexpectedEof);
    let mut cut = std::io::Cursor::new(vec![5u8, 0, 1]);
    assert_eq!(read_packet(&mut cut).unwrap_err().kind(), io::ErrorKind::UnexpectedEof);
    let mut wire = Vec::new();
    write_var_int(&mut wire, -1);
    let mut neg = std::io::Cursor::new(wire);
    assert_eq!(read_packet(&mut neg).unwrap_err().kind(), io::ErrorKind::InvalidData);
    let mut long = std::io::Cursor::new(vec![0x80u8, 0x80, 0x80, 0x80, 0x80, 0x01]);
    assert_eq!(read_packet(&mut long).unwrap_err().kind(), io::ErrorKind::InvalidData);
}
