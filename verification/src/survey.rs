//! Touring a world: the order in which chunk columns are streamed outward
//! from a centre, and the glyphs a cross-section of blocks is drawn with.

use vstd::prelude::*;
use crate::block::BlockStateId;
use crate::ids;

verus! {

/// Chebyshev distance between two chunk columns.
pub open spec fn chebyshev(a: (int, int), b: (int, int)) -> int {
    let dx = if a.0 >= b.0 { a.0 - b.0 } else { b.0 - a.0 };
    let dz = if a.1 >= b.1 { a.1 - b.1 } else { b.1 - a.1 };
    if dx >= dz { dx } else { dz }
}

/// The ring at distance `r` around `(cx, cz)`, in streaming order: the top
/// and bottom rows pairwise from west to east, then the west and east
/// columns pairwise from north to south (corners excluded).
pub open spec fn ring_spec(cx: int, cz: int, r: int) -> Seq<(int, int)> {
    if r == 0 {
        seq![(cx, cz)]
    } else {
        Seq::new(
            (2 * (2 * r + 1)) as nat,
            |i: int| (cx - r + i / 2, if i % 2 == 0 { cz - r } else { cz + r }),
        ) + Seq::new(
            (2 * (2 * r - 1)) as nat,
            |j: int| (if j % 2 == 0 { cx - r } else { cx + r }, cz - r + 1 + j / 2),
        )
    }
}

/// Chunk coordinates on the square ring at Chebyshev distance `r` from
/// `centre`.
pub fn ring(centre: (i32, i32), r: i32) -> (out: Vec<(i32, i32)>)
    requires
        0 <= r <= 0x3fff_ffff,
        i32::MIN <= centre.0 - r,
        centre.0 + r <= i32::MAX,
        i32::MIN <= centre.1 - r,
        centre.1 + r <= i32::MAX,
    ensures
        out@.len() == ring_spec(centre.0 as int, centre.1 as int, r as int).len(),
        forall|k: int|
            0 <= k < out@.len() ==> ((#[trigger] out@[k]).0 as int, out@[k].1 as int) == ring_spec(
                centre.0 as int,
                centre.1 as int,
                r as int,
            )[k],
{
    let (cx, cz) = centre;
    let mut out: Vec<(i32, i32)> = Vec::new();
    if r == 0 {
        out.push((cx, cz));
        return out;
    }
    let ghost rows = Seq::new(
        (2 * (2 * r + 1)) as nat,
        |i: int| (cx - r + i / 2, if i % 2 == 0 { cz - r } else { cz + r }),
    );
    let ghost cols = Seq::new(
        (2 * (2 * r - 1)) as nat,
        |j: int| (if j % 2 == 0 { cx - r } else { cx + r }, cz - r + 1 + j / 2),
    );
    let mut x: i64 = cx as i64 - r as i64;
    while x <= cx as i64 + r as i64
        invariant
            1 <= r <= 0x3fff_ffff,
            i32::MIN <= cx - r,
            cx + r <= i32::MAX,
            i32::MIN <= cz - r,
            cz + r <= i32::MAX,
            cx - r <= x <= cx + r + 1,
            rows == Seq::new((2 * (2 * r + 1)) as nat, |i: int| (cx - r + i / 2, if i % 2 == 0 { cz - r } else { cz + r })),
            out@.len() == 2 * (x - (cx - r)),
            forall|k: int| 0 <= k < out@.len() ==> ((#[trigger] out@[k]).0 as int, out@[k].1 as int) == rows[k],
        decreases cx + r + 1 - x,
    {
        let ghost k0 = out@.len() as int;
        out.push((x as i32, cz - r));
        out.push((x as i32, cz + r));
        proof {
            assert(k0 / 2 == x - (cx - r) && k0 % 2 == 0);
            assert((k0 + 1) / 2 == x - (cx - r) && (k0 + 1) % 2 == 1);
        }
        x += 1;
    }
    let mut z: i64 = cz as i64 - r as i64 + 1;
    while z <= cz as i64 + r as i64 - 1
        invariant
            1 <= r <= 0x3fff_ffff,
            i32::MIN <= cx - r,
            cx + r <= i32::MAX,
            i32::MIN <= cz - r,
            cz + r <= i32::MAX,
            cz - r + 1 <= z <= cz + r,
            rows == Seq::new((2 * (2 * r + 1)) as nat, |i: int| (cx - r + i / 2, if i % 2 == 0 { cz - r } else { cz + r })),
            cols == Seq::new((2 * (2 * r - 1)) as nat, |j: int| (if j % 2 == 0 { cx - r } else { cx + r }, cz - r + 1 + j / 2)),
            out@.len() == rows.len() + 2 * (z - (cz - r + 1)),
            forall|k: int| 0 <= k < rows.len() ==> ((#[trigger] out@[k]).0 as int, out@[k].1 as int) == rows[k],
            forall|k: int|
                rows.len() <= k < out@.len() ==> ((#[trigger] out@[k]).0 as int, out@[k].1 as int) == cols[k
                    - rows.len()],
        decreases cz + r - z,
    {
        let ghost j0 = out@.len() - rows.len();
        out.push((cx - r, z as i32));
        out.push((cx + r, z as i32));
        proof {
            assert(j0 / 2 == z - (cz - r + 1) && j0 % 2 == 0);
            assert((j0 + 1) / 2 == z - (cz - r + 1) && (j0 + 1) % 2 == 1);
        }
        z += 1;
    }
    proof {
        assert(ring_spec(cx as int, cz as int, r as int) == rows + cols);
        assert forall|k: int| 0 <= k < out@.len() implies ((#[trigger] out@[k]).0 as int, out@[k].1 as int) == (rows
            + cols)[k] by {
            if k >= rows.len() {
                assert((rows + cols)[k] == cols[k - rows.len()]);
            }
        }
    }
    out
}

/// Every column of a ring is at exactly that distance from the centre, and
/// every column at that distance is on the ring.
pub proof fn lemma_ring_is_the_ring(cx: int, cz: int, r: int)
    requires
        r >= 0,
    ensures
        forall|k: int|
            0 <= k < ring_spec(cx, cz, r).len() ==> chebyshev(#[trigger] ring_spec(cx, cz, r)[k], (cx, cz)) == r,
        forall|p: (int, int)| chebyshev(p, (cx, cz)) == r ==> #[trigger] ring_spec(cx, cz, r).contains(p),
{
    let s = ring_spec(cx, cz, r);
    if r > 0 {
        let nrows = 2 * (2 * r + 1);
        assert forall|k: int| 0 <= k < s.len() implies chebyshev(#[trigger] s[k], (cx, cz)) == r by {
            if k < nrows {
                assert(0 <= k / 2 <= 2 * r);
            } else {
                let j = k - nrows;
                assert(0 <= j / 2 <= 2 * r - 2);
            }
        }
        assert forall|p: (int, int)| chebyshev(p, (cx, cz)) == r implies #[trigger] s.contains(p) by {
            let (px, pz) = p;
            if pz == cz - r || pz == cz + r {
                let i = 2 * (px - (cx - r)) + if pz == cz - r { 0int } else { 1int };
                assert(i / 2 == px - (cx - r) && i % 2 == if pz == cz - r { 0int } else { 1int });
                assert(s[i] == p);
            } else {
                let j = 2 * (pz - (cz - r + 1)) + if px == cx - r { 0int } else { 1int };
                assert(j / 2 == pz - (cz - r + 1) && j % 2 == if px == cx - r { 0int } else { 1int });
                assert(s[nrows + j] == p);
            }
        }
    } else {
        assert forall|p: (int, int)| chebyshev(p, (cx, cz)) == r implies #[trigger] s.contains(p) by {
            assert(p == (cx, cz));
            assert(s[0] == p);
        }
    }
}

/// The glyph a block is drawn with in a cross-section.
pub open spec fn glyph_spec(id: BlockStateId) -> char {
    if id.0 == ids::AIR {
        ' '
    } else if id.0 == ids::GRASS_BLOCK {
        '#'
    } else if id.0 == ids::DIRT {
        '+'
    } else if id.0 == ids::STONE {
        '.'
    } else if id.0 == ids::SAND {
        ':'
    } else if id.0 == ids::GRAVEL {
        ';'
    } else if id.0 == ids::WATER {
        '~'
    } else if id.0 == ids::BEDROCK {
        '_'
    } else if id.0 == ids::OAK_LOG {
        '|'
    } else if id.0 == ids::OAK_LEAVES {
        '*'
    } else {
        'X'
    }
}

/// Map a block id to a single display glyph for a cross-section.
pub fn glyph(id: BlockStateId) -> (r: char)
    ensures
        r == glyph_spec(id),
{
    if id.0 == ids::AIR {
        ' '
    } else if id.0 == ids::GRASS_BLOCK {
        '#'
    } else if id.0 == ids::DIRT {
        '+'
    } else if id.0 == ids::STONE {
        '.'
    } else if id.0 == ids::SAND {
        ':'
    } else if id.0 == ids::GRAVEL {
        ';'
    } else if id.0 == ids::WATER {
        '~'
    } else if id.0 == ids::BEDROCK {
        '_'
    } else if id.0 == ids::OAK_LOG {
        '|'
    } else if id.0 == ids::OAK_LEAVES {
        '*'
    } else {
        'X'
    }
}

// ---------------------------------------------------------------------------
// Streaming generation
// ---------------------------------------------------------------------------

/// Where a streaming run stands: chunks are visited ring by ring outward
/// from `centre`, `slot` being the next cell of ring `ring`.
#[derive(Debug, Clone, Copy, PartialEq, Eq)]
pub struct StreamState {
    /// Centre chunk `(cx, cz)`.
    pub centre: (i32, i32),
    /// Last ring to visit; `0` or less streams until stopped.
    pub radius: i32,
    /// Flush storage after every `flush_every` chunks (at least 1).
    pub flush_every: u64,
    /// The ring being visited.
    pub ring: i32,
    /// The next cell of that ring, streaming order.
    pub slot: u64,
    /// Chunks visited so far.
    pub count: u64,
    /// Whether the run has ended.
    pub finished: bool,
    /// Whether it ended because it was stopped.
    pub interrupted: bool,
}

/// What happened since the last step.
#[derive(Debug, Clone, Copy, PartialEq, Eq, Structural)]
pub enum StreamEvent {
    /// Carry on.
    Continue,
    /// The user asked to stop (Ctrl+C).
    Interrupt,
}

/// What the caller does next.
#[derive(Debug, Clone, Copy, PartialEq, Eq, Structural)]
pub enum StreamAction {
    /// Load or generate chunk `(cx, cz)`, then flush storage if `flush`.
    Visit { cx: i32, cz: i32, flush: bool },
    /// Stop: flush storage and report.
    Finish { interrupted: bool },
}

/// Number of chunks on ring `r`.
pub open spec fn ring_len_spec(r: int) -> int {
    if r == 0 {
        1
    } else {
        8 * r
    }
}

/// Whether the chunks of ring `r` (and its margin) would leave the world's
/// block-coordinate range.
pub open spec fn ring_leaves_world(centre: (i32, i32), r: int) -> bool {
    let span = r + 1;
    ||| (centre.0 - span) * 16 < i32::MIN
    ||| (centre.0 + span) * 16 > i32::MAX
    ||| (centre.1 - span) * 16 < i32::MIN
    ||| (centre.1 + span) * 16 > i32::MAX
}

/// A streaming run that has not started.
pub open spec fn stream_start_spec(centre: (i32, i32), radius: i32, flush_every: u64) -> StreamState {
    StreamState { centre, radius, flush_every, ring: 0, slot: 0, count: 0, finished: false, interrupted: false }
}

/// One step of a streaming run: an ended run stays ended; a ring past the
/// radius, or leaving the world, ends it; a stop request ends it; otherwise
/// the next cell of the ring is visited, with a flush after every
/// `flush_every` chunks.
pub open spec fn stream_step_spec(s: StreamState, e: StreamEvent) -> (StreamState, StreamAction) {
    if s.finished {
        (s, StreamAction::Finish { interrupted: s.interrupted })
    } else if (s.radius > 0 && s.ring > s.radius) || ring_leaves_world(s.centre, s.ring as int) {
        (StreamState { finished: true, interrupted: false, ..s }, StreamAction::Finish { interrupted: false })
    } else if e == StreamEvent::Interrupt {
        (StreamState { finished: true, interrupted: true, ..s }, StreamAction::Finish { interrupted: true })
    } else {
        let cell = ring_spec(s.centre.0 as int, s.centre.1 as int, s.ring as int)[s.slot as int];
        let count = (s.count + 1) as u64;
        let last = s.slot + 1 == ring_len_spec(s.ring as int);
        (
            StreamState {
                ring: if last { (s.ring + 1) as i32 } else { s.ring },
                slot: if last { 0 } else { (s.slot + 1) as u64 },
                count,
                ..s
            },
            StreamAction::Visit { cx: cell.0 as i32, cz: cell.1 as i32, flush: count % s.flush_every == 0 },
        )
    }
}

impl StreamState {
    /// A state a run can be in: a flush interval, a ring not yet left and a
    /// count that can still grow.
    pub open spec fn wf(&self) -> bool {
        &&& self.flush_every >= 1
        &&& 0 <= self.ring
        &&& self.slot < ring_len_spec(self.ring as int)
        &&& self.count < u64::MAX
    }
}

/// Start a streaming run around `centre`.
pub fn stream_start(centre: (i32, i32), radius: i32, flush_every: u64) -> (s: StreamState)
    requires
        flush_every >= 1,
    ensures
        s == stream_start_spec(centre, radius, flush_every),
        s.wf(),
{
    StreamState { centre, radius, flush_every, ring: 0, slot: 0, count: 0, finished: false, interrupted: false }
}

/// Decide the next step of a streaming run.
pub fn stream_step(s: &StreamState, e: StreamEvent) -> (r: (StreamState, StreamAction))
    requires
        s.wf(),
        s.count < u64::MAX - 1,
    ensures
        r == stream_step_spec(*s, e),
        r.0.wf(),
{
    if s.finished {
        return (*s, StreamAction::Finish { interrupted: s.interrupted });
    }
    let (cx, cz) = s.centre;
    let span = s.ring as i64 + 1;
    let leaves = (cx as i64 - span) * 16 < i32::MIN as i64 || (cx as i64 + span) * 16 > i32::MAX as i64 || (
    cz as i64 - span) * 16 < i32::MIN as i64 || (cz as i64 + span) * 16 > i32::MAX as i64;
    if (s.radius > 0 && s.ring > s.radius) || leaves {
        return (StreamState { finished: true, interrupted: false, ..*s }, StreamAction::Finish { interrupted: false });
    }
    match e {
        StreamEvent::Interrupt => {
            return (StreamState { finished: true, interrupted: true, ..*s }, StreamAction::Finish { interrupted: true });
        },
        StreamEvent::Continue => {},
    }
    let r = s.ring as i64;
    let i = s.slot as i64;
    let (x, z): (i64, i64) = if r == 0 {
        (cx as i64, cz as i64)
    } else if i < 2 * (2 * r + 1) {
        (cx as i64 - r + i / 2, if i % 2 == 0 { cz as i64 - r } else { cz as i64 + r })
    } else {
        let j = i - 2 * (2 * r + 1);
        (if j % 2 == 0 { cx as i64 - r } else { cx as i64 + r }, cz as i64 - r + 1 + j / 2)
    };
    proof {
        let rs = ring_spec(cx as int, cz as int, r as int);
        if r != 0 {
            assert(rs[i as int] == (x as int, z as int));
        }
    }
    let count = s.count + 1;
    let len: u64 = if s.ring == 0 { 1 } else { 8 * (s.ring as u64) };
    let last = s.slot + 1 == len;
    let next = StreamState {
        ring: if last { s.ring + 1 } else { s.ring },
        slot: if last { 0 } else { s.slot + 1 },
        count,
        ..*s
    };
    (next, StreamAction::Visit { cx: x as i32, cz: z as i32, flush: count % s.flush_every == 0 })
}

} // verus!
