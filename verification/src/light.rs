//! Lighting: the "always lit" [`FullBright`] fallback, and a flood-fill light
//! engine ([`compute_light`]) that computes block light (from emissive
//! blocks) and sky light (from the top down) over a finite box.
//!
//! * Block light radiates from emitters, losing one level per block and
//!   stopping at opaque blocks (their interior stays dark; neighbours are lit).
//! * Sky light falls straight down at [`MAX_LIGHT`] through transparent blocks
//!   and, once blocked, spreads sideways and downwards losing one level per
//!   block, so caves and overhangs fall into shadow.
//! * Light does not enter through the box faces: the volume is surrounded by
//!   darkness on the sides and bottom and open sky on top.
//!
//! The result is stated exactly: each light table is the least assignment of
//! levels that gives every cell at least its seed (its emission, or full sky
//! light under an open column) and every transparent cell at least one level
//! less than any lit neighbour.

use vstd::prelude::*;
use std::collections::VecDeque;
use crate::nav::{lemma_cell_in, lemma_cell_inj};
use crate::redstone::{headroom, lemma_headroom_nonneg, lemma_headroom_update};

verus! {

/// Maximum light level.
pub const MAX_LIGHT: u8 = 15;

/// Read-only access to per-block light levels (`0..=15`).
pub trait LightView {
    /// Emitted (block) light at `(x, y, z)`.
    fn block_light(&self, x: i32, y: i32, z: i32) -> u8;

    /// Sky light at `(x, y, z)`.
    fn sky_light(&self, x: i32, y: i32, z: i32) -> u8;
}

/// A lighting source that is always at [`MAX_LIGHT`]: the fallback used before
/// real lighting existed, still handy for previews.
#[derive(Debug, Clone, Copy, Default)]
pub struct FullBright;

impl LightView for FullBright {
    fn block_light(&self, _x: i32, _y: i32, _z: i32) -> (r: u8)
        ensures
            r == MAX_LIGHT,
    {
        MAX_LIGHT
    }

    fn sky_light(&self, _x: i32, _y: i32, _z: i32) -> (r: u8)
        ensures
            r == MAX_LIGHT,
    {
        MAX_LIGHT
    }
}

/// The medium light travels through: an opacity and emission oracle over a
/// finite box addressed in local coordinates (`0..w`, `0..h`, `0..d`); `y` is
/// vertical and sky light enters from `y = h - 1` downwards. Implement it to
/// light a sub-chunk column, a stress fixture or a synthetic scene.
pub trait LightMedium {
    /// The box extent `(w, h, d)`; an implementation states its own.
    closed spec fn spec_dims(&self) -> (usize, usize, usize) {
        arbitrary()
    }

    /// Whether the block at `(x, y, z)` is opaque; an implementation states
    /// its own.
    closed spec fn spec_opaque(&self, x: int, y: int, z: int) -> bool {
        arbitrary()
    }

    /// The block light `(x, y, z)` emits; an implementation states its own.
    closed spec fn spec_emission(&self, x: int, y: int, z: int) -> u8 {
        arbitrary()
    }

    /// Box extent as `(w, h, d)` — X, Y (vertical), Z.
    fn dims(&self) -> (r: (usize, usize, usize))
        ensures
            r == self.spec_dims(),
    ;

    /// Whether the block at `(x, y, z)` is opaque: it blocks direct sky
    /// light and stops block light.
    fn opaque(&self, x: usize, y: usize, z: usize) -> (r: bool)
        ensures
            r == self.spec_opaque(x as int, y as int, z as int),
    ;

    /// Self-emitted block light of `(x, y, z)` (`0..=15`). Emitters light their
    /// transparent neighbours even when the emitter block itself is opaque.
    fn emission(&self, x: usize, y: usize, z: usize) -> (r: u8)
        ensures
            r == self.spec_emission(x as int, y as int, z as int),
    ;
}

/// A snapshot of a medium: the opacity and emission of every cell of a box,
/// `x`-fastest, then `z`, then `y`.
pub struct LightVolume {
    w: usize,
    h: usize,
    d: usize,
    opaque: Vec<bool>,
    emission: Vec<u8>,
}

impl LightVolume {
    /// One flag and one level per cell.
    #[verifier::type_invariant]
    spec fn shaped(&self) -> bool {
        &&& self.w * self.h <= usize::MAX
        &&& self.opaque@.len() == volume((self.w, self.h, self.d))
        &&& self.emission@.len() == volume((self.w, self.h, self.d))
    }

    /// The box extent `(w, h, d)`.
    pub closed spec fn extent(&self) -> (usize, usize, usize) {
        (self.w, self.h, self.d)
    }

    /// Whether the block at `(x, y, z)` is opaque.
    pub closed spec fn opaque_at(&self, x: int, y: int, z: int) -> bool {
        self.opaque@[cell3(self.extent(), x, y, z)]
    }

    /// The block light `(x, y, z)` emits.
    pub closed spec fn emission_at(&self, x: int, y: int, z: int) -> u8 {
        self.emission@[cell3(self.extent(), x, y, z)]
    }

    /// An all-transparent, dark box of the given size.
    pub fn new(w: usize, h: usize, d: usize) -> (v: Self)
        requires
            w * h <= usize::MAX,
            w * h * d <= usize::MAX,
        ensures
            v.extent() == (w, h, d),
            forall|x: int, y: int, z: int|
                in_box(v.extent(), x, y, z) ==> !v.opaque_at(x, y, z) && v.emission_at(x, y, z) == 0,
    {
        let n = w * h * d;
        let mut opaque: Vec<bool> = Vec::new();
        let mut emission: Vec<u8> = Vec::new();
        let mut i: usize = 0;
        while i < n
            invariant
                0 <= i <= n,
                opaque@.len() == i,
                emission@.len() == i,
                forall|j: int| 0 <= j < i ==> !opaque@[j] && emission@[j] == 0,
            decreases n - i,
        {
            opaque.push(false);
            emission.push(0);
            i += 1;
        }
        let v = Self { w, h, d, opaque, emission };
        proof {
            assert forall|x: int, y: int, z: int| in_box(v.extent(), x, y, z) implies !v.opaque_at(x, y, z)
                && v.emission_at(x, y, z) == 0 by {
                lemma_cell3_in(v.extent(), x, y, z);
            }
        }
        v
    }

    fn idx(&self, x: usize, y: usize, z: usize) -> (r: usize)
        requires
            in_box(self.extent(), x as int, y as int, z as int),
        ensures
            r == cell3(self.extent(), x as int, y as int, z as int),
            r < volume(self.extent()),
            r < self.opaque@.len(),
            r < self.emission@.len(),
    {
        proof {
            use_type_invariant(self);
            assert(self.opaque@.len() == self.opaque.len());
            lemma_cell3_in(self.extent(), x as int, y as int, z as int);
        }
        (y * self.d + z) * self.w + x
    }

    /// Record the opacity and emission of `(x, y, z)`.
    pub fn set(&mut self, x: usize, y: usize, z: usize, opaque: bool, emission: u8)
        requires
            in_box(old(self).extent(), x as int, y as int, z as int),
        ensures
            final(self).extent() == old(self).extent(),
            forall|x2: int, y2: int, z2: int|
                in_box(old(self).extent(), x2, y2, z2) ==> final(self).opaque_at(x2, y2, z2) == (if x2 == x
                    && y2 == y && z2 == z {
                    opaque
                } else {
                    old(self).opaque_at(x2, y2, z2)
                }) && final(self).emission_at(x2, y2, z2) == (if x2 == x && y2 == y && z2 == z {
                    emission
                } else {
                    old(self).emission_at(x2, y2, z2)
                }),
    {
        let i = self.idx(x, y, z);
        let ghost before = *self;
        let mut taken = LightVolume::new(0, 0, 0);
        std::mem::swap(&mut taken, self);
        proof {
            use_type_invariant(&taken);
        }
        let LightVolume { w, h, d, opaque: mut o, emission: mut e } = taken;
        o.set(i, opaque);
        e.set(i, emission);
        *self = LightVolume { w, h, d, opaque: o, emission: e };
        proof {
            assert forall|x2: int, y2: int, z2: int| in_box(before.extent(), x2, y2, z2) implies self.opaque_at(
                x2,
                y2,
                z2,
            ) == (if x2 == x && y2 == y && z2 == z {
                opaque
            } else {
                before.opaque_at(x2, y2, z2)
            }) && self.emission_at(x2, y2, z2) == (if x2 == x && y2 == y && z2 == z {
                emission
            } else {
                before.emission_at(x2, y2, z2)
            }) by {
                lemma_cell3_in(before.extent(), x2, y2, z2);
                if cell3(before.extent(), x2, y2, z2) == i {
                    lemma_cell3_inj(before.extent(), x2, y2, z2, x as int, y as int, z as int);
                }
            }
        }
    }

    /// Box extent as `(w, h, d)`.
    pub fn dims(&self) -> (r: (usize, usize, usize))
        ensures
            r == self.extent(),
            r.0 * r.1 <= usize::MAX,
            volume(r) <= usize::MAX,
    {
        proof {
            use_type_invariant(self);
            assert(self.opaque@.len() == self.opaque.len());
        }
        (self.w, self.h, self.d)
    }

    /// Whether the block at `(x, y, z)` is opaque.
    pub fn opaque(&self, x: usize, y: usize, z: usize) -> (r: bool)
        requires
            in_box(self.extent(), x as int, y as int, z as int),
        ensures
            r == self.opaque_at(x as int, y as int, z as int),
    {
        self.opaque[self.idx(x, y, z)]
    }

    /// The block light `(x, y, z)` emits.
    pub fn emission(&self, x: usize, y: usize, z: usize) -> (r: u8)
        requires
            in_box(self.extent(), x as int, y as int, z as int),
        ensures
            r == self.emission_at(x as int, y as int, z as int),
    {
        self.emission[self.idx(x, y, z)]
    }
}

impl LightMedium for LightVolume {
    open spec fn spec_dims(&self) -> (usize, usize, usize) {
        self.extent()
    }

    open spec fn spec_opaque(&self, x: int, y: int, z: int) -> bool {
        in_box(self.extent(), x, y, z) && self.opaque_at(x, y, z)
    }

    open spec fn spec_emission(&self, x: int, y: int, z: int) -> u8 {
        if in_box(self.extent(), x, y, z) {
            self.emission_at(x, y, z)
        } else {
            0u8
        }
    }

    fn dims(&self) -> (r: (usize, usize, usize))
        ensures
            r == self.extent(),
    {
        LightVolume::dims(self)
    }

    fn opaque(&self, x: usize, y: usize, z: usize) -> (r: bool)
        ensures
            r == (in_box(self.extent(), x as int, y as int, z as int) && self.opaque_at(x as int, y as int, z as int)),
    {
        let (w, h, d) = LightVolume::dims(self);
        if x < w && y < h && z < d {
            LightVolume::opaque(self, x, y, z)
        } else {
            false
        }
    }

    fn emission(&self, x: usize, y: usize, z: usize) -> (r: u8)
        ensures
            r == (if in_box(self.extent(), x as int, y as int, z as int) {
                self.emission_at(x as int, y as int, z as int)
            } else {
                0u8
            }),
    {
        let (w, h, d) = LightVolume::dims(self);
        if x < w && y < h && z < d {
            LightVolume::emission(self, x, y, z)
        } else {
            0
        }
    }
}

/// `(x, y, z)` lies inside a box of extent `e`.
pub open spec fn in_box(e: (usize, usize, usize), x: int, y: int, z: int) -> bool {
    0 <= x < e.0 && 0 <= y < e.1 && 0 <= z < e.2
}

/// Index of `(x, y, z)` in `x`-fastest order, then `z`, then `y`.
pub open spec fn cell3(e: (usize, usize, usize), x: int, y: int, z: int) -> int {
    (y * e.2 + z) * e.0 + x
}

/// Number of cells in a box of extent `e`.
pub open spec fn volume(e: (usize, usize, usize)) -> int {
    e.0 * e.1 * e.2
}

/// Offsets of the six axis-aligned neighbours.
pub open spec fn nb6(k: int) -> (int, int, int) {
    if k == 0 {
        (1, 0, 0)
    } else if k == 1 {
        (-1, 0, 0)
    } else if k == 2 {
        (0, 1, 0)
    } else if k == 3 {
        (0, -1, 0)
    } else if k == 4 {
        (0, 0, 1)
    } else {
        (0, 0, -1)
    }
}

/// Every block from `(x, y, z)` up to the top of the box is transparent.
pub open spec fn sky_open(m: &LightVolume, x: int, y: int, z: int) -> bool {
    forall|y2: int| y <= y2 < m.extent().1 ==> !#[trigger] m.opaque_at(x, y2, z)
}

/// The light a cell starts with: its emission (capped at [`MAX_LIGHT`]) for
/// block light; [`MAX_LIGHT`] under an open column, else 0, for sky light.
pub open spec fn seed(m: &LightVolume, sky: bool, x: int, y: int, z: int) -> u8 {
    if sky {
        if sky_open(m, x, y, z) {
            MAX_LIGHT
        } else {
            0
        }
    } else if m.emission_at(x, y, z) > MAX_LIGHT {
        MAX_LIGHT
    } else {
        m.emission_at(x, y, z)
    }
}

/// Spreading from `(x, y, z)` toward neighbour `k` is satisfied by `q`: a
/// transparent neighbour inside the box holds at least one level less than a
/// cell lit at 2 or more.
pub open spec fn spread_ok(m: &LightVolume, q: Seq<u8>, x: int, y: int, z: int, k: int) -> bool {
    let e = m.extent();
    let (dx, dy, dz) = nb6(k);
    in_box(e, x + dx, y + dy, z + dz) && !m.opaque_at(x + dx, y + dy, z + dz) && q[cell3(
        e,
        x,
        y,
        z,
    )] >= 2 ==> q[cell3(e, x + dx, y + dy, z + dz)] >= q[cell3(e, x, y, z)] - 1
}

/// `q` is a consistent lighting: every cell holds at least its seed and
/// every spread is satisfied.
pub open spec fn lit(m: &LightVolume, sky: bool, q: Seq<u8>) -> bool {
    let e = m.extent();
    &&& q.len() == volume(e)
    &&& forall|x: int, y: int, z: int|
        in_box(e, x, y, z) ==> q[cell3(e, x, y, z)] >= #[trigger] seed(m, sky, x, y, z)
    &&& forall|x: int, y: int, z: int, k: int|
        in_box(e, x, y, z) && 0 <= k < 6 ==> #[trigger] spread_ok(m, q, x, y, z, k)
}

/// `q` is the least consistent lighting, with every level at most
/// [`MAX_LIGHT`].
pub open spec fn least_lit(m: &LightVolume, sky: bool, q: Seq<u8>) -> bool {
    &&& lit(m, sky, q)
    &&& forall|p: Seq<u8>| #[trigger]
        lit(m, sky, p) ==> forall|x: int, y: int, z: int|
            in_box(m.extent(), x, y, z) ==> q[cell3(m.extent(), x, y, z)] <= p[cell3(
                m.extent(),
                x,
                y,
                z,
            )]
    &&& forall|i: int| 0 <= i < q.len() ==> q[i] <= MAX_LIGHT
}

pub(crate) proof fn lemma_cell3_in(e: (usize, usize, usize), x: int, y: int, z: int)
    requires
        in_box(e, x, y, z),
    ensures
        0 <= cell3(e, x, y, z) < volume(e),
        0 <= y * e.2 <= y * e.2 + z <= (y * e.2 + z) * e.0 <= cell3(e, x, y, z),
{
    assert(0 <= y * e.2) by (nonlinear_arith)
        requires
            0 <= y,
    ;
    assert(y * e.2 + z <= (y * e.2 + z) * e.0) by (nonlinear_arith)
        requires
            0 <= y * e.2 + z,
            1 <= e.0,
    ;
    lemma_cell_in(e.2 as int, e.1 as int, z, y);
    lemma_cell_in(e.0 as int, e.1 * e.2, x, y * e.2 + z);
    assert(e.0 * (e.1 * e.2) == e.0 * e.1 * e.2) by (nonlinear_arith);
}

proof fn lemma_cell3_inj(
    e: (usize, usize, usize),
    x1: int,
    y1: int,
    z1: int,
    x2: int,
    y2: int,
    z2: int,
)
    requires
        in_box(e, x1, y1, z1),
        in_box(e, x2, y2, z2),
        cell3(e, x1, y1, z1) == cell3(e, x2, y2, z2),
    ensures
        x1 == x2 && y1 == y2 && z1 == z2,
{
    lemma_cell_inj(e.0 as int, x1, y1 * e.2 + z1, x2, y2 * e.2 + z2);
    lemma_cell_inj(e.2 as int, z1, y1, z2, y2);
}


/// Computed per-block light over a box: a block-light and a sky-light level
/// (`0..=15`) for every cell, one byte each in `x`-fastest order.
#[derive(Debug, PartialEq, Eq)]
pub struct LightGrid {
    w: usize,
    h: usize,
    d: usize,
    block: Vec<u8>,
    sky: Vec<u8>,
}

impl LightGrid {
    /// The box extent.
    pub closed spec fn extent(&self) -> (usize, usize, usize) {
        (self.w, self.h, self.d)
    }

    /// Block light per cell.
    pub closed spec fn block_seq(&self) -> Seq<u8> {
        self.block@
    }

    /// Sky light per cell.
    pub closed spec fn sky_seq(&self) -> Seq<u8> {
        self.sky@
    }

    /// One level of each kind per cell.
    pub open spec fn wf(&self) -> bool {
        &&& self.block_seq().len() == volume(self.extent())
        &&& self.sky_seq().len() == volume(self.extent())
    }

    fn new(w: usize, h: usize, d: usize) -> (g: Self)
        requires
            w * h <= usize::MAX,
            w * h * d <= usize::MAX,
        ensures
            g.wf(),
            g.extent() == (w, h, d),
            forall|i: int| 0 <= i < volume(g.extent()) ==> g.block_seq()[i] == 0 && g.sky_seq()[i] == 0,
    {
        let n = w * h * d;
        let mut block: Vec<u8> = Vec::new();
        let mut sky: Vec<u8> = Vec::new();
        let mut i: usize = 0;
        while i < n
            invariant
                0 <= i <= n,
                block@.len() == i,
                sky@.len() == i,
                forall|j: int| 0 <= j < i ==> block@[j] == 0 && sky@[j] == 0,
            decreases n - i,
        {
            block.push(0);
            sky.push(0);
            i += 1;
        }
        Self { w, h, d, block, sky }
    }

    /// Box extent as `(w, h, d)`.
    pub fn dims(&self) -> (r: (usize, usize, usize))
        ensures
            r == self.extent(),
    {
        (self.w, self.h, self.d)
    }

    fn idx(&self, x: usize, y: usize, z: usize) -> (r: usize)
        requires
            self.wf(),
            in_box(self.extent(), x as int, y as int, z as int),
        ensures
            r == cell3(self.extent(), x as int, y as int, z as int),
            r < volume(self.extent()),
    {
        proof {
            lemma_cell3_in(self.extent(), x as int, y as int, z as int);
            assert(self.block@.len() == self.block.len());
        }
        (y * self.d + z) * self.w + x
    }

    /// Block (emitted) light at local `(x, y, z)`.
    pub fn block_light(&self, x: usize, y: usize, z: usize) -> (r: u8)
        requires
            self.wf(),
            in_box(self.extent(), x as int, y as int, z as int),
        ensures
            r == self.block_seq()[cell3(self.extent(), x as int, y as int, z as int)],
    {
        self.block[self.idx(x, y, z)]
    }

    /// Sky light at local `(x, y, z)`.
    pub fn sky_light(&self, x: usize, y: usize, z: usize) -> (r: u8)
        requires
            self.wf(),
            in_box(self.extent(), x as int, y as int, z as int),
        ensures
            r == self.sky_seq()[cell3(self.extent(), x as int, y as int, z as int)],
    {
        self.sky[self.idx(x, y, z)]
    }

    /// The greater of block and sky light: what a renderer usually samples.
    pub fn combined_light(&self, x: usize, y: usize, z: usize) -> (r: u8)
        requires
            self.wf(),
            in_box(self.extent(), x as int, y as int, z as int),
        ensures
            r == if self.block_seq()[cell3(self.extent(), x as int, y as int, z as int)] >= self.sky_seq()[cell3(
                self.extent(),
                x as int,
                y as int,
                z as int,
            )] {
                self.block_seq()[cell3(self.extent(), x as int, y as int, z as int)]
            } else {
                self.sky_seq()[cell3(self.extent(), x as int, y as int, z as int)]
            },
    {
        let i = self.idx(x, y, z);
        if self.block[i] >= self.sky[i] {
            self.block[i]
        } else {
            self.sky[i]
        }
    }
}

/// `(x, y, z)` has an entry in the work queue.
pub open spec fn queued(queue: Seq<(usize, usize, usize)>, x: int, y: int, z: int) -> bool {
    queue.contains((x as usize, y as usize, z as usize))
}

/// `p` is at or below every consistent lighting.
pub open spec fn below_lit(m: &LightVolume, sky: bool, p: Seq<u8>) -> bool {
    forall|q: Seq<u8>| #[trigger]
        lit(m, sky, q) ==> forall|x: int, y: int, z: int|
            in_box(m.extent(), x, y, z) ==> p[cell3(m.extent(), x, y, z)] <= q[cell3(
                m.extent(),
                x,
                y,
                z,
            )]
}

/// Every spread is satisfied by `p`, except those out of cells still queued
/// and those of `(px, py, pz)` toward neighbour `pk` or later.
pub open spec fn settled_except(
    m: &LightVolume,
    p: Seq<u8>,
    queue: Seq<(usize, usize, usize)>,
    px: int,
    py: int,
    pz: int,
    pk: int,
) -> bool {
    forall|x: int, y: int, z: int, k: int|
        in_box(m.extent(), x, y, z) && 0 <= k < 6 ==> #[trigger] spread_ok(m, p, x, y, z, k) || queued(
            queue,
            x,
            y,
            z,
        ) || (x == px && y == py && z == pz && k >= pk)
}

/// What the spread keeps while it runs.
pub open spec fn spreading(
    m: &LightVolume,
    sky: bool,
    p: Seq<u8>,
    queue: Seq<(usize, usize, usize)>,
) -> bool {
    let e = m.extent();
    &&& p.len() == volume(e)
    &&& forall|i: int| 0 <= i < p.len() ==> p[i] <= MAX_LIGHT
    &&& forall|x: int, y: int, z: int|
        in_box(e, x, y, z) ==> p[cell3(e, x, y, z)] >= #[trigger] seed(m, sky, x, y, z)
    &&& below_lit(m, sky, p)
    &&& forall|j: int|
        0 <= j < queue.len() ==> in_box(e, #[trigger] queue[j].0 as int, queue[j].1 as int, queue[j].2 as int)
}

/// Raising transparent neighbour `k` of a cell lit at `level >= 2` to
/// `level - 1` keeps the levels below every consistent lighting.
proof fn lemma_raise_below(m: &LightVolume, sky: bool, p: Seq<u8>, x: int, y: int, z: int, k: int)
    requires
        below_lit(m, sky, p),
        p.len() == volume(m.extent()),
        in_box(m.extent(), x, y, z),
        0 <= k < 6,
        p[cell3(m.extent(), x, y, z)] >= 2,
        in_box(m.extent(), x + nb6(k).0, y + nb6(k).1, z + nb6(k).2),
        !m.opaque_at(x + nb6(k).0, y + nb6(k).1, z + nb6(k).2),
    ensures
        below_lit(
            m,
            sky,
            p.update(
                cell3(m.extent(), x + nb6(k).0, y + nb6(k).1, z + nb6(k).2),
                (p[cell3(m.extent(), x, y, z)] - 1) as u8,
            ),
        ),
{
    let e = m.extent();
    let c = cell3(e, x, y, z);
    let nc = cell3(e, x + nb6(k).0, y + nb6(k).1, z + nb6(k).2);
    lemma_cell3_in(e, x, y, z);
    lemma_cell3_in(e, x + nb6(k).0, y + nb6(k).1, z + nb6(k).2);
    let p2 = p.update(nc, (p[c] - 1) as u8);
    assert forall|q: Seq<u8>| #[trigger] lit(m, sky, q) implies forall|x2: int, y2: int, z2: int|
        in_box(e, x2, y2, z2) ==> p2[cell3(e, x2, y2, z2)] <= q[cell3(e, x2, y2, z2)] by {
        assert(spread_ok(m, q, x, y, z, k));
        assert forall|x2: int, y2: int, z2: int| in_box(e, x2, y2, z2) implies p2[cell3(
            e,
            x2,
            y2,
            z2,
        )] <= q[cell3(e, x2, y2, z2)] by {
            lemma_cell3_in(e, x2, y2, z2);
        }
    }
}

/// Raising a transparent cell and queueing it keeps every other spread as
/// settled as it was.
proof fn lemma_raise_settled(
    m: &LightVolume,
    p: Seq<u8>,
    queue: Seq<(usize, usize, usize)>,
    px: int,
    py: int,
    pz: int,
    pk: int,
    nx: int,
    ny: int,
    nz: int,
    v: u8,
)
    requires
        p.len() == volume(m.extent()),
        in_box(m.extent(), nx, ny, nz),
        v > p[cell3(m.extent(), nx, ny, nz)],
        settled_except(m, p, queue, px, py, pz, pk),
    ensures
        settled_except(
            m,
            p.update(cell3(m.extent(), nx, ny, nz), v),
            queue.push((nx as usize, ny as usize, nz as usize)),
            px,
            py,
            pz,
            pk,
        ),
{
    let e = m.extent();
    let cn = cell3(e, nx, ny, nz);
    let p2 = p.update(cn, v);
    let q2 = queue.push((nx as usize, ny as usize, nz as usize));
    lemma_cell3_in(e, nx, ny, nz);
    assert forall|x: int, y: int, z: int, k: int|
        in_box(e, x, y, z) && 0 <= k < 6 implies #[trigger] spread_ok(m, p2, x, y, z, k) || queued(
            q2,
            x,
            y,
            z,
        ) || (x == px && y == py && z == pz && k >= pk) by {
        lemma_cell3_in(e, x, y, z);
        if x == nx && y == ny && z == nz {
            assert(q2[queue.len() as int] == (x as usize, y as usize, z as usize));
        } else {
            if cell3(e, x, y, z) == cn {
                lemma_cell3_inj(e, x, y, z, nx, ny, nz);
            }
            assert(spread_ok(m, p, x, y, z, k) || queued(queue, x, y, z) || (x == px && y == py && z
                == pz && k >= pk));
            if queued(queue, x, y, z) {
                let j = choose|j: int|
                    0 <= j < queue.len() && queue[j] == (x as usize, y as usize, z as usize);
                assert(q2[j] == queue[j]);
            } else if spread_ok(m, p, x, y, z, k) {
                let (dx, dy, dz) = nb6(k);
                if in_box(e, x + dx, y + dy, z + dz) {
                    lemma_cell3_in(e, x + dx, y + dy, z + dz);
                }
            }
        }
    }
}

/// Raising a cell's level (within [`MAX_LIGHT`]) and queueing the cell keeps
/// the running bounds, given the raised levels stay below every consistent
/// lighting.
proof fn lemma_raise_spreading(
    m: &LightVolume,
    sky: bool,
    p: Seq<u8>,
    queue: Seq<(usize, usize, usize)>,
    nx: int,
    ny: int,
    nz: int,
    v: u8,
)
    requires
        spreading(m, sky, p, queue),
        in_box(m.extent(), nx, ny, nz),
        v > p[cell3(m.extent(), nx, ny, nz)],
        v <= MAX_LIGHT,
        below_lit(m, sky, p.update(cell3(m.extent(), nx, ny, nz), v)),
    ensures
        spreading(
            m,
            sky,
            p.update(cell3(m.extent(), nx, ny, nz), v),
            queue.push((nx as usize, ny as usize, nz as usize)),
        ),
{
    let e = m.extent();
    let cn = cell3(e, nx, ny, nz);
    let p2 = p.update(cn, v);
    let q2 = queue.push((nx as usize, ny as usize, nz as usize));
    lemma_cell3_in(e, nx, ny, nz);
    assert forall|x: int, y: int, z: int|
        in_box(e, x, y, z) implies p2[cell3(e, x, y, z)] >= #[trigger] seed(m, sky, x, y, z) by {
        lemma_cell3_in(e, x, y, z);
    }
    assert forall|j: int| 0 <= j < q2.len() implies in_box(
        e,
        #[trigger] q2[j].0 as int,
        q2[j].1 as int,
        q2[j].2 as int,
    ) by {
        if j < queue.len() {
            assert(q2[j] == queue[j]);
        }
    }
}

/// Once spread `pk` of `(px, py, pz)` is satisfied (or the cell is queued),
/// the exemption starts one neighbour later.
proof fn lemma_settle_next(
    m: &LightVolume,
    p: Seq<u8>,
    queue: Seq<(usize, usize, usize)>,
    px: int,
    py: int,
    pz: int,
    pk: int,
)
    requires
        settled_except(m, p, queue, px, py, pz, pk),
        spread_ok(m, p, px, py, pz, pk) || queued(queue, px, py, pz),
    ensures
        settled_except(m, p, queue, px, py, pz, pk + 1),
{
}

/// Taking the front entry off the queue exempts that cell's spreads and no
/// other.
proof fn lemma_pop(m: &LightVolume, p: Seq<u8>, queue: Seq<(usize, usize, usize)>)
    requires
        queue.len() > 0,
        settled_except(m, p, queue, -1, -1, -1, 0),
        in_box(m.extent(), queue[0].0 as int, queue[0].1 as int, queue[0].2 as int),
    ensures
        settled_except(
            m,
            p,
            queue.subrange(1, queue.len() as int),
            queue[0].0 as int,
            queue[0].1 as int,
            queue[0].2 as int,
            0,
        ),
{
    let q2 = queue.subrange(1, queue.len() as int);
    let (px, py, pz) = (queue[0].0 as int, queue[0].1 as int, queue[0].2 as int);
    assert forall|x: int, y: int, z: int, k: int|
        in_box(m.extent(), x, y, z) && 0 <= k < 6 implies #[trigger] spread_ok(m, p, x, y, z, k)
        || queued(q2, x, y, z) || (x == px && y == py && z == pz && k >= 0) by {
        if queued(queue, x, y, z) && !(x == px && y == py && z == pz) {
            let j = choose|j: int|
                0 <= j < queue.len() && queue[j] == (x as usize, y as usize, z as usize);
            assert(j != 0);
            assert(q2[j - 1] == queue[j]);
        }
    }
}

/// Shared breadth-first spread: pop lit cells, push `level - 1` into
/// transparent neighbours that are currently darker.
fn spread(
    medium: &LightVolume,
    w: usize,
    h: usize,
    d: usize,
    queue: &mut VecDeque<(usize, usize, usize)>,
    light: &mut Vec<u8>,
    Ghost(sky): Ghost<bool>,
)
    requires
        medium.extent() == (w, h, d),
        spreading(medium, sky, old(light)@, old(queue)@),
        settled_except(medium, old(light)@, old(queue)@, -1, -1, -1, 0),
    ensures
        least_lit(medium, sky, final(light)@),
{
    let ghost e = medium.extent();
    proof {
        assert(light@.len() == light.len());
    }
    loop
        invariant
            medium.extent() == (w, h, d),
            e == (w, h, d),
            light@.len() <= usize::MAX,
            spreading(medium, sky, light@, queue@),
            settled_except(medium, light@, queue@, -1, -1, -1, 0),
        ensures
            queue@.len() == 0,
        decreases headroom(light@), queue@.len(),
    {
        proof {
            lemma_headroom_nonneg(light@);
        }
        let ghost h0 = headroom(light@);
        let ghost q0 = queue@;
        let popped = queue.pop_front();
        let (x, y, z) = match popped {
            None => {
                break;
            },
            Some(t) => t,
        };
        proof {
            assert(q0[0] == (x, y, z));
            assert(in_box(e, q0[0].0 as int, q0[0].1 as int, q0[0].2 as int));
            lemma_pop(medium, light@, q0);
            assert forall|j: int| 0 <= j < queue@.len() implies in_box(
                e,
                #[trigger] queue@[j].0 as int,
                queue@[j].1 as int,
                queue@[j].2 as int,
            ) by {
                assert(queue@[j] == q0[j + 1]);
            }
            lemma_cell3_in(e, x as int, y as int, z as int);
        }
        let c = (y * d + z) * w + x;
        let level = light[c];
        if level <= 1 {
            proof {
                assert forall|x2: int, y2: int, z2: int, k: int|
                    in_box(e, x2, y2, z2) && 0 <= k < 6 implies #[trigger] spread_ok(
                    medium,
                    light@,
                    x2,
                    y2,
                    z2,
                    k,
                ) || queued(queue@, x2, y2, z2) || (x2 == -1 && y2 == -1 && z2 == -1 && k >= 0) by {
                    if x2 == x && y2 == y && z2 == z {
                    }
                }
            }
            continue;
        }
        let next = level - 1;
        let mut k: usize = 0;
        while k < 6
            invariant
                medium.extent() == (w, h, d),
                e == (w, h, d),
                light@.len() <= usize::MAX,
                spreading(medium, sky, light@, queue@),
                settled_except(medium, light@, queue@, x as int, y as int, z as int, k as int),
                in_box(e, x as int, y as int, z as int),
                c == cell3(e, x as int, y as int, z as int),
                (c as int) < light@.len(),
                light@[c as int] == level,
                level >= 2,
                next == level - 1,
                0 <= k <= 6,
                headroom(light@) <= h0,
                headroom(light@) == h0 ==> queue@.len() < q0.len(),
            decreases 6 - k,
        {
            let ghost kk = k as int;
            // The neighbour in direction `k`, when it lies inside the box.
            let (ux, uy, uz, inside): (usize, usize, usize, bool) = if k == 0 {
                if x + 1 < w { (x + 1, y, z, true) } else { (x, y, z, false) }
            } else if k == 1 {
                if x > 0 { (x - 1, y, z, true) } else { (x, y, z, false) }
            } else if k == 2 {
                if y + 1 < h { (x, y + 1, z, true) } else { (x, y, z, false) }
            } else if k == 3 {
                if y > 0 { (x, y - 1, z, true) } else { (x, y, z, false) }
            } else if k == 4 {
                if z + 1 < d { (x, y, z + 1, true) } else { (x, y, z, false) }
            } else {
                if z > 0 { (x, y, z - 1, true) } else { (x, y, z, false) }
            };
            proof {
                if inside {
                    assert(ux == x + nb6(kk).0 && uy == y + nb6(kk).1 && uz == z + nb6(kk).2);
                } else {
                    assert(!in_box(e, x + nb6(kk).0, y + nb6(kk).1, z + nb6(kk).2));
                }
            }
            if !inside {
                proof {
                    lemma_settle_next(medium, light@, queue@, x as int, y as int, z as int, kk);
                }
            } else if medium.opaque(ux, uy, uz) {
                proof {
                    lemma_settle_next(medium, light@, queue@, x as int, y as int, z as int, kk);
                }
            } else {
                proof {
                    lemma_cell3_in(e, ux as int, uy as int, uz as int);
                }
                let ni = (uy * d + uz) * w + ux;
                proof {
                    assert(ni as int == cell3(e, x + nb6(kk).0, y + nb6(kk).1, z + nb6(kk).2));
                    assert(light@[c as int] <= MAX_LIGHT);
                }
                if light[ni] < next {
                    let ghost was = queued(queue@, x as int, y as int, z as int);
                    let ghost q1 = queue@;
                    proof {
                        lemma_raise_below(medium, sky, light@, x as int, y as int, z as int, kk);
                        lemma_raise_settled(
                            medium,
                            light@,
                            queue@,
                            x as int,
                            y as int,
                            z as int,
                            kk,
                            ux as int,
                            uy as int,
                            uz as int,
                            next,
                        );
                        lemma_headroom_update(light@, ni as int, next);
                        lemma_raise_spreading(medium, sky, light@, queue@, ux as int, uy as int, uz as int, next);
                        if ni == c {
                            lemma_cell3_inj(e, ux as int, uy as int, uz as int, x as int, y as int, z as int);
                        }
                    }
                    light.set(ni, next);
                    queue.push_back((ux, uy, uz));
                    proof {
                        assert(queue@[queue@.len() - 1] == (ux, uy, uz));
                        assert(light@[c as int] == level);
                        assert(light@[ni as int] == next);
                        assert(spread_ok(medium, light@, x as int, y as int, z as int, kk));
                        lemma_settle_next(medium, light@, queue@, x as int, y as int, z as int, kk);
                    }
                } else {
                    proof {
                        assert(spread_ok(medium, light@, x as int, y as int, z as int, kk));
                        lemma_settle_next(medium, light@, queue@, x as int, y as int, z as int, kk);
                    }
                }
            }
            k += 1;
        }
        proof {
            lemma_headroom_nonneg(light@);
        }
    }
    proof {
        assert forall|x: int, y: int, z: int, k: int|
            in_box(e, x, y, z) && 0 <= k < 6 implies #[trigger] spread_ok(medium, light@, x, y, z, k) by {
            assert(!queued(queue@, x, y, z));
        }

    }
}


/// The seeding pass has filled every cell before flat index `i` with its
/// seed and left the rest dark; every lit cell is queued.
pub open spec fn seeded_upto(
    m: &LightVolume,
    sky: bool,
    p: Seq<u8>,
    queue: Seq<(usize, usize, usize)>,
    i: int,
) -> bool {
    let e = m.extent();
    &&& p.len() == volume(e)
    &&& forall|j: int| 0 <= j < p.len() ==> p[j] <= MAX_LIGHT
    &&& forall|x: int, y: int, z: int|
        #![trigger p[cell3(e, x, y, z)]]
        in_box(e, x, y, z) ==> p[cell3(e, x, y, z)] == (if cell3(e, x, y, z) < i {
            seed(m, sky, x, y, z)
        } else {
            0u8
        })
    &&& forall|x: int, y: int, z: int|
        in_box(e, x, y, z) && p[cell3(e, x, y, z)] > 0 ==> #[trigger] queued(queue, x, y, z)
    &&& forall|j: int|
        0 <= j < queue.len() ==> in_box(e, #[trigger] queue[j].0 as int, queue[j].1 as int, queue[j].2 as int)
}

/// Seeding cell `(x, y, z)` at flat index `i` with `v` (its seed, queued
/// when positive) extends the seeded prefix by one.
proof fn lemma_seed_step(
    m: &LightVolume,
    sky: bool,
    p: Seq<u8>,
    queue: Seq<(usize, usize, usize)>,
    x: int,
    y: int,
    z: int,
    p2: Seq<u8>,
    q2: Seq<(usize, usize, usize)>,
)
    requires
        seeded_upto(m, sky, p, queue, cell3(m.extent(), x, y, z)),
        in_box(m.extent(), x, y, z),
        seed(m, sky, x, y, z) == 0 ==> p2 == p && q2 == queue,
        seed(m, sky, x, y, z) > 0 ==> p2 == p.update(cell3(m.extent(), x, y, z), seed(m, sky, x, y, z))
            && q2 == queue.push((x as usize, y as usize, z as usize)),
    ensures
        seeded_upto(m, sky, p2, q2, cell3(m.extent(), x, y, z) + 1),
{
    let e = m.extent();
    let c = cell3(e, x, y, z);
    lemma_cell3_in(e, x, y, z);
    assert forall|j: int| 0 <= j < p2.len() implies p2[j] <= MAX_LIGHT by {
        if seed(m, sky, x, y, z) > 0 && j == c {
        } else {
            assert(p2[j] == p[j]);
        }
    }
    assert forall|x2: int, y2: int, z2: int|
        #![trigger p2[cell3(e, x2, y2, z2)]]
        in_box(e, x2, y2, z2) implies p2[cell3(e, x2, y2, z2)] == (if cell3(e, x2, y2, z2) < c + 1 {
        seed(m, sky, x2, y2, z2)
    } else {
        0u8
    }) by {
        lemma_cell3_in(e, x2, y2, z2);
        let c2 = cell3(e, x2, y2, z2);
        assert(p[c2] == (if c2 < c {
            seed(m, sky, x2, y2, z2)
        } else {
            0u8
        }));
        if c2 == c {
            lemma_cell3_inj(e, x2, y2, z2, x, y, z);
            assert(p[c] == 0);
        } else {
            assert(p2[c2] == p[c2]);
        }
    }
    assert forall|x2: int, y2: int, z2: int|
        in_box(e, x2, y2, z2) && p2[cell3(e, x2, y2, z2)] > 0 implies #[trigger] queued(q2, x2, y2, z2) by {
        lemma_cell3_in(e, x2, y2, z2);
        if seed(m, sky, x, y, z) > 0 {
            if x2 == x && y2 == y && z2 == z {
                assert(q2[queue.len() as int] == (x as usize, y as usize, z as usize));
            } else {
                if cell3(e, x2, y2, z2) == c {
                    lemma_cell3_inj(e, x2, y2, z2, x, y, z);
                }
                assert(queued(queue, x2, y2, z2));
                let j = choose|j: int|
                    0 <= j < queue.len() && queue[j] == (x2 as usize, y2 as usize, z2 as usize);
                assert(q2[j] == queue[j]);
            }
        }
    }
    assert forall|j: int| 0 <= j < q2.len() implies in_box(
        e,
        #[trigger] q2[j].0 as int,
        q2[j].1 as int,
        q2[j].2 as int,
    ) by {
        if j < queue.len() {
            assert(q2[j] == queue[j]);
        }
    }
}

/// A fully seeded table is where the spread starts.
proof fn lemma_seeded_spreading(m: &LightVolume, sky: bool, p: Seq<u8>, queue: Seq<(usize, usize, usize)>)
    requires
        seeded_upto(m, sky, p, queue, volume(m.extent())),
    ensures
        spreading(m, sky, p, queue),
        settled_except(m, p, queue, -1, -1, -1, 0),
{
    let e = m.extent();
    assert forall|x: int, y: int, z: int| in_box(e, x, y, z) implies p[cell3(e, x, y, z)] >= #[trigger] seed(
        m,
        sky,
        x,
        y,
        z,
    ) by {
        lemma_cell3_in(e, x, y, z);
    }
    assert forall|q: Seq<u8>| #[trigger] lit(m, sky, q) implies forall|x: int, y: int, z: int|
        in_box(e, x, y, z) ==> p[cell3(e, x, y, z)] <= q[cell3(e, x, y, z)] by {
        assert forall|x: int, y: int, z: int| in_box(e, x, y, z) implies p[cell3(e, x, y, z)] <= q[cell3(
            e,
            x,
            y,
            z,
        )] by {
            lemma_cell3_in(e, x, y, z);
            assert(q[cell3(e, x, y, z)] >= seed(m, sky, x, y, z));
        }
    }
    assert forall|x: int, y: int, z: int, k: int|
        in_box(e, x, y, z) && 0 <= k < 6 implies #[trigger] spread_ok(m, p, x, y, z, k) || queued(
            queue,
            x,
            y,
            z,
        ) || (x == -1 && y == -1 && z == -1 && k >= 0) by {
        lemma_cell3_in(e, x, y, z);
    }
}


proof fn lemma_row_end(w: int, d: int, y: int, z: int)
    ensures
        (y * d + z) * w + w == (y * d + (z + 1)) * w,
        (y * d + d) * w == ((y + 1) * d + 0) * w,
{
    assert((y * d + z) * w + w == (y * d + (z + 1)) * w) by (nonlinear_arith);
    assert((y * d + d) * w == ((y + 1) * d + 0) * w) by (nonlinear_arith);
}

/// Seed block light from every emitter, then spread it.
fn compute_block_light(medium: &LightVolume, grid: &mut LightGrid)
    requires
        old(grid).wf(),
        old(grid).extent() == medium.extent(),
        forall|i: int| 0 <= i < old(grid).block_seq().len() ==> old(grid).block_seq()[i] == 0,
    ensures
        final(grid).wf(),
        final(grid).extent() == old(grid).extent(),
        final(grid).sky_seq() == old(grid).sky_seq(),
        least_lit(medium, false, final(grid).block_seq()),
{
    let (w, h, d) = (grid.w, grid.h, grid.d);
    let ghost e = medium.extent();
    let mut queue: VecDeque<(usize, usize, usize)> = VecDeque::new();
    proof {
        assert(grid.block@.len() == grid.block.len());
        assert forall|x: int, y: int, z: int| in_box(e, x, y, z) implies grid.block@[cell3(e, x, y, z)]
            == (if cell3(e, x, y, z) < 0 {
            seed(medium, false, x, y, z)
        } else {
            0u8
        }) by {
            lemma_cell3_in(e, x, y, z);
        }
    }
    let mut y: usize = 0;
    while y < h
        invariant
            grid.wf(),
            grid.extent() == e,
            e == medium.extent(),
            e == (w, h, d),
            grid.sky_seq() == old(grid).sky_seq(),
            grid.block@.len() <= usize::MAX,
            0 <= y <= h,
            seeded_upto(medium, false, grid.block@, queue@, (y * d + 0) * w),
        decreases h - y,
    {
        let mut z: usize = 0;
        while z < d
            invariant
                grid.wf(),
                grid.extent() == e,
                e == medium.extent(),
                e == (w, h, d),
                grid.sky_seq() == old(grid).sky_seq(),
                grid.block@.len() <= usize::MAX,
                0 <= y < h,
                0 <= z <= d,
                seeded_upto(medium, false, grid.block@, queue@, (y * d + z) * w),
            decreases d - z,
        {
            let mut x: usize = 0;
            while x < w
                invariant
                    grid.wf(),
                    grid.extent() == e,
                    e == medium.extent(),
                    e == (w, h, d),
                    grid.sky_seq() == old(grid).sky_seq(),
                    grid.block@.len() <= usize::MAX,
                    0 <= y < h,
                    0 <= z < d,
                    0 <= x <= w,
                    seeded_upto(medium, false, grid.block@, queue@, (y * d + z) * w + x),
                decreases w - x,
            {
                let em = medium.emission(x, y, z);
                let v = if em > MAX_LIGHT {
                    MAX_LIGHT
                } else {
                    em
                };
                let ghost p0 = grid.block@;
                let ghost q0 = queue@;
                if v > 0 {
                    let i = grid.idx(x, y, z);
                    proof {
                        assert(grid.block@[i as int] == 0);
                    }
                    if v > grid.block[i] {
                        grid.block.set(i, v);
                        queue.push_back((x, y, z));
                    }
                }
                proof {
                    lemma_seed_step(medium, false, p0, q0, x as int, y as int, z as int, grid.block@, queue@);
                }
                x += 1;
            }
            proof {
                lemma_row_end(w as int, d as int, y as int, z as int);
            }
            z += 1;
        }
        proof {
            lemma_row_end(w as int, d as int, y as int, z as int);
        }
        y += 1;
    }
    proof {
        assert((h * d + 0) * w == volume(e)) by (nonlinear_arith)
            requires
                e == (w, h, d),
        ;
        lemma_seeded_spreading(medium, false, grid.block@, queue@);
    }
    spread(medium, w, h, d, &mut queue, &mut grid.block, Ghost(false));
}


/// Sky seeding has finished every column before `(cx, cz)` (z-major, then
/// x), lit the current column from `cy` up, and left the rest dark; every
/// lit cell is queued.
pub open spec fn sky_seeded(
    m: &LightVolume,
    p: Seq<u8>,
    queue: Seq<(usize, usize, usize)>,
    cx: int,
    cy: int,
    cz: int,
) -> bool {
    let e = m.extent();
    &&& p.len() == volume(e)
    &&& forall|j: int| 0 <= j < p.len() ==> p[j] <= MAX_LIGHT
    &&& forall|x: int, y: int, z: int|
        #![trigger p[cell3(e, x, y, z)]]
        in_box(e, x, y, z) ==> p[cell3(e, x, y, z)] == (if z < cz || (z == cz && x < cx) {
            seed(m, true, x, y, z)
        } else if z == cz && x == cx && y >= cy {
            MAX_LIGHT
        } else {
            0u8
        })
    &&& forall|y2: int| cy <= y2 < e.1 ==> !#[trigger] m.opaque_at(cx, y2, cz)
    &&& forall|x: int, y: int, z: int|
        in_box(e, x, y, z) && p[cell3(e, x, y, z)] > 0 ==> #[trigger] queued(queue, x, y, z)
    &&& forall|j: int|
        0 <= j < queue.len() ==> in_box(e, #[trigger] queue[j].0 as int, queue[j].1 as int, queue[j].2 as int)
}

/// Lighting transparent cell `(cx, cy, cz)` just below the lit part of the
/// current column, and queueing it, lowers the column's lit part by one.
proof fn lemma_sky_step(
    m: &LightVolume,
    p: Seq<u8>,
    queue: Seq<(usize, usize, usize)>,
    cx: int,
    cy: int,
    cz: int,
)
    requires
        sky_seeded(m, p, queue, cx, cy + 1, cz),
        in_box(m.extent(), cx, cy, cz),
        !m.opaque_at(cx, cy, cz),
    ensures
        sky_seeded(
            m,
            p.update(cell3(m.extent(), cx, cy, cz), MAX_LIGHT),
            queue.push((cx as usize, cy as usize, cz as usize)),
            cx,
            cy,
            cz,
        ),
{
    let e = m.extent();
    let c = cell3(e, cx, cy, cz);
    let p2 = p.update(c, MAX_LIGHT);
    let q2 = queue.push((cx as usize, cy as usize, cz as usize));
    lemma_cell3_in(e, cx, cy, cz);
    assert forall|j: int| 0 <= j < p2.len() implies p2[j] <= MAX_LIGHT by {
        if j != c {
            assert(p2[j] == p[j]);
        }
    }
    assert forall|x: int, y: int, z: int|
        #![trigger p2[cell3(e, x, y, z)]]
        in_box(e, x, y, z) implies p2[cell3(e, x, y, z)] == (if z < cz || (z == cz && x < cx) {
        seed(m, true, x, y, z)
    } else if z == cz && x == cx && y >= cy {
        MAX_LIGHT
    } else {
        0u8
    }) by {
        lemma_cell3_in(e, x, y, z);
        let c2 = cell3(e, x, y, z);
        assert(p[c2] == (if z < cz || (z == cz && x < cx) {
            seed(m, true, x, y, z)
        } else if z == cz && x == cx && y >= cy + 1 {
            MAX_LIGHT
        } else {
            0u8
        }));
        if c2 == c {
            lemma_cell3_inj(e, x, y, z, cx, cy, cz);
        } else {
            assert(p2[c2] == p[c2]);
        }
    }
    assert forall|x: int, y: int, z: int|
        in_box(e, x, y, z) && p2[cell3(e, x, y, z)] > 0 implies #[trigger] queued(q2, x, y, z) by {
        lemma_cell3_in(e, x, y, z);
        if x == cx && y == cy && z == cz {
            assert(q2[queue.len() as int] == (x as usize, y as usize, z as usize));
        } else {
            if cell3(e, x, y, z) == c {
                lemma_cell3_inj(e, x, y, z, cx, cy, cz);
            }
            assert(queued(queue, x, y, z));
            let j = choose|j: int| 0 <= j < queue.len() && queue[j] == (x as usize, y as usize, z as usize);
            assert(q2[j] == queue[j]);
        }
    }
    assert forall|j: int| 0 <= j < q2.len() implies in_box(
        e,
        #[trigger] q2[j].0 as int,
        q2[j].1 as int,
        q2[j].2 as int,
    ) by {
        if j < queue.len() {
            assert(q2[j] == queue[j]);
        }
    }
}

/// A column lit from `cy` up, with `cy` at the floor or resting on an
/// opaque block, is finished.
proof fn lemma_sky_column_done(
    m: &LightVolume,
    p: Seq<u8>,
    queue: Seq<(usize, usize, usize)>,
    cx: int,
    cy: int,
    cz: int,
)
    requires
        sky_seeded(m, p, queue, cx, cy, cz),
        0 <= cx < m.extent().0,
        0 <= cz < m.extent().2,
        0 <= cy <= m.extent().1,
        cy == 0 || m.opaque_at(cx, cy - 1, cz),
    ensures
        cx + 1 < m.extent().0 ==> sky_seeded(m, p, queue, cx + 1, m.extent().1 as int, cz),
        cx + 1 == m.extent().0 ==> sky_seeded(m, p, queue, 0, m.extent().1 as int, cz + 1),
{
    let e = m.extent();
    assert forall|x: int, y: int, z: int|
        #![trigger p[cell3(e, x, y, z)]]
        in_box(e, x, y, z) && x == cx && z == cz implies p[cell3(e, x, y, z)] == seed(m, true, x, y, z) by {
        if y >= cy {
            assert forall|y2: int| y <= y2 < e.1 implies !#[trigger] m.opaque_at(x, y2, z) by {}
        } else {
            assert(!sky_open(m, x, y, z));
        }
    }
}

/// Seed sky light down every open column, then spread it.
fn compute_sky_light(medium: &LightVolume, grid: &mut LightGrid)
    requires
        old(grid).wf(),
        old(grid).extent() == medium.extent(),
        forall|i: int| 0 <= i < old(grid).sky_seq().len() ==> old(grid).sky_seq()[i] == 0,
    ensures
        final(grid).wf(),
        final(grid).extent() == old(grid).extent(),
        final(grid).block_seq() == old(grid).block_seq(),
        least_lit(medium, true, final(grid).sky_seq()),
{
    let (w, h, d) = (grid.w, grid.h, grid.d);
    let ghost e = medium.extent();
    let mut queue: VecDeque<(usize, usize, usize)> = VecDeque::new();
    proof {
        assert(grid.sky@.len() == grid.sky.len());
        assert forall|x: int, y: int, z: int|
            #![trigger grid.sky@[cell3(e, x, y, z)]]
            in_box(e, x, y, z) implies grid.sky@[cell3(e, x, y, z)] == (if z < 0 || (z == 0 && x < 0) {
            seed(medium, true, x, y, z)
        } else if z == 0 && x == 0 && y >= h {
            MAX_LIGHT
        } else {
            0u8
        }) by {
            lemma_cell3_in(e, x, y, z);
        }
    }
    let mut z: usize = 0;
    while z < d
        invariant
            grid.wf(),
            grid.extent() == e,
            e == medium.extent(),
            e == (w, h, d),
            grid.block_seq() == old(grid).block_seq(),
            grid.sky@.len() <= usize::MAX,
            0 <= z <= d,
            sky_seeded(medium, grid.sky@, queue@, 0, h as int, z as int),
        decreases d - z,
    {
        let mut x: usize = 0;
        while x < w
            invariant
                grid.wf(),
                grid.extent() == e,
                e == medium.extent(),
                e == (w, h, d),
                grid.block_seq() == old(grid).block_seq(),
                grid.sky@.len() <= usize::MAX,
                0 <= z < d,
                0 <= x <= w,
                x < w ==> sky_seeded(medium, grid.sky@, queue@, x as int, h as int, z as int),
                x == w ==> sky_seeded(medium, grid.sky@, queue@, 0, h as int, z + 1),
            decreases w - x,
        {
            let mut y: usize = h;
            while y > 0
                invariant
                    grid.wf(),
                    grid.extent() == e,
                    e == medium.extent(),
                    e == (w, h, d),
                    grid.block_seq() == old(grid).block_seq(),
                    grid.sky@.len() <= usize::MAX,
                    0 <= z < d,
                    0 <= x < w,
                    0 <= y <= h,
                    sky_seeded(medium, grid.sky@, queue@, x as int, y as int, z as int),
                ensures
                    sky_seeded(medium, grid.sky@, queue@, x as int, y as int, z as int),
                    0 <= y <= h,
                    y == 0 || medium.opaque_at(x as int, y - 1, z as int),
                decreases y,
            {
                let yy = y - 1;
                if medium.opaque(x, yy, z) {
                    break;
                }
                let ghost p0 = grid.sky@;
                let ghost q0 = queue@;
                let i = grid.idx(x, yy, z);
                grid.sky.set(i, MAX_LIGHT);
                queue.push_back((x, yy, z));
                proof {
                    lemma_sky_step(medium, p0, q0, x as int, yy as int, z as int);
                }
                y = yy;
            }
            proof {
                lemma_sky_column_done(medium, grid.sky@, queue@, x as int, y as int, z as int);
            }
            x += 1;
        }
        z += 1;
    }
    proof {
        assert forall|x: int, y: int, z2: int|
            #![trigger grid.sky@[cell3(e, x, y, z2)]]
            in_box(e, x, y, z2) implies grid.sky@[cell3(e, x, y, z2)] == (if cell3(e, x, y, z2) < volume(e) {
            seed(medium, true, x, y, z2)
        } else {
            0u8
        }) by {
            lemma_cell3_in(e, x, y, z2);
        }
        assert forall|x: int, y: int, z2: int|
            in_box(e, x, y, z2) && grid.sky@[cell3(e, x, y, z2)] > 0 implies #[trigger] queued(queue@, x, y, z2) by {
        }
        lemma_seeded_spreading(medium, true, grid.sky@, queue@);
    }
    spread(medium, w, h, d, &mut queue, &mut grid.sky, Ghost(true));
}


/// Compute block and sky light for a snapshot: two independent
/// breadth-first passes, one seeded from emitters and one from the open sky,
/// each spreading light outward and losing a level per block until it meets
/// an opaque block or the box edge.
pub fn light_volume(medium: &LightVolume) -> (g: LightGrid)
    requires
    ensures
        g.wf(),
        g.extent() == medium.extent(),
        least_lit(medium, false, g.block_seq()),
        least_lit(medium, true, g.sky_seq()),
{
    let (w, h, d) = medium.dims();
    let mut grid = LightGrid::new(w, h, d);
    if w == 0 || h == 0 || d == 0 {
        proof {
            assert(volume(medium.extent()) == 0) by (nonlinear_arith)
                requires
                    medium.extent() == (w, h, d),
                    w == 0 || h == 0 || d == 0,
            ;
        }
        return grid;
    }
    compute_block_light(medium, &mut grid);
    compute_sky_light(medium, &mut grid);
    grid
}

/// Lowering cell `(cx, cy, cz)` to `v` keeps a lighting consistent when `v`
/// is at least the cell's seed, at least one less than every neighbour lit
/// at 2 or more (if the cell is transparent), and at most its current level.
proof fn lemma_lower_keeps_lit(m: &LightVolume, sky: bool, q: Seq<u8>, cx: int, cy: int, cz: int, v: u8)
    requires
        lit(m, sky, q),
        in_box(m.extent(), cx, cy, cz),
        v >= seed(m, sky, cx, cy, cz),
        v <= q[cell3(m.extent(), cx, cy, cz)],
        !m.opaque_at(cx, cy, cz) ==> forall|k: int|
            0 <= k < 6 && in_box(m.extent(), cx + nb6(k).0, cy + nb6(k).1, cz + nb6(k).2) && q[cell3(
                m.extent(),
                cx + nb6(k).0,
                cy + nb6(k).1,
                cz + nb6(k).2,
            )] >= 2 ==> v >= q[cell3(m.extent(), cx + nb6(k).0, cy + nb6(k).1, cz + nb6(k).2)] - 1,
    ensures
        lit(m, sky, q.update(cell3(m.extent(), cx, cy, cz), v)),
{
    let e = m.extent();
    let c = cell3(e, cx, cy, cz);
    let p = q.update(c, v);
    lemma_cell3_in(e, cx, cy, cz);
    assert forall|x: int, y: int, z: int| in_box(e, x, y, z) implies p[cell3(e, x, y, z)] >= #[trigger] seed(
        m,
        sky,
        x,
        y,
        z,
    ) by {
        lemma_cell3_in(e, x, y, z);
        if cell3(e, x, y, z) == c {
            lemma_cell3_inj(e, x, y, z, cx, cy, cz);
        }
    }
    assert forall|x: int, y: int, z: int, k: int| in_box(e, x, y, z) && 0 <= k < 6 implies #[trigger] spread_ok(
        m,
        p,
        x,
        y,
        z,
        k,
    ) by {
        let (dx, dy, dz) = nb6(k);
        lemma_cell3_in(e, x, y, z);
        assert(spread_ok(m, q, x, y, z, k));
        if in_box(e, x + dx, y + dy, z + dz) && !m.opaque_at(x + dx, y + dy, z + dz) {
            lemma_cell3_in(e, x + dx, y + dy, z + dz);
            let src = cell3(e, x, y, z);
            let dst = cell3(e, x + dx, y + dy, z + dz);
            if src == c {
                lemma_cell3_inj(e, x, y, z, cx, cy, cz);
            }
            if dst == c {
                lemma_cell3_inj(e, x + dx, y + dy, z + dz, cx, cy, cz);
                if src != c && q[src] >= 2 {
                    let kr: int = if k == 0 {
                        1
                    } else if k == 1 {
                        0
                    } else if k == 2 {
                        3
                    } else if k == 3 {
                        2
                    } else if k == 4 {
                        5
                    } else {
                        4
                    };
                    assert(nb6(kr) == (-dx, -dy, -dz));
                    assert(cx + nb6(kr).0 == x && cy + nb6(kr).1 == y && cz + nb6(kr).2 == z);
                }
            }
        }
    }
}

/// Opaque blocks that seed no light stay dark: light neither fills nor
/// passes through them.
pub proof fn lemma_opaque_is_dark(m: &LightVolume, sky: bool, q: Seq<u8>, x: int, y: int, z: int)
    requires
        least_lit(m, sky, q),
        in_box(m.extent(), x, y, z),
        m.opaque_at(x, y, z),
        !sky ==> m.emission_at(x, y, z) == 0,
    ensures
        q[cell3(m.extent(), x, y, z)] == 0,
{
    let e = m.extent();
    assert(!sky_open(m, x, y, z));
    lemma_lower_keeps_lit(m, sky, q, x, y, z, 0);
    let p = q.update(cell3(e, x, y, z), 0);
    lemma_cell3_in(e, x, y, z);
    assert(lit(m, sky, p));
    assert(p[cell3(e, x, y, z)] == 0);
    assert(q[cell3(e, x, y, z)] <= p[cell3(e, x, y, z)]);
}

/// Every cell under an open column has full sky light.
pub proof fn lemma_open_sky_is_full(m: &LightVolume, q: Seq<u8>, x: int, y: int, z: int)
    requires
        least_lit(m, true, q),
        in_box(m.extent(), x, y, z),
        sky_open(m, x, y, z),
    ensures
        q[cell3(m.extent(), x, y, z)] == MAX_LIGHT,
{
    lemma_cell3_in(m.extent(), x, y, z);
    assert(seed(m, true, x, y, z) == MAX_LIGHT);
    assert(q[cell3(m.extent(), x, y, z)] >= seed(m, true, x, y, z));
}


/// The light `(x, y, z)` takes from neighbour `k`: one level less than the
/// neighbour, when the cell is transparent and the neighbour lies in the box
/// lit at 2 or more; else nothing.
pub open spec fn from_neighbour(m: &LightVolume, q: Seq<u8>, x: int, y: int, z: int, k: int) -> int {
    let e = m.extent();
    let (dx, dy, dz) = nb6(k);
    if !m.opaque_at(x, y, z) && in_box(e, x + dx, y + dy, z + dz) && q[cell3(e, x + dx, y + dy, z + dz)]
        >= 2 {
        q[cell3(e, x + dx, y + dy, z + dz)] - 1
    } else {
        0
    }
}

/// The larger of two integers.
pub open spec fn max_of(a: int, b: int) -> int {
    if a >= b {
        a
    } else {
        b
    }
}

/// The brightest of a cell's seed and what its six neighbours give it.
pub open spec fn brightest(m: &LightVolume, sky: bool, q: Seq<u8>, x: int, y: int, z: int) -> int {
    max_of(
        seed(m, sky, x, y, z) as int,
        max_of(
            max_of(from_neighbour(m, q, x, y, z, 0), from_neighbour(m, q, x, y, z, 1)),
            max_of(
                max_of(from_neighbour(m, q, x, y, z, 2), from_neighbour(m, q, x, y, z, 3)),
                max_of(from_neighbour(m, q, x, y, z, 4), from_neighbour(m, q, x, y, z, 5)),
            ),
        ),
    )
}

/// The opposite neighbour direction.
pub open spec fn nb6_rev(k: int) -> int {
    if k == 0 {
        1
    } else if k == 1 {
        0
    } else if k == 2 {
        3
    } else if k == 3 {
        2
    } else if k == 4 {
        5
    } else {
        4
    }
}

/// In the computed lighting every cell holds exactly the brightest of its
/// seed and one level less than its brightest neighbour (when transparent):
/// light loses exactly one level per block and comes from nowhere else.
pub proof fn lemma_light_is_brightest(m: &LightVolume, sky: bool, q: Seq<u8>, x: int, y: int, z: int)
    requires
        least_lit(m, sky, q),
        in_box(m.extent(), x, y, z),
    ensures
        q[cell3(m.extent(), x, y, z)] == brightest(m, sky, q, x, y, z),
{
    let e = m.extent();
    let c = cell3(e, x, y, z);
    lemma_cell3_in(e, x, y, z);
    assert forall|k: int| 0 <= k < 6 implies from_neighbour(m, q, x, y, z, k) <= q[c] by {
        let (dx, dy, dz) = nb6(k);
        if !m.opaque_at(x, y, z) && in_box(e, x + dx, y + dy, z + dz) && q[cell3(e, x + dx, y + dy, z + dz)]
            >= 2 {
            let kr = nb6_rev(k);
            assert(nb6(kr) == (-dx, -dy, -dz));
            assert(spread_ok(m, q, x + dx, y + dy, z + dz, kr));
        }
    }
    assert(q[c] >= seed(m, sky, x, y, z));
    let v = brightest(m, sky, q, x, y, z);
    assert(0 <= v <= q[c]);
    assert forall|k: int|
        0 <= k < 6 && in_box(e, x + nb6(k).0, y + nb6(k).1, z + nb6(k).2) && q[cell3(
            e,
            x + nb6(k).0,
            y + nb6(k).1,
            z + nb6(k).2,
        )] >= 2 && !m.opaque_at(x, y, z) implies v >= q[cell3(e, x + nb6(k).0, y + nb6(k).1, z + nb6(k).2)]
        - 1 by {
        assert(v >= from_neighbour(m, q, x, y, z, k));
    }
    lemma_lower_keeps_lit(m, sky, q, x, y, z, v as u8);
    let p = q.update(c, v as u8);
    assert(lit(m, sky, p));
    assert(q[c] <= p[c]);
}


impl Clone for LightGrid {
    fn clone(&self) -> (r: Self)
        ensures
            r.extent() == self.extent(),
            r.block_seq() == self.block_seq(),
            r.sky_seq() == self.sky_seq(),
    {
        let block = self.block.clone();
        let sky = self.sky.clone();
        proof {
            assert(block@ =~= self.block@);
            assert(sky@ =~= self.sky@);
        }
        LightGrid { w: self.w, h: self.h, d: self.d, block, sky }
    }
}


/// Whether a box of extent `e` is lit: its cell count fits a `usize`.
pub open spec fn light_box_fits(e: (usize, usize, usize)) -> bool {
    &&& e.0 * e.1 <= usize::MAX
    &&& e.0 * e.1 * e.2 <= usize::MAX
}

/// Whether the snapshot `v` holds the opacity and emission `medium` gives
/// every cell of `v`'s box.
pub open spec fn snapshot_of<M: LightMedium>(v: LightVolume, medium: &M) -> bool {
    forall|x: int, y: int, z: int|
        in_box(v.extent(), x, y, z) ==> #[trigger] v.opaque_at(x, y, z) == medium.spec_opaque(x, y, z)
            && v.emission_at(x, y, z) == medium.spec_emission(x, y, z)
}

/// Compute block and sky light for any [`LightMedium`]: the medium is read
/// once into a [`LightVolume`] snapshot, which [`light_volume`] then lights.
/// A box whose cell count overflows `usize` is not read, and yields an
/// empty grid.
pub fn compute_light<M: LightMedium>(medium: &M) -> (g: LightGrid)
    ensures
        g.wf(),
        light_box_fits(medium.spec_dims()) ==> g.extent() == medium.spec_dims(),
        !light_box_fits(medium.spec_dims()) ==> g.extent() == (0usize, 0usize, 0usize),
        exists|v: LightVolume|
            v.extent() == g.extent() && snapshot_of(v, medium) && #[trigger] least_lit(&v, false, g.block_seq())
                && least_lit(&v, true, g.sky_seq()),
{
    let (w, h, d) = medium.dims();
    let n = match w.checked_mul(h) {
        Some(wh) => wh.checked_mul(d),
        None => None,
    };
    let mut vol = if n.is_some() {
        LightVolume::new(w, h, d)
    } else {
        LightVolume::new(0, 0, 0)
    };
    let (vw, vh, vd) = vol.dims();
    proof {
        if n.is_some() {
            assert(light_box_fits(medium.spec_dims()));
        } else {
            assert(!light_box_fits(medium.spec_dims()));
        }
    }
    let mut y: usize = 0;
    while y < vh
        invariant
            vol.extent() == (vw, vh, vd),
            y <= vh,
            forall|x2: int, y2: int, z2: int| in_box(vol.extent(), x2, y2, z2) && (y2 < y) ==> #[trigger] vol.opaque_at(x2, y2, z2) == medium.spec_opaque(x2, y2, z2) && vol.emission_at(x2, y2, z2) == medium.spec_emission(x2, y2, z2),
        decreases vh - y,
    {
        let mut z: usize = 0;
        while z < vd
            invariant
                vol.extent() == (vw, vh, vd),
                y < vh,
                z <= vd,
                forall|x2: int, y2: int, z2: int| in_box(vol.extent(), x2, y2, z2) && (y2 < y || (y2 == y && (z2 < z || false))) ==> #[trigger] vol.opaque_at(x2, y2, z2) == medium.spec_opaque(x2, y2, z2) && vol.emission_at(x2, y2, z2) == medium.spec_emission(x2, y2, z2),
            decreases vd - z,
        {
            let mut x: usize = 0;
            while x < vw
                invariant
                    vol.extent() == (vw, vh, vd),
                    y < vh,
                    z < vd,
                    x <= vw,
                    forall|x2: int, y2: int, z2: int| in_box(vol.extent(), x2, y2, z2) && (y2 < y || (y2 == y && (z2 < z || (z2 == z && x2 < x)))) ==> #[trigger] vol.opaque_at(x2, y2, z2) == medium.spec_opaque(x2, y2, z2) && vol.emission_at(x2, y2, z2) == medium.spec_emission(x2, y2, z2),
                decreases vw - x,
            {
                let o = medium.opaque(x, y, z);
                let e = medium.emission(x, y, z);
                vol.set(x, y, z, o, e);
                x += 1;
            }
            z += 1;
        }
        y += 1;
    }
    let g = light_volume(&vol);
    proof {
        assert(snapshot_of(vol, medium));
    }
    g
}

} // verus!
