//! Crowd navigation on the horizontal `(x, z)` plane: a whole crowd heading
//! for one goal shares a single precomputed field. The goal is spread outward
//! once with a Dijkstra integration field (cost-to-goal over passable cells),
//! then frozen into a flow field in which every cell stores the step toward
//! its cheapest neighbour, so each mob reads its direction in O(1).
//!
//! Movement is 8-directional; a diagonal never squeezes past a blocked
//! corner. Costs are integers: 10 per orthogonal step, 14 per diagonal.

use vstd::prelude::*;
use vstd::arithmetic::div_mod::{
    lemma_fundamental_div_mod,
    lemma_fundamental_div_mod_converse_div,
    lemma_fundamental_div_mod_converse_mod,
    lemma_mod_bound,
    lemma_div_pos_is_pos,
};

verus! {

/// Orthogonal step cost.
pub const ORTHO: u32 = 10;

/// Diagonal step cost (about `ORTHO * sqrt(2)`).
pub const DIAG: u32 = 14;

/// Cost sentinel for "unreachable".
pub const UNREACHABLE: u32 = 0xffff_ffffu32;

/// x offset of neighbour move `k`: orthogonal moves come first, so ties
/// prefer straight steps over diagonals.
pub open spec fn nb_dx(k: int) -> int {
    if k == 0 || k == 4 || k == 5 {
        1
    } else if k == 1 || k == 6 || k == 7 {
        -1
    } else {
        0
    }
}

/// z offset of neighbour move `k`.
pub open spec fn nb_dz(k: int) -> int {
    if k == 2 || k == 4 || k == 6 {
        1
    } else if k == 3 || k == 5 || k == 7 {
        -1
    } else {
        0
    }
}

/// Step cost of neighbour move `k`.
pub open spec fn nb_step(k: int) -> int {
    if k < 4 {
        ORTHO as int
    } else {
        DIAG as int
    }
}

/// The move in the opposite direction, with the same cost.
pub open spec fn nb_rev(k: int) -> int {
    if k == 0 {
        1
    } else if k == 1 {
        0
    } else if k == 2 {
        3
    } else if k == 3 {
        2
    } else if k == 4 {
        7
    } else if k == 5 {
        6
    } else if k == 6 {
        5
    } else {
        4
    }
}

/// Neighbour move `k` as `(dx, dz, step)`.
fn neighbour(k: usize) -> (r: (i32, i32, u32))
    requires
        k < 8,
    ensures
        r.0 == nb_dx(k as int),
        r.1 == nb_dz(k as int),
        r.2 == nb_step(k as int),
{
    match k {
        0 => (1, 0, ORTHO),
        1 => (-1, 0, ORTHO),
        2 => (0, 1, ORTHO),
        3 => (0, -1, ORTHO),
        4 => (1, 1, DIAG),
        5 => (1, -1, DIAG),
        6 => (-1, 1, DIAG),
        _ => (-1, -1, DIAG),
    }
}

/// Row-major cells: `(x, z)` lies at `z * w + x`.
pub(crate) proof fn lemma_cell_in(w: int, d: int, x: int, z: int)
    requires
        0 <= x < w,
        0 <= z < d,
    ensures
        0 <= z * w + x < w * d,
{
    assert(0 <= z * w) by (nonlinear_arith)
        requires
            0 <= z,
            0 <= w,
    ;
    assert(z * w + x < w * d) by (nonlinear_arith)
        requires
            0 <= x < w,
            0 <= z < d,
    ;
}

proof fn lemma_cell_coords(w: int, d: int, i: int)
    requires
        0 < w,
        0 <= i < w * d,
    ensures
        i == (i / w) * w + i % w,
        0 <= i % w < w,
        0 <= i / w < d,
{
    lemma_fundamental_div_mod(i, w);
    lemma_mod_bound(i, w);
    lemma_div_pos_is_pos(i, w);
    assert((i / w) * w == w * (i / w)) by (nonlinear_arith);
    assert(d * w == w * d) by (nonlinear_arith);
    if i / w >= d {
        assert((i / w) * w >= d * w) by (nonlinear_arith)
            requires
                i / w >= d,
                w > 0,
        ;
        assert(false);
    }
}

pub(crate) proof fn lemma_cell_inj(w: int, x1: int, z1: int, x2: int, z2: int)
    requires
        0 <= x1 < w,
        0 <= x2 < w,
        z1 * w + x1 == z2 * w + x2,
    ensures
        x1 == x2,
        z1 == z2,
{
    let i = z1 * w + x1;
    lemma_fundamental_div_mod_converse_mod(i, w, z1, x1);
    lemma_fundamental_div_mod_converse_div(i, w, z1, x1);
    lemma_fundamental_div_mod_converse_mod(i, w, z2, x2);
    lemma_fundamental_div_mod_converse_div(i, w, z2, x2);
}

/// A passability grid over the horizontal `(x, z)` plane.
#[derive(Debug, Clone)]
pub struct NavGrid {
    w: usize,
    d: usize,
    blocked: Vec<bool>,
}

impl NavGrid {
    /// Extent along x.
    pub closed spec fn width(&self) -> int {
        self.w as int
    }

    /// Extent along z.
    pub closed spec fn depth(&self) -> int {
        self.d as int
    }

    /// Blocked flags in row-major order.
    pub closed spec fn blocked_seq(&self) -> Seq<bool> {
        self.blocked@
    }

    /// One flag per cell.
    pub open spec fn wf(&self) -> bool {
        self.blocked_seq().len() == self.width() * self.depth()
    }

    /// Row-major index of `(x, z)`.
    pub open spec fn cell(&self, x: int, z: int) -> int {
        z * self.width() + x
    }

    /// `(x, z)` lies on the grid.
    pub open spec fn in_grid(&self, x: int, z: int) -> bool {
        0 <= x < self.width() && 0 <= z < self.depth()
    }

    /// `(x, z)` lies on the grid and is passable.
    pub open spec fn open_at(&self, x: int, z: int) -> bool {
        self.in_grid(x, z) && !self.blocked_seq()[self.cell(x, z)]
    }

    /// Neighbour move `k` from `(x, z)` is allowed: it lands on a passable
    /// cell, and a diagonal squeezes past no blocked corner.
    pub open spec fn move_ok(&self, x: int, z: int, k: int) -> bool {
        &&& 0 <= k < 8
        &&& self.open_at(x + nb_dx(k), z + nb_dz(k))
        &&& (nb_dx(k) == 0 || nb_dz(k) == 0 || (self.open_at(x + nb_dx(k), z) && self.open_at(
            x,
            z + nb_dz(k),
        )))
    }

    /// A fully-open `w × d` grid.
    pub fn new(w: usize, d: usize) -> (g: Self)
        requires
            w * d <= usize::MAX,
        ensures
            g.wf(),
            g.width() == w,
            g.depth() == d,
            forall|i: int| 0 <= i < w * d ==> !g.blocked_seq()[i],
    {
        let n = w * d;
        let mut blocked: Vec<bool> = Vec::new();
        let mut i: usize = 0;
        while i < n
            invariant
                0 <= i <= n,
                blocked@.len() == i,
                forall|j: int| 0 <= j < i ==> !blocked@[j],
            decreases n - i,
        {
            blocked.push(false);
            i += 1;
        }
        Self { w, d, blocked }
    }

    /// Grid extent as `(w, d)`.
    pub fn dims(&self) -> (r: (usize, usize))
        ensures
            r.0 == self.width(),
            r.1 == self.depth(),
    {
        (self.w, self.d)
    }

    fn idx(&self, x: usize, z: usize) -> (r: usize)
        requires
            z * self.width() + x <= usize::MAX,
        ensures
            r == self.cell(x as int, z as int),
    {
        z * self.w + x
    }

    fn in_bounds(&self, x: i32, z: i32) -> (r: bool)
        ensures
            r == self.in_grid(x as int, z as int),
    {
        x >= 0 && z >= 0 && (x as usize) < self.w && (z as usize) < self.d
    }

    /// Mark the cell at row-major index `z * w + x` blocked (impassable).
    pub fn block(&mut self, x: usize, z: usize)
        requires
            old(self).wf(),
            z * old(self).width() + x < old(self).width() * old(self).depth(),
        ensures
            final(self).wf(),
            final(self).width() == old(self).width(),
            final(self).depth() == old(self).depth(),
            final(self).blocked_seq() == old(self).blocked_seq().update(
                z * old(self).width() + x,
                true,
            ),
    {
        proof {
            assert(self.blocked@.len() == self.blocked.len());
        }
        let i = self.idx(x, z);
        self.blocked.set(i, true);
    }

    /// Set the passability of the cell at row-major index `z * w + x`.
    pub fn set_blocked(&mut self, x: usize, z: usize, blocked: bool)
        requires
            old(self).wf(),
            z * old(self).width() + x < old(self).width() * old(self).depth(),
        ensures
            final(self).wf(),
            final(self).width() == old(self).width(),
            final(self).depth() == old(self).depth(),
            final(self).blocked_seq() == old(self).blocked_seq().update(
                z * old(self).width() + x,
                blocked,
            ),
    {
        proof {
            assert(self.blocked@.len() == self.blocked.len());
        }
        let i = self.idx(x, z);
        self.blocked.set(i, blocked);
    }

    /// A read reflects the last write: after `(x, z)` is set to `blocked`,
    /// it reads as blocked exactly when `blocked` is, and every other cell
    /// reads as before.
    pub proof fn lemma_blocked_after_write(
        before: &Self,
        after: &Self,
        x: int,
        z: int,
        blocked: bool,
        qx: int,
        qz: int,
    )
        requires
            before.wf(),
            before.in_grid(x, z),
            after.width() == before.width(),
            after.depth() == before.depth(),
            after.blocked_seq() == before.blocked_seq().update(z * before.width() + x, blocked),
        ensures
            qx == x && qz == z ==> after.open_at(qx, qz) == !blocked,
            !(qx == x && qz == z) ==> after.open_at(qx, qz) == before.open_at(qx, qz),
    {
        lemma_cell_in(before.width() as int, before.depth() as int, x, z);
        if before.in_grid(qx, qz) {
            lemma_cell_in(before.width() as int, before.depth() as int, qx, qz);
            if qz * before.width() + qx == z * before.width() + x {
                lemma_cell_inj(before.width() as int, qx, qz, x, z);
            }
        }
    }

    /// Whether `(x, z)` is blocked. Out-of-bounds counts as blocked.
    pub fn is_blocked(&self, x: i32, z: i32) -> (r: bool)
        requires
            self.wf(),
        ensures
            r == !self.open_at(x as int, z as int),
    {
        if !self.in_bounds(x, z) {
            return true;
        }
        proof {
            lemma_cell_in(self.width(), self.depth(), x as int, z as int);
            assert(self.blocked@.len() == self.blocked.len());
        }
        self.blocked[self.idx(x as usize, z as usize)]
    }

    /// Whether a diagonal move from `(x, z)` by `(dx, dz)` squeezes past no
    /// blocked corner: both orthogonally-adjacent cells must be open.
    fn diagonal_ok(&self, x: i32, z: i32, dx: i32, dz: i32) -> (r: bool)
        requires
            self.wf(),
            i32::MIN <= x + dx <= i32::MAX,
            i32::MIN <= z + dz <= i32::MAX,
        ensures
            r == (self.open_at(x + dx, z as int) && self.open_at(x as int, z + dz)),
    {
        !self.is_blocked(x + dx, z) && !self.is_blocked(x, z + dz)
    }
}


/// Σ of a cost vector: it only shrinks while the field relaxes.
pub open spec fn cost_sum(c: Seq<u32>) -> int
    decreases c.len(),
{
    if c.len() == 0 {
        0
    } else {
        cost_sum(c.drop_last()) + c.last()
    }
}

proof fn lemma_cost_sum_update(c: Seq<u32>, i: int, v: u32)
    requires
        0 <= i < c.len(),
    ensures
        cost_sum(c.update(i, v)) == cost_sum(c) - c[i] + v,
    decreases c.len(),
{
    if i < c.len() - 1 {
        lemma_cost_sum_update(c.drop_last(), i, v);
        assert(c.update(i, v).drop_last() =~= c.drop_last().update(i, v));
    } else {
        assert(c.update(i, v).drop_last() =~= c.drop_last());
    }
}

proof fn lemma_cost_sum_nonneg(c: Seq<u32>)
    ensures
        cost_sum(c) >= 0,
    decreases c.len(),
{
    if c.len() > 0 {
        lemma_cost_sum_nonneg(c.drop_last());
    }
}

/// The heap holds an entry for cell `i` at its current cost: its outgoing
/// moves may still be unrelaxed.
pub open spec fn pending(heap: Seq<(u32, usize)>, cost: Seq<u32>, i: int) -> bool {
    exists|j: int| 0 <= j < heap.len() && #[trigger] heap[j] == (cost[i], i as usize)
}

impl NavGrid {
    /// Row-major index of the cell that move `k` from `(x, z)` lands on.
    pub open spec fn step_cell(&self, x: int, z: int, k: int) -> int {
        self.cell(x + nb_dx(k), z + nb_dz(k))
    }

    /// Row-major index of the cell from which move `k` lands on `(x, z)`.
    pub open spec fn back_cell(&self, x: int, z: int, k: int) -> int {
        self.cell(x - nb_dx(k), z - nb_dz(k))
    }

    /// `(x, z)` is entered by allowed move `k` from a neighbour whose cost
    /// plus the step is exactly the cost of `(x, z)`.
    pub open spec fn came_from(&self, cost: Seq<u32>, x: int, z: int, k: int) -> bool {
        &&& self.in_grid(x - nb_dx(k), z - nb_dz(k))
        &&& self.move_ok(x - nb_dx(k), z - nb_dz(k), k)
        &&& cost[self.back_cell(x, z, k)] + nb_step(k) == cost[self.cell(x, z)]
    }

    /// As [`NavGrid::came_from`], with the neighbour's cost plus the step at
    /// most the cost of `(x, z)`.
    pub open spec fn came_below(&self, cost: Seq<u32>, x: int, z: int, k: int) -> bool {
        &&& self.in_grid(x - nb_dx(k), z - nb_dz(k))
        &&& self.move_ok(x - nb_dx(k), z - nb_dz(k), k)
        &&& cost[self.back_cell(x, z, k)] + nb_step(k) <= cost[self.cell(x, z)]
    }

    /// Some neighbour's cost plus its step is exactly the cost of `(x, z)`.
    pub open spec fn reached(&self, cost: Seq<u32>, x: int, z: int) -> bool {
        exists|k: int| #[trigger] self.came_from(cost, x, z, k)
    }

    /// Some neighbour's cost plus its step is at most the cost of `(x, z)`.
    pub open spec fn reached_below(&self, cost: Seq<u32>, x: int, z: int) -> bool {
        exists|k: int| #[trigger] self.came_below(cost, x, z, k)
    }

    /// Relaxing allowed move `k` out of `(x, z)` cannot lower the cost of
    /// the cell it lands on.
    pub open spec fn relaxed(&self, cost: Seq<u32>, x: int, z: int, k: int) -> bool {
        cost[self.cell(x, z)] + nb_step(k) < UNREACHABLE ==> cost[self.step_cell(x, z, k)]
            <= cost[self.cell(x, z)] + nb_step(k)
    }

    /// `cost` is the integration field toward `(tx, tz)`: the target costs 0,
    /// impassable cells are unreachable, every other finite cost is one
    /// allowed step more than some neighbour's, and no allowed step leads to
    /// a cheaper cell than its cost says. These pin each cost to the length
    /// of the cheapest allowed path to the target.
    pub open spec fn integrated(&self, tx: int, tz: int, cost: Seq<u32>) -> bool {
        &&& cost.len() == self.width() * self.depth()
        &&& cost[self.cell(tx, tz)] == 0
        &&& forall|x: int, z: int|
            self.in_grid(x, z) && !#[trigger] self.open_at(x, z) ==> cost[self.cell(x, z)]
                == UNREACHABLE
        &&& forall|x: int, z: int|
            self.in_grid(x, z) && !(x == tx && z == tz) && cost[self.cell(x, z)] != UNREACHABLE
                ==> #[trigger] self.reached(cost, x, z)
        &&& forall|x: int, z: int, k: int|
            self.in_grid(x, z) && #[trigger] self.move_ok(x, z, k) ==> self.relaxed(cost, x, z, k)
    }

    /// Allowed move `k` from `(x, z)` is the one the flow field takes: it
    /// lands on a cell cheaper than `(x, z)`, no dearer than any allowed move,
    /// and strictly cheaper than every allowed move listed before it.
    pub open spec fn best_move(&self, cost: Seq<u32>, x: int, z: int, k: int) -> bool {
        &&& self.move_ok(x, z, k)
        &&& cost[self.step_cell(x, z, k)] < cost[self.cell(x, z)]
        &&& forall|k2: int| #[trigger]
            self.move_ok(x, z, k2) ==> cost[self.step_cell(x, z, k)] <= cost[self.step_cell(
                x,
                z,
                k2,
            )]
        &&& forall|k2: int|
            0 <= k2 < k && #[trigger] self.move_ok(x, z, k2) ==> cost[self.step_cell(x, z, k)]
                < cost[self.step_cell(x, z, k2)]
    }

    /// The flow direction stored for `(x, z)`: `(0, 0)` on the target and on
    /// unreachable cells, else the offset of the best move, or `(0, 0)` when
    /// no allowed move leads to a cheaper cell.
    pub open spec fn dir_ok(&self, cost: Seq<u32>, dirs: Seq<(i8, i8)>, x: int, z: int) -> bool {
        let c = cost[self.cell(x, z)];
        let d = dirs[self.cell(x, z)];
        if c == UNREACHABLE || c == 0 {
            d == (0i8, 0i8)
        } else {
            ||| exists|k: int| #[trigger]
                self.best_move(cost, x, z, k) && d.0 == nb_dx(k) && d.1 == nb_dz(k)
            ||| (forall|k: int| #[trigger]
                self.move_ok(x, z, k) ==> cost[self.step_cell(x, z, k)] >= c) && d == (0i8, 0i8)
        }
    }

    /// The relaxation invariant: as [`NavGrid::integrated`], with finite costs
    /// only bounded below by a neighbour's, and the moves out of cells still
    /// in the heap, or of cell `(px, pz)` from move `pk` on, possibly not yet
    /// relaxed.
    spec fn relaxing(
        &self,
        tx: int,
        tz: int,
        cost: Seq<u32>,
        heap: Seq<(u32, usize)>,
        px: int,
        pz: int,
        pk: int,
    ) -> bool {
        &&& cost.len() == self.width() * self.depth()
        &&& cost[self.cell(tx, tz)] == 0
        &&& forall|x: int, z: int|
            self.in_grid(x, z) && !#[trigger] self.open_at(x, z) ==> cost[self.cell(x, z)]
                == UNREACHABLE
        &&& forall|x: int, z: int|
            self.in_grid(x, z) && !(x == tx && z == tz) && cost[self.cell(x, z)] != UNREACHABLE
                ==> #[trigger] self.reached_below(cost, x, z)
        &&& forall|x: int, z: int, k: int|
            self.in_grid(x, z) && #[trigger] self.move_ok(x, z, k) ==> pending(
                heap,
                cost,
                self.cell(x, z),
            ) || self.relaxed(cost, x, z, k) || (x == px && z == pz && k >= pk)
        &&& forall|j: int|
            0 <= j < heap.len() ==> (#[trigger] heap[j].1 as int) < cost.len() && heap[j].0
                >= cost[heap[j].1 as int] && heap[j].0 < UNREACHABLE
    }

    /// Two grid cells with the same index are the same cell.
    proof fn lemma_cell_eq(&self, x1: int, z1: int, x2: int, z2: int)
        requires
            self.in_grid(x1, z1),
            self.in_grid(x2, z2),
            self.cell(x1, z1) == self.cell(x2, z2),
        ensures
            x1 == x2,
            z1 == z2,
    {
        lemma_cell_inj(self.width(), x1, z1, x2, z2);
    }

    /// Lowering the cell that allowed move `k` from `(x, z)` lands on to one
    /// step more than `(x, z)`, and queueing it, keeps the relaxation
    /// invariant, with move `k` of `(x, z)` now relaxed.
    proof fn lemma_relax_lower(
        &self,
        tx: int,
        tz: int,
        cost: Seq<u32>,
        heap: Seq<(u32, usize)>,
        x: int,
        z: int,
        k: int,
        nc: u32,
    )
        requires
            self.wf(),
            self.relaxing(tx, tz, cost, heap, x, z, k),
            self.in_grid(x, z),
            self.move_ok(x, z, k),
            nc == cost[self.cell(x, z)] + nb_step(k),
            nc < cost[self.step_cell(x, z, k)],
            cost.len() <= usize::MAX,
            self.in_grid(tx, tz),
        ensures
            self.relaxing(
                tx,
                tz,
                cost.update(self.step_cell(x, z, k), nc),
                heap.push((nc, self.step_cell(x, z, k) as usize)),
                x,
                z,
                k + 1,
            ),
            self.step_cell(x, z, k) != self.cell(x, z),
            0 <= self.step_cell(x, z, k) < cost.len(),
    {
        let sx = x + nb_dx(k);
        let sz = z + nb_dz(k);
        let sc = self.step_cell(x, z, k);
        let c2 = cost.update(sc, nc);
        let h2 = heap.push((nc, sc as usize));
        lemma_cell_in(self.width(), self.depth(), sx, sz);
        lemma_cell_in(self.width(), self.depth(), x, z);
        lemma_cell_in(self.width(), self.depth(), tx, tz);
        if sc == self.cell(x, z) {
            self.lemma_cell_eq(sx, sz, x, z);
        }
        assert(h2[heap.len() as int] == (nc, sc as usize));
        assert forall|x2: int, z2: int|
            self.in_grid(x2, z2) && !#[trigger] self.open_at(x2, z2) implies c2[self.cell(x2, z2)]
                == UNREACHABLE by {
            lemma_cell_in(self.width(), self.depth(), x2, z2);
            if self.cell(x2, z2) == sc {
                self.lemma_cell_eq(x2, z2, sx, sz);
            }
        }
        assert forall|x2: int, z2: int|
            self.in_grid(x2, z2) && !(x2 == tx && z2 == tz) && c2[self.cell(x2, z2)] != UNREACHABLE
                implies #[trigger] self.reached_below(c2, x2, z2) by {
            lemma_cell_in(self.width(), self.depth(), x2, z2);
            if self.cell(x2, z2) == sc {
                self.lemma_cell_eq(x2, z2, sx, sz);
                assert(self.came_below(c2, x2, z2, k));
            } else {
                assert(self.reached_below(cost, x2, z2));
                let k2 = choose|k2: int| #[trigger] self.came_below(cost, x2, z2, k2);
                lemma_cell_in(self.width(), self.depth(), x2 - nb_dx(k2), z2 - nb_dz(k2));
                assert(self.came_below(c2, x2, z2, k2));
            }
        }
        assert forall|x2: int, z2: int, k2: int|
            self.in_grid(x2, z2) && #[trigger] self.move_ok(x2, z2, k2) implies pending(
                h2,
                c2,
                self.cell(x2, z2),
            ) || self.relaxed(c2, x2, z2, k2) || (x2 == x && z2 == z && k2 >= k + 1) by {
            lemma_cell_in(self.width(), self.depth(), x2, z2);
            lemma_cell_in(self.width(), self.depth(), x2 + nb_dx(k2), z2 + nb_dz(k2));
            let c = self.cell(x2, z2);
            if c == sc {
                assert(h2[heap.len() as int] == (c2[c], c as usize));
            } else if pending(heap, cost, c) {
                let j = choose|j: int| 0 <= j < heap.len() && #[trigger] heap[j] == (cost[c], c as usize);
                assert(h2[j] == (c2[c], c as usize));
            } else if self.relaxed(cost, x2, z2, k2) {
            } else if x2 == x && z2 == z && k2 == k {
                assert(self.relaxed(c2, x2, z2, k2));
            }
        }
        assert forall|j: int| 0 <= j < h2.len() implies (#[trigger] h2[j].1 as int) < c2.len()
            && h2[j].0 >= c2[h2[j].1 as int] && h2[j].0 < UNREACHABLE by {
            if j < heap.len() {
                assert(h2[j] == heap[j]);
                let e1 = heap[j].1 as int;
                assert(e1 < cost.len() && heap[j].0 >= cost[e1]);
            } else {
                assert(h2[j] == (nc, sc as usize));
            }
        }
    }

    /// Skipping move `k` of `(x, z)` keeps the relaxation invariant when the
    /// move is not allowed or already relaxed.
    proof fn lemma_relax_skip(
        &self,
        tx: int,
        tz: int,
        cost: Seq<u32>,
        heap: Seq<(u32, usize)>,
        x: int,
        z: int,
        k: int,
    )
        requires
            self.relaxing(tx, tz, cost, heap, x, z, k),
            !self.move_ok(x, z, k) || self.relaxed(cost, x, z, k),
        ensures
            self.relaxing(tx, tz, cost, heap, x, z, k + 1),
    {
    }

    /// Once every move of `(x, z)` is relaxed, no cell is exempt.
    proof fn lemma_relax_done(
        &self,
        tx: int,
        tz: int,
        cost: Seq<u32>,
        heap: Seq<(u32, usize)>,
        x: int,
        z: int,
    )
        requires
            self.relaxing(tx, tz, cost, heap, x, z, 8),
        ensures
            self.relaxing(tx, tz, cost, heap, -1, -1, 0),
    {
    }

    /// With the heap drained, the relaxation invariant is the integration
    /// field.
    proof fn lemma_relax_finished(&self, tx: int, tz: int, cost: Seq<u32>)
        requires
            self.relaxing(tx, tz, cost, Seq::<(u32, usize)>::empty(), -1, -1, 0),
        ensures
            self.integrated(tx, tz, cost),
    {
        let empty = Seq::<(u32, usize)>::empty();
        assert forall|x: int, z: int, k: int|
            self.in_grid(x, z) && #[trigger] self.move_ok(x, z, k) implies self.relaxed(cost, x, z, k) by {
            assert(!pending(empty, cost, self.cell(x, z)));
        }
        assert forall|x: int, z: int|
            self.in_grid(x, z) && !(x == tx && z == tz) && cost[self.cell(x, z)] != UNREACHABLE
                implies #[trigger] self.reached(cost, x, z) by {
            assert(self.reached_below(cost, x, z));
            let k = choose|k: int| #[trigger] self.came_below(cost, x, z, k);
            let jx = x - nb_dx(k);
            let jz = z - nb_dz(k);
            assert(self.move_ok(jx, jz, k));
            assert(self.relaxed(cost, jx, jz, k));
            assert(self.step_cell(jx, jz, k) == self.cell(x, z));
            assert(self.came_from(cost, x, z, k));
        }
    }

    /// Taking entry `m` out of the heap keeps the relaxation invariant: with
    /// no cell exempt when the entry was stale, and with the entry's cell
    /// exempt otherwise.
    proof fn lemma_relax_pop(
        &self,
        tx: int,
        tz: int,
        cost: Seq<u32>,
        heap: Seq<(u32, usize)>,
        m: int,
        px: int,
        pz: int,
    )
        requires
            self.relaxing(tx, tz, cost, heap, -1, -1, 0),
            0 <= m < heap.len(),
            cost.len() <= usize::MAX,
        ensures
            heap[m].0 != cost[heap[m].1 as int] ==> self.relaxing(
                tx,
                tz,
                cost,
                heap.update(m, heap.last()).drop_last(),
                -1,
                -1,
                0,
            ),
            self.in_grid(px, pz) && self.cell(px, pz) == heap[m].1 ==> self.relaxing(
                tx,
                tz,
                cost,
                heap.update(m, heap.last()).drop_last(),
                px,
                pz,
                0,
            ),
    {
        let h2 = heap.update(m, heap.last()).drop_last();
        assert forall|j: int| 0 <= j < h2.len() implies (#[trigger] h2[j].1 as int) < cost.len()
            && h2[j].0 >= cost[h2[j].1 as int] && h2[j].0 < UNREACHABLE by {
            if j == m {
                let e1 = heap[heap.len() - 1].1;
                assert(h2[j] == heap[heap.len() - 1]);
            } else {
                let e1 = heap[j].1;
                assert(h2[j] == heap[j]);
            }
        }
        if heap[m].0 != cost[heap[m].1 as int] {
            assert forall|x: int, z: int, k: int|
                self.in_grid(x, z) && #[trigger] self.move_ok(x, z, k) implies pending(
                    h2,
                    cost,
                    self.cell(x, z),
                ) || self.relaxed(cost, x, z, k) || (x == -1 && z == -1 && k >= 0) by {
                lemma_cell_in(self.width(), self.depth(), x, z);
                if pending(heap, cost, self.cell(x, z)) {
                    Self::lemma_pending_remove(heap, cost, m, self.cell(x, z));
                }
            }
        }
        if self.in_grid(px, pz) && self.cell(px, pz) == heap[m].1 {
            assert forall|x: int, z: int, k: int|
                self.in_grid(x, z) && #[trigger] self.move_ok(x, z, k) implies pending(
                    h2,
                    cost,
                    self.cell(x, z),
                ) || self.relaxed(cost, x, z, k) || (x == px && z == pz && k >= 0) by {
                lemma_cell_in(self.width(), self.depth(), x, z);
                if pending(heap, cost, self.cell(x, z)) && !(x == px && z == pz) {
                    if self.cell(x, z) == self.cell(px, pz) {
                        self.lemma_cell_eq(x, z, px, pz);
                    }
                    Self::lemma_pending_remove(heap, cost, m, self.cell(x, z));
                }
            }
        }
    }

    /// Taking entry `m` out of the heap keeps every cell pending that has
    /// another entry at its current cost.
    proof fn lemma_pending_remove(heap: Seq<(u32, usize)>, cost: Seq<u32>, m: int, c: int)
        requires
            0 <= m < heap.len(),
            pending(heap, cost, c),
            heap[m] != (cost[c], c as usize),
        ensures
            pending(heap.update(m, heap.last()).drop_last(), cost, c),
    {
        let h2 = heap.update(m, heap.last()).drop_last();
        let j = choose|j: int| 0 <= j < heap.len() && #[trigger] heap[j] == (cost[c], c as usize);
        if j == heap.len() - 1 {
            assert(h2[m] == heap[j]);
        } else {
            assert(h2[j] == heap[j]);
        }
    }
}


/// A precomputed navigation field toward a fixed target on a [`NavGrid`]:
/// the per-cell cost-to-goal (the integration field) and the derived step
/// direction (the flow field).
#[derive(Debug)]
pub struct FlowField {
    w: usize,
    d: usize,
    target: (usize, usize),
    cost: Vec<u32>,
    dir: Vec<(i8, i8)>,
}

impl FlowField {
    /// One cost and one direction per cell.
    #[verifier::type_invariant]
    spec fn shaped(&self) -> bool {
        &&& self.cost@.len() == self.w * self.d
        &&& self.dir@.len() == self.w * self.d
    }

    /// Extent along x.
    pub closed spec fn width(&self) -> int {
        self.w as int
    }

    /// Extent along z.
    pub closed spec fn depth(&self) -> int {
        self.d as int
    }

    /// The target cell.
    pub closed spec fn target_cell(&self) -> (usize, usize) {
        self.target
    }

    /// Cost-to-goal per cell, row-major; [`UNREACHABLE`] where the target
    /// cannot be reached.
    pub closed spec fn cost_seq(&self) -> Seq<u32> {
        self.cost@
    }

    /// Step direction per cell, row-major.
    pub closed spec fn dir_seq(&self) -> Seq<(i8, i8)> {
        self.dir@
    }

    /// Row-major index of `(x, z)`.
    pub open spec fn cell(&self, x: int, z: int) -> int {
        z * self.width() + x
    }

    /// Compute the flow field steering every reachable cell toward `target`.
    /// If the target is out of bounds or blocked, the field is entirely
    /// unreachable.
    pub fn toward(grid: &NavGrid, target: (usize, usize)) -> (f: Self)
        requires
            grid.wf(),
            grid.width() < 0x7fff_ffff,
            grid.depth() < 0x7fff_ffff,
        ensures
            f.width() == grid.width(),
            f.depth() == grid.depth(),
            f.target_cell() == target,
            f.cost_seq().len() == grid.width() * grid.depth(),
            f.dir_seq().len() == grid.width() * grid.depth(),
            grid.open_at(target.0 as int, target.1 as int) ==> grid.integrated(
                target.0 as int,
                target.1 as int,
                f.cost_seq(),
            ),
            grid.open_at(target.0 as int, target.1 as int) ==> forall|x: int, z: int|
                grid.in_grid(x, z) ==> #[trigger] grid.dir_ok(f.cost_seq(), f.dir_seq(), x, z),
            !grid.open_at(target.0 as int, target.1 as int) ==> forall|i: int|
                0 <= i < grid.width() * grid.depth() ==> f.cost_seq()[i] == UNREACHABLE
                    && f.dir_seq()[i] == (0i8, 0i8),
    {
        let (w, d) = grid.dims();
        let n = grid.blocked.len();
        let mut cost: Vec<u32> = Vec::new();
        let mut dir: Vec<(i8, i8)> = Vec::new();
        let mut i: usize = 0;
        while i < n
            invariant
                0 <= i <= n,
                cost@.len() == i,
                dir@.len() == i,
                forall|j: int| 0 <= j < i ==> cost@[j] == UNREACHABLE && dir@[j] == (0i8, 0i8),
            decreases n - i,
        {
            cost.push(UNREACHABLE);
            dir.push((0, 0));
            i += 1;
        }
        let (tx, tz) = target;
        let valid_target = tx < w && tz < d && !grid.is_blocked(tx as i32, tz as i32);
        if valid_target {
            Self::integrate(grid, target, &mut cost);
            Self::derive_directions(grid, &cost, &mut dir);
        }
        Self { w, d, target, cost, dir }
    }

    /// The target this field steers toward.
    pub fn target(&self) -> (r: (usize, usize))
        ensures
            r == self.target_cell(),
    {
        self.target
    }

    fn idx(&self, x: usize, z: usize) -> (r: Option<usize>)
        ensures
            r == (if x < self.width() && z < self.depth() {
                Some(self.cell(x as int, z as int) as usize)
            } else {
                None::<usize>
            }),
            r matches Some(i) ==> i == self.cell(x as int, z as int) && (i as int) < self.cost_seq().len()
                && (i as int) < self.dir_seq().len(),
    {
        proof {
            use_type_invariant(self);
            assert(self.cost@.len() == self.cost.len());
        }
        if x < self.w && z < self.d {
            proof {
                lemma_cell_in(self.w as int, self.d as int, x as int, z as int);
            }
            Some(z * self.w + x)
        } else {
            None
        }
    }

    /// Whether `(x, z)` can reach the target.
    pub fn reachable(&self, x: usize, z: usize) -> (r: bool)
        ensures
            r == (x < self.width() && z < self.depth() && self.cost_seq()[self.cell(x as int, z as int)]
                != UNREACHABLE),
    {
        match self.idx(x, z) {
            Some(i) => self.cost[i] != UNREACHABLE,
            None => false,
        }
    }

    /// Cost-to-goal at `(x, z)`, or `None` if unreachable or out of bounds.
    pub fn cost(&self, x: usize, z: usize) -> (r: Option<u32>)
        ensures
            r == (if x < self.width() && z < self.depth() && self.cost_seq()[self.cell(
                x as int,
                z as int,
            )] != UNREACHABLE {
                Some(self.cost_seq()[self.cell(x as int, z as int)])
            } else {
                None::<u32>
            }),
    {
        match self.idx(x, z) {
            Some(i) => {
                if self.cost[i] != UNREACHABLE {
                    Some(self.cost[i])
                } else {
                    None
                }
            },
            None => None,
        }
    }

    /// The step direction at `(x, z)` as `(dx, dz)` in `{-1, 0, 1}`:
    /// `Some((0, 0))` on the target, `None` if the cell is blocked,
    /// unreachable or out of bounds.
    pub fn dir(&self, x: usize, z: usize) -> (r: Option<(i8, i8)>)
        ensures
            r == (if x < self.width() && z < self.depth() && self.cost_seq()[self.cell(
                x as int,
                z as int,
            )] != UNREACHABLE {
                Some(self.dir_seq()[self.cell(x as int, z as int)])
            } else {
                None::<(i8, i8)>
            }),
    {
        match self.idx(x, z) {
            Some(i) => {
                if self.cost[i] != UNREACHABLE {
                    Some(self.dir[i])
                } else {
                    None
                }
            },
            None => None,
        }
    }

    /// Dijkstra outward from the target, filling the cost-to-goal field.
    fn integrate(grid: &NavGrid, target: (usize, usize), cost: &mut Vec<u32>)
        requires
            grid.wf(),
            grid.width() < 0x7fff_ffff,
            grid.depth() < 0x7fff_ffff,
            grid.open_at(target.0 as int, target.1 as int),
            old(cost)@.len() == grid.width() * grid.depth(),
            forall|i: int| 0 <= i < old(cost)@.len() ==> old(cost)@[i] == UNREACHABLE,
        ensures
            grid.integrated(target.0 as int, target.1 as int, final(cost)@),
    {
        let (w, d) = grid.dims();
        let ghost tx = target.0 as int;
        let ghost tz = target.1 as int;
        proof {
            lemma_cell_in(w as int, d as int, tx, tz);
            assert(cost@.len() == cost.len());
        }
        let ti = target.1 * w + target.0;
        cost.set(ti, 0);
        let mut heap: Vec<(u32, usize)> = Vec::new();
        heap.push((0, ti));
        proof {
            assert(heap@[0] == (0u32, ti));
            assert forall|x: int, z: int|
                grid.in_grid(x, z) && !#[trigger] grid.open_at(x, z) implies cost@[grid.cell(x, z)]
                    == UNREACHABLE by {
                lemma_cell_in(w as int, d as int, x, z);
                if grid.cell(x, z) == ti {
                    grid.lemma_cell_eq(x, z, tx, tz);
                }
            }
            assert forall|x: int, z: int|
                grid.in_grid(x, z) && !(x == tx && z == tz) && cost@[grid.cell(x, z)] != UNREACHABLE
                    implies #[trigger] grid.reached_below(cost@, x, z) by {
                lemma_cell_in(w as int, d as int, x, z);
                if grid.cell(x, z) == ti {
                    grid.lemma_cell_eq(x, z, tx, tz);
                }
            }
            assert forall|x: int, z: int, k: int|
                grid.in_grid(x, z) && #[trigger] grid.move_ok(x, z, k) implies pending(
                    heap@,
                    cost@,
                    grid.cell(x, z),
                ) || grid.relaxed(cost@, x, z, k) || (x == -1 && z == -1 && k >= 0) by {
                lemma_cell_in(w as int, d as int, x, z);
                if grid.cell(x, z) == ti {
                    assert(heap@[0] == (cost@[grid.cell(x, z)], grid.cell(x, z) as usize));
                }
            }
        }
        loop
            invariant
                grid.wf(),
                w == grid.width(),
                d == grid.depth(),
                w < 0x7fff_ffff,
                d < 0x7fff_ffff,
                grid.in_grid(tx, tz),
                tx == target.0,
                tz == target.1,
                cost@.len() == w * d,
                cost@.len() <= usize::MAX,
                grid.relaxing(tx, tz, cost@, heap@, -1, -1, 0),
            ensures
                heap@.len() == 0,
            decreases cost_sum(cost@), heap@.len(),
        {
            if heap.len() == 0 {
                break;
            }
            proof {
                lemma_cost_sum_nonneg(cost@);
            }
            let ghost s0 = cost_sum(cost@);
            let ghost hl0 = heap@.len();
            let mut m: usize = 0;
            let mut j: usize = 1;
            while j < heap.len()
                invariant
                    0 <= m < heap@.len(),
                    1 <= j <= heap@.len(),
                    forall|q: int| 0 <= q < j ==> heap@[m as int].0 <= heap@[q].0,
                decreases heap@.len() - j,
            {
                if heap[j].0 < heap[m].0 {
                    m = j;
                }
                j += 1;
            }
            let ghost h0 = heap@;
            proof {
                let e1 = h0[m as int].1;
                assert((e1 as int) < cost@.len());
            }
            let (c, i) = heap.swap_remove(m);
            proof {
                grid.lemma_relax_pop(tx, tz, cost@, h0, m as int, -1, -1);
            }
            if c > cost[i] {
                continue;
            }
            proof {
                lemma_cell_coords(w as int, d as int, i as int);
            }
            let x = (i % w) as i32;
            let z = (i / w) as i32;
            proof {
                grid.lemma_relax_pop(tx, tz, cost@, h0, m as int, x as int, z as int);
            }
            let mut k: usize = 0;
            while k < 8
                invariant
                    grid.wf(),
                    w == grid.width(),
                    d == grid.depth(),
                    w < 0x7fff_ffff,
                    d < 0x7fff_ffff,
                    grid.in_grid(tx, tz),
                    cost@.len() == w * d,
                    cost@.len() <= usize::MAX,
                    grid.relaxing(tx, tz, cost@, heap@, x as int, z as int, k as int),
                    grid.in_grid(x as int, z as int),
                    grid.cell(x as int, z as int) == i,
                    (i as int) < cost@.len(),
                    cost@[i as int] == c,
                    c < UNREACHABLE,
                    0 <= k <= 8,
                    cost_sum(cost@) <= s0,
                    cost_sum(cost@) == s0 ==> heap@.len() < hl0,
                decreases 8 - k,
            {
                let (dx, dz, step) = neighbour(k);
                let nx = x + dx;
                let nz = z + dz;
                if grid.is_blocked(nx, nz) {
                    proof {
                        grid.lemma_relax_skip(tx, tz, cost@, heap@, x as int, z as int, k as int);
                    }
                } else if dx != 0 && dz != 0 && !grid.diagonal_ok(x, z, dx, dz) {
                    proof {
                        grid.lemma_relax_skip(tx, tz, cost@, heap@, x as int, z as int, k as int);
                    }
                } else if c < UNREACHABLE - step {
                    proof {
                        lemma_cell_in(w as int, d as int, nx as int, nz as int);
                    }
                    let ni = (nz as usize) * w + (nx as usize);
                    proof {
                        assert(ni as int == grid.step_cell(x as int, z as int, k as int));
                    }
                    let nc = c + step;
                    if nc < cost[ni] {
                        proof {
                            grid.lemma_relax_lower(tx, tz, cost@, heap@, x as int, z as int, k as int, nc);
                            lemma_cost_sum_update(cost@, ni as int, nc);
                        }
                        cost.set(ni, nc);
                        heap.push((nc, ni));
                    } else {
                        proof {
                            grid.lemma_relax_skip(tx, tz, cost@, heap@, x as int, z as int, k as int);
                        }
                    }
                } else {
                    proof {
                        grid.lemma_relax_skip(tx, tz, cost@, heap@, x as int, z as int, k as int);
                    }
                }
                k += 1;
            }
            proof {
                grid.lemma_relax_done(tx, tz, cost@, heap@, x as int, z as int);
                lemma_cost_sum_nonneg(cost@);
            }
        }
        proof {
            assert(heap@ =~= Seq::<(u32, usize)>::empty());
            grid.lemma_relax_finished(tx, tz, cost@);
        }
    }

    /// For every reachable cell, pick the neighbour with the lowest cost and
    /// store the step toward it.
    fn derive_directions(grid: &NavGrid, cost: &Vec<u32>, dir: &mut Vec<(i8, i8)>)
        requires
            grid.wf(),
            grid.width() < 0x7fff_ffff,
            grid.depth() < 0x7fff_ffff,
            cost@.len() == grid.width() * grid.depth(),
            old(dir)@.len() == cost@.len(),
            forall|i: int| 0 <= i < old(dir)@.len() ==> old(dir)@[i] == (0i8, 0i8),
        ensures
            final(dir)@.len() == cost@.len(),
            forall|x: int, z: int| grid.in_grid(x, z) ==> #[trigger] grid.dir_ok(cost@, final(dir)@, x, z),
    {
        let (w, d) = grid.dims();
        let n = cost.len();
        let mut i: usize = 0;
        while i < n
            invariant
                grid.wf(),
                w == grid.width(),
                d == grid.depth(),
                w < 0x7fff_ffff,
                d < 0x7fff_ffff,
                n == cost@.len(),
                n == w * d,
                dir@.len() == n,
                0 <= i <= n,
                forall|j: int| i <= j < n ==> dir@[j] == (0i8, 0i8),
                forall|x: int, z: int|
                    grid.in_grid(x, z) && grid.cell(x, z) < i ==> #[trigger] grid.dir_ok(cost@, dir@, x, z),
            decreases n - i,
        {
            proof {
                assert(0 < w as int) by (nonlinear_arith)
                    requires
                        0 <= i as int,
                        (i as int) < (w as int) * (d as int),
                ;
                lemma_cell_coords(w as int, d as int, i as int);
            }
            let ghost dir0 = dir@;
            let x = (i % w) as i32;
            let z = (i / w) as i32;
            let ci = cost[i];
            if ci != UNREACHABLE && ci != 0 {
                let mut best = ci;
                let mut best_dir: (i8, i8) = (0, 0);
                let ghost mut bk: int = -1;
                let mut k: usize = 0;
                while k < 8
                    invariant
                        grid.wf(),
                        w == grid.width(),
                        d == grid.depth(),
                        w < 0x7fff_ffff,
                        d < 0x7fff_ffff,
                        n == cost@.len(),
                        n == w * d,
                        grid.in_grid(x as int, z as int),
                        grid.cell(x as int, z as int) == i,
                        ci == cost@[i as int],
                        0 <= k <= 8,
                        bk == -1 ==> best == ci && best_dir == (0i8, 0i8) && forall|k2: int|
                            0 <= k2 < k && #[trigger] grid.move_ok(x as int, z as int, k2) ==> cost@[grid.step_cell(
                                x as int,
                                z as int,
                                k2,
                            )] >= ci,
                        bk != -1 ==> 0 <= bk < k && grid.move_ok(x as int, z as int, bk) && best == cost@[grid.step_cell(
                            x as int,
                            z as int,
                            bk,
                        )] && best < ci && best_dir.0 == nb_dx(bk) && best_dir.1 == nb_dz(bk) && (forall|k2: int|
                            0 <= k2 < bk && #[trigger] grid.move_ok(x as int, z as int, k2) ==> cost@[grid.step_cell(
                                x as int,
                                z as int,
                                k2,
                            )] > best) && (forall|k2: int|
                            bk <= k2 < k && #[trigger] grid.move_ok(x as int, z as int, k2) ==> cost@[grid.step_cell(
                                x as int,
                                z as int,
                                k2,
                            )] >= best),
                    decreases 8 - k,
                {
                    let (dx, dz, _step) = neighbour(k);
                    let nx = x + dx;
                    let nz = z + dz;
                    if !grid.is_blocked(nx, nz) && !(dx != 0 && dz != 0 && !grid.diagonal_ok(x, z, dx, dz)) {
                        proof {
                            lemma_cell_in(w as int, d as int, nx as int, nz as int);
                        }
                        let ni = (nz as usize) * w + (nx as usize);
                        proof {
                            assert(ni as int == grid.step_cell(x as int, z as int, k as int));
                        }
                        let nc = cost[ni];
                        if nc < best {
                            best = nc;
                            best_dir = (dx as i8, dz as i8);
                            proof {
                                bk = k as int;
                            }
                        }
                    }
                    k += 1;
                }
                dir.set(i, best_dir);
                proof {
                    if bk != -1 {
                        assert(grid.best_move(cost@, x as int, z as int, bk));
                    }
                }
            }
            proof {
                assert forall|x2: int, z2: int|
                    grid.in_grid(x2, z2) && grid.cell(x2, z2) < i + 1 implies #[trigger] grid.dir_ok(
                    cost@,
                    dir@,
                    x2,
                    z2,
                ) by {
                    lemma_cell_in(w as int, d as int, x2, z2);
                    if grid.cell(x2, z2) == i {
                        grid.lemma_cell_eq(x2, z2, x as int, z as int);
                        if ci == UNREACHABLE || ci == 0 {
                            assert(dir@[i as int] == (0i8, 0i8));
                        }
                    } else {
                        assert(grid.dir_ok(cost@, dir0, x2, z2));
                        assert(dir@[grid.cell(x2, z2)] == dir0[grid.cell(x2, z2)]);
                    }
                }
            }
            i += 1;
        }
        proof {
            assert forall|x: int, z: int| grid.in_grid(x, z) implies #[trigger] grid.dir_ok(cost@, dir@, x, z) by {
                lemma_cell_in(w as int, d as int, x, z);
            }
        }
    }
}


impl NavGrid {
    /// The walk making moves `moves` from `(x, z)` takes only allowed moves.
    pub open spec fn walk_ok(&self, x: int, z: int, moves: Seq<int>) -> bool
        decreases moves.len(),
    {
        moves.len() == 0 || (self.move_ok(x, z, moves[0]) && self.walk_ok(
            x + nb_dx(moves[0]),
            z + nb_dz(moves[0]),
            moves.drop_first(),
        ))
    }

    /// Where the walk making moves `moves` from `(x, z)` ends.
    pub open spec fn walk_end(&self, x: int, z: int, moves: Seq<int>) -> (int, int)
        decreases moves.len(),
    {
        if moves.len() == 0 {
            (x, z)
        } else {
            self.walk_end(x + nb_dx(moves[0]), z + nb_dz(moves[0]), moves.drop_first())
        }
    }

    /// Where following the stored directions `dirs` for `n` steps from
    /// `(x, z)` leads.
    pub open spec fn follow(&self, dirs: Seq<(i8, i8)>, x: int, z: int, n: nat) -> (int, int)
        decreases n,
    {
        if n == 0 {
            (x, z)
        } else {
            let d = dirs[self.cell(x, z)];
            self.follow(dirs, x + d.0, z + d.1, (n - 1) as nat)
        }
    }

    /// A move can be undone by the opposite move, at the same cost, when the
    /// cell it starts from is open.
    proof fn lemma_move_rev(&self, x: int, z: int, k: int)
        requires
            self.move_ok(x, z, k),
            self.open_at(x, z),
        ensures
            self.move_ok(x + nb_dx(k), z + nb_dz(k), nb_rev(k)),
            self.step_cell(x + nb_dx(k), z + nb_dz(k), nb_rev(k)) == self.cell(x, z),
            nb_step(nb_rev(k)) == nb_step(k),
    {
    }

    /// Every allowed walk from an open cell to the target costs at least the
    /// cell's integrated cost: the field holds cheapest-path distances.
    pub proof fn lemma_cost_is_least(&self, tx: int, tz: int, cost: Seq<u32>, x: int, z: int, moves: Seq<int>)
        requires
            self.wf(),
            self.integrated(tx, tz, cost),
            self.open_at(x, z),
            self.walk_ok(x, z, moves),
            self.walk_end(x, z, moves) == (tx, tz),
            walk_cost(moves) < UNREACHABLE,
        ensures
            cost[self.cell(x, z)] <= walk_cost(moves),
        decreases moves.len(),
    {
        if moves.len() == 0 {
        } else {
            let k = moves[0];
            let nx = x + nb_dx(k);
            let nz = z + nb_dz(k);
            lemma_walk_cost_nonneg(moves.drop_first());
            self.lemma_cost_is_least(tx, tz, cost, nx, nz, moves.drop_first());
            self.lemma_move_rev(x, z, k);
            assert(self.move_ok(nx, nz, nb_rev(k)));
            assert(self.relaxed(cost, nx, nz, nb_rev(k)));
        }
    }

    /// On every reachable cell but the target, the flow field points along
    /// an allowed move (never through a blocked corner) to a strictly cheaper
    /// cell.
    pub proof fn lemma_flow_descends(
        &self,
        tx: int,
        tz: int,
        cost: Seq<u32>,
        dirs: Seq<(i8, i8)>,
        x: int,
        z: int,
    ) -> (k: int)
        requires
            self.wf(),
            self.integrated(tx, tz, cost),
            self.in_grid(x, z),
            self.dir_ok(cost, dirs, x, z),
            !(x == tx && z == tz),
            cost[self.cell(x, z)] != UNREACHABLE,
        ensures
            self.move_ok(x, z, k),
            dirs[self.cell(x, z)].0 == nb_dx(k),
            dirs[self.cell(x, z)].1 == nb_dz(k),
            cost[self.step_cell(x, z, k)] < cost[self.cell(x, z)],
    {
        assert(self.reached(cost, x, z));
        let k0 = choose|k0: int| #[trigger] self.came_from(cost, x, z, k0);
        let jx = x - nb_dx(k0);
        let jz = z - nb_dz(k0);
        if !self.open_at(jx, jz) {
            assert(cost[self.cell(jx, jz)] == UNREACHABLE);
        }
        self.lemma_move_rev(jx, jz, k0);
        let r = nb_rev(k0);
        assert(self.move_ok(x, z, r));
        assert(cost[self.step_cell(x, z, r)] < cost[self.cell(x, z)]);
        let k = choose|k: int|
            #[trigger] self.best_move(cost, x, z, k) && dirs[self.cell(x, z)].0 == nb_dx(k)
                && dirs[self.cell(x, z)].1 == nb_dz(k);
        k
    }

    proof fn lemma_follow_target(&self, dirs: Seq<(i8, i8)>, tx: int, tz: int, n: nat)
        requires
            dirs[self.cell(tx, tz)] == (0i8, 0i8),
        ensures
            self.follow(dirs, tx, tz, n) == (tx, tz),
        decreases n,
    {
        if n > 0 {
            self.lemma_follow_target(dirs, tx, tz, (n - 1) as nat);
        }
    }

    proof fn lemma_follow_split(&self, dirs: Seq<(i8, i8)>, x: int, z: int, a: nat, b: nat)
        ensures
            self.follow(dirs, x, z, a + b) == self.follow(
                dirs,
                self.follow(dirs, x, z, a).0,
                self.follow(dirs, x, z, a).1,
                b,
            ),
        decreases a,
    {
        if a > 0 {
            let d = dirs[self.cell(x, z)];
            self.lemma_follow_split(dirs, x + d.0, z + d.1, (a - 1) as nat, b);
            assert((a + b - 1) as nat == ((a - 1) as nat + b) as nat);
        }
    }

    /// Following the flow field from any reachable cell leads to the target,
    /// in at most as many steps as the cell's cost.
    pub proof fn lemma_flow_reaches_target(
        &self,
        tx: int,
        tz: int,
        cost: Seq<u32>,
        dirs: Seq<(i8, i8)>,
        x: int,
        z: int,
    )
        requires
            self.wf(),
            self.integrated(tx, tz, cost),
            self.in_grid(tx, tz),
            forall|x2: int, z2: int| self.in_grid(x2, z2) ==> #[trigger] self.dir_ok(cost, dirs, x2, z2),
            self.in_grid(x, z),
            cost[self.cell(x, z)] != UNREACHABLE,
        ensures
            self.follow(dirs, x, z, cost[self.cell(x, z)] as nat) == (tx, tz),
        decreases cost[self.cell(x, z)],
    {
        assert(self.dir_ok(cost, dirs, tx, tz));
        if x == tx && z == tz {
            self.lemma_follow_target(dirs, tx, tz, cost[self.cell(x, z)] as nat);
        } else {
            assert(self.dir_ok(cost, dirs, x, z));
            let k = self.lemma_flow_descends(tx, tz, cost, dirs, x, z);
            let nx = x + nb_dx(k);
            let nz = z + nb_dz(k);
            let c = cost[self.cell(x, z)] as nat;
            let cn = cost[self.cell(nx, nz)] as nat;
            self.lemma_flow_reaches_target(tx, tz, cost, dirs, nx, nz);
            self.lemma_follow_split(dirs, nx, nz, cn, (c - 1 - cn) as nat);
            self.lemma_follow_target(dirs, tx, tz, (c - 1 - cn) as nat);
            assert((cn + (c - 1 - cn) as nat) as nat == (c - 1) as nat);
        }
    }
}

/// Total step cost of a sequence of moves.
pub open spec fn walk_cost(moves: Seq<int>) -> int
    decreases moves.len(),
{
    if moves.len() == 0 {
        0
    } else {
        nb_step(moves[0]) + walk_cost(moves.drop_first())
    }
}

proof fn lemma_walk_cost_nonneg(moves: Seq<int>)
    ensures
        walk_cost(moves) >= 0,
    decreases moves.len(),
{
    if moves.len() > 0 {
        lemma_walk_cost_nonneg(moves.drop_first());
    }
}


impl Clone for FlowField {
    fn clone(&self) -> (r: Self)
        ensures
            r.width() == self.width(),
            r.depth() == self.depth(),
            r.target_cell() == self.target_cell(),
            r.cost_seq() == self.cost_seq(),
            r.dir_seq() == self.dir_seq(),
    {
        proof {
            use_type_invariant(self);
        }
        let cost = self.cost.clone();
        let mut dir: Vec<(i8, i8)> = Vec::new();
        let mut i: usize = 0;
        while i < self.dir.len()
            invariant
                0 <= i <= self.dir@.len(),
                dir@ == self.dir@.take(i as int),
            decreases self.dir@.len() - i,
        {
            dir.push(self.dir[i]);
            i += 1;
            proof {
                assert(dir@ =~= self.dir@.take(i as int));
            }
        }
        proof {
            assert(cost@ =~= self.cost@);
            assert(dir@ =~= self.dir@);
        }
        FlowField { w: self.w, d: self.d, target: self.target, cost, dir }
    }
}

} // verus!
