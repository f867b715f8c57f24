//! A compiled, graph-based redstone engine: a network is compiled once into
//! a directed dependency graph in contiguous CSR arrays, then its
//! steady-state power is computed by a bounded worklist relaxation.
//!
//! Signal model: a **source** holds a fixed level; a **wire** carries the
//! strongest signal reaching it, losing one level per wire→wire hop; a
//! **repeater** re-boosts any positive input to 15; a **lamp** is a sink that
//! is lit when powered.

use vstd::prelude::*;
use std::collections::VecDeque;

verus! {

/// Maximum redstone signal strength.
pub const MAX_POWER: u8 = 15;

/// A node in the dependency graph.
#[derive(Debug, Clone, Copy, PartialEq, Eq, Structural)]
pub enum NodeKind {
    /// A fixed power source (lever, redstone block, torch).
    Source,
    /// Redstone wire/dust.
    Wire,
    /// A repeater/diode: re-boosts any positive input to [`MAX_POWER`].
    Repeater,
    /// A powered device (lamp, piston, …): a sink.
    Lamp,
}

/// A handle to a node in a [`RedstoneGraph`].
#[derive(Debug, Clone, Copy, PartialEq, Eq, Structural, Hash, PartialOrd, Ord)]
pub struct NodeId(pub u32);

impl NodeId {
    /// The raw index.
    pub fn index(self) -> (r: usize)
        ensures
            r == self.0,
    {
        self.0 as usize
    }
}

/// Signal a sender of kind `sender` and power `power` delivers to a receiver
/// of kind `receiver`: only wire → wire hops lose a level; lamps send nothing.
pub open spec fn delivered_spec(sender: NodeKind, power: u8, receiver: NodeKind) -> u8 {
    match sender {
        NodeKind::Source | NodeKind::Repeater => power,
        NodeKind::Lamp => 0,
        NodeKind::Wire => if receiver == NodeKind::Wire {
            if power > 0 { (power - 1) as u8 } else { 0 }
        } else {
            power
        },
    }
}

/// Power a receiver of `kind` takes from an incoming signal `cand`.
pub open spec fn receive_spec(kind: NodeKind, cand: u8) -> u8 {
    match kind {
        NodeKind::Repeater => if cand > 0 { 15 } else { 0 },
        NodeKind::Wire | NodeKind::Lamp => cand,
        NodeKind::Source => 0,
    }
}

/// Builds a redstone network, then compiles it into a [`RedstoneGraph`].
#[derive(Debug, Clone)]
pub struct RedstoneGraphBuilder {
    kinds: Vec<NodeKind>,
    levels: Vec<u8>,
    edges: Vec<(u32, u32)>,
}

impl RedstoneGraphBuilder {
    /// One level per node, each at most [`MAX_POWER`].
    pub closed spec fn wf(&self) -> bool {
        &&& self.kinds@.len() == self.levels@.len()
        &&& forall|i: int| 0 <= i < self.levels@.len() ==> self.levels@[i] <= 15
    }

    /// Node kinds, in id order.
    pub closed spec fn kind_seq(&self) -> Seq<NodeKind> {
        self.kinds@
    }

    /// Source levels (0 for other kinds), in id order.
    pub closed spec fn level_seq(&self) -> Seq<u8> {
        self.levels@
    }

    /// Directed links `(from, to)`, in the order added.
    pub closed spec fn edge_seq(&self) -> Seq<(u32, u32)> {
        self.edges@
    }

    /// A new, empty builder.
    pub fn new() -> (r: Self)
        ensures
            r.wf(),
            r.kind_seq() == Seq::<NodeKind>::empty(),
            r.level_seq() == Seq::<u8>::empty(),
            r.edge_seq() == Seq::<(u32, u32)>::empty(),
    {
        Self { kinds: Vec::new(), levels: Vec::new(), edges: Vec::new() }
    }

    fn push(&mut self, kind: NodeKind, level: u8) -> (id: NodeId)
        requires
            old(self).wf(),
        ensures
            final(self).wf(),
            id == NodeId(old(self).kind_seq().len() as u32),
            final(self).kind_seq() == old(self).kind_seq().push(kind),
            final(self).level_seq() == old(self).level_seq().push(if level > 15 { 15u8 } else { level }),
            final(self).edge_seq() == old(self).edge_seq(),
    {
        let id = NodeId(self.kinds.len() as u32);
        self.kinds.push(kind);
        self.levels.push(if level > MAX_POWER { MAX_POWER } else { level });
        id
    }

    /// Add a fixed power source holding `level` (clamped to `0..=15`).
    pub fn add_source(&mut self, level: u8) -> (id: NodeId)
        requires
            old(self).wf(),
        ensures
            final(self).wf(),
            id == NodeId(old(self).kind_seq().len() as u32),
            final(self).kind_seq() == old(self).kind_seq().push(NodeKind::Source),
            final(self).level_seq() == old(self).level_seq().push(if level > 15 { 15u8 } else { level }),
            final(self).edge_seq() == old(self).edge_seq(),
    {
        self.push(NodeKind::Source, level)
    }

    /// Add a wire node.
    pub fn add_wire(&mut self) -> (id: NodeId)
        requires
            old(self).wf(),
        ensures
            final(self).wf(),
            id == NodeId(old(self).kind_seq().len() as u32),
            final(self).kind_seq() == old(self).kind_seq().push(NodeKind::Wire),
            final(self).level_seq() == old(self).level_seq().push(0u8),
            final(self).edge_seq() == old(self).edge_seq(),
    {
        self.push(NodeKind::Wire, 0)
    }

    /// Add a repeater (diode) node.
    pub fn add_repeater(&mut self) -> (id: NodeId)
        requires
            old(self).wf(),
        ensures
            final(self).wf(),
            id == NodeId(old(self).kind_seq().len() as u32),
            final(self).kind_seq() == old(self).kind_seq().push(NodeKind::Repeater),
            final(self).level_seq() == old(self).level_seq().push(0u8),
            final(self).edge_seq() == old(self).edge_seq(),
    {
        self.push(NodeKind::Repeater, 0)
    }

    /// Add a lamp (sink) node.
    pub fn add_lamp(&mut self) -> (id: NodeId)
        requires
            old(self).wf(),
        ensures
            final(self).wf(),
            id == NodeId(old(self).kind_seq().len() as u32),
            final(self).kind_seq() == old(self).kind_seq().push(NodeKind::Lamp),
            final(self).level_seq() == old(self).level_seq().push(0u8),
            final(self).edge_seq() == old(self).edge_seq(),
    {
        self.push(NodeKind::Lamp, 0)
    }

    /// Add a directed link: `from` feeds `to`.
    pub fn link(&mut self, from: NodeId, to: NodeId)
        ensures
            final(self).kind_seq() == old(self).kind_seq(),
            final(self).level_seq() == old(self).level_seq(),
            final(self).edge_seq() == old(self).edge_seq().push((from.0, to.0)),
            old(self).wf() ==> final(self).wf(),
    {
        self.edges.push((from.0, to.0));
    }

    /// Add links in both directions — two-way redstone dust.
    pub fn link_both(&mut self, a: NodeId, b: NodeId)
        ensures
            final(self).kind_seq() == old(self).kind_seq(),
            final(self).level_seq() == old(self).level_seq(),
            final(self).edge_seq() == old(self).edge_seq().push((a.0, b.0)).push((b.0, a.0)),
            old(self).wf() ==> final(self).wf(),
    {
        self.link(a, b);
        self.link(b, a);
    }
}

impl Default for RedstoneGraphBuilder {
    fn default() -> (r: Self)
        ensures
            r.wf(),
            r.kind_seq() == Seq::<NodeKind>::empty(),
            r.edge_seq() == Seq::<(u32, u32)>::empty(),
    {
        Self::new()
    }
}

/// The link `u → v` is satisfied by the power vector `q`: a non-source
/// receiver holds at least what the sender delivers to it.
pub open spec fn link_ok(kinds: Seq<NodeKind>, q: Seq<u8>, u: int, v: int) -> bool {
    kinds[v] != NodeKind::Source && delivered_spec(kinds[u], q[u], kinds[v]) > 0 ==> q[v]
        >= receive_spec(kinds[v], delivered_spec(kinds[u], q[u], kinds[v]))
}

/// `q` is a steady state of the network with these nodes, source levels and
/// links: sources hold their levels and every link is satisfied.
pub open spec fn links_steady(
    kinds: Seq<NodeKind>,
    levels: Seq<u8>,
    edges: Seq<(u32, u32)>,
    q: Seq<u8>,
) -> bool {
    &&& q.len() == kinds.len()
    &&& forall|i: int| 0 <= i < kinds.len() && kinds[i] == NodeKind::Source ==> q[i] == levels[i]
    &&& forall|e: int|
        0 <= e < edges.len() ==> link_ok(kinds, q, #[trigger] edges[e].0 as int, edges[e].1 as int)
}

/// The link `link` has its target stored in its source's filled slot range
/// `offsets[from]..cursor[from]`.
pub open spec fn placed(offsets: Seq<u32>, cursor: Seq<u32>, targets: Seq<u32>, link: (u32, u32)) -> bool {
    exists|k: int|
        offsets[link.0 as int] <= k < cursor[link.0 as int] && #[trigger] targets[k] == link.1
}

/// Number of links in `edges` leaving node `u`.
pub open spec fn out_count(edges: Seq<(u32, u32)>, u: int) -> nat
    decreases edges.len(),
{
    if edges.len() == 0 {
        0
    } else {
        out_count(edges.drop_last(), u) + (if edges.last().0 as int == u {
            1nat
        } else {
            0nat
        })
    }
}

/// Number of links in `edges` leaving the nodes `0..j`.
pub open spec fn out_prefix(edges: Seq<(u32, u32)>, j: int) -> nat
    decreases j,
{
    if j <= 0 {
        0
    } else {
        out_prefix(edges, j - 1) + out_count(edges, j - 1)
    }
}

proof fn lemma_out_count_le(edges: Seq<(u32, u32)>, u: int)
    ensures
        out_count(edges, u) <= edges.len(),
    decreases edges.len(),
{
    if edges.len() > 0 {
        lemma_out_count_le(edges.drop_last(), u);
    }
}

proof fn lemma_out_count_take(edges: Seq<(u32, u32)>, i: int, u: int)
    requires
        0 <= i < edges.len(),
    ensures
        out_count(edges.take(i + 1), u) == out_count(edges.take(i), u) + (if edges[i].0 as int == u {
            1nat
        } else {
            0nat
        }),
{
    assert(edges.take(i + 1).drop_last() =~= edges.take(i));
}

proof fn lemma_out_count_take_le(edges: Seq<(u32, u32)>, i: int, u: int)
    requires
        0 <= i <= edges.len(),
    ensures
        out_count(edges.take(i), u) <= out_count(edges, u),
    decreases edges.len() - i,
{
    if i < edges.len() {
        lemma_out_count_take(edges, i, u);
        lemma_out_count_take_le(edges, i + 1, u);
    } else {
        assert(edges.take(i) =~= edges);
    }
}

proof fn lemma_out_prefix_mono(edges: Seq<(u32, u32)>, i: int, j: int)
    requires
        0 <= i <= j,
    ensures
        out_prefix(edges, i) <= out_prefix(edges, j),
    decreases j,
{
    if i < j {
        lemma_out_prefix_mono(edges, i, j - 1);
    }
}

proof fn lemma_out_prefix_push(edges: Seq<(u32, u32)>, e: (u32, u32), j: int)
    requires
        0 <= j,
    ensures
        out_prefix(edges.push(e), j) == out_prefix(edges, j) + (if (e.0 as int) < j {
            1nat
        } else {
            0nat
        }),
    decreases j,
{
    assert(edges.push(e).drop_last() =~= edges);
    if j > 0 {
        lemma_out_prefix_push(edges, e, j - 1);
    }
}

proof fn lemma_out_prefix_total(edges: Seq<(u32, u32)>, n: int)
    requires
        0 <= n,
        forall|e: int| 0 <= e < edges.len() ==> (edges[e].0 as int) < n,
    ensures
        out_prefix(edges, n) == edges.len(),
    decreases edges.len(),
{
    if edges.len() == 0 {
        lemma_out_prefix_zero(edges, n);
    } else {
        let front = edges.drop_last();
        lemma_out_prefix_total(front, n);
        assert(front.push(edges.last()) =~= edges);
        lemma_out_prefix_push(front, edges.last(), n);
    }
}

proof fn lemma_out_prefix_zero(edges: Seq<(u32, u32)>, j: int)
    requires
        edges.len() == 0,
    ensures
        out_prefix(edges, j) == 0,
    decreases j,
{
    if j > 0 {
        lemma_out_prefix_zero(edges, j - 1);
    }
}

/// A compiled redstone dependency graph in contiguous CSR memory: node `i`'s
/// successors are `targets[offsets[i]..offsets[i+1]]`.
#[derive(Debug, Clone)]
pub struct RedstoneGraph {
    kinds: Vec<NodeKind>,
    levels: Vec<u8>,
    power: Vec<u8>,
    offsets: Vec<u32>,
    targets: Vec<u32>,
}

/// Σ (15 − p) over a power vector: the room left for power to grow.
pub open spec fn headroom(p: Seq<u8>) -> int
    decreases p.len(),
{
    if p.len() == 0 {
        0
    } else {
        headroom(p.drop_last()) + (15 - p.last())
    }
}

pub(crate) proof fn lemma_headroom_update(p: Seq<u8>, i: int, v: u8)
    requires
        0 <= i < p.len(),
    ensures
        headroom(p.update(i, v)) == headroom(p) + p[i] - v,
    decreases p.len(),
{
    if i < p.len() - 1 {
        lemma_headroom_update(p.drop_last(), i, v);
        assert(p.update(i, v).drop_last() =~= p.drop_last().update(i, v));
    } else {
        assert(p.update(i, v).drop_last() =~= p.drop_last());
    }
}

pub(crate) proof fn lemma_headroom_nonneg(p: Seq<u8>)
    requires
        forall|i: int| 0 <= i < p.len() ==> p[i] <= 15,
    ensures
        headroom(p) >= 0,
    decreases p.len(),
{
    if p.len() > 0 {
        lemma_headroom_nonneg(p.drop_last());
    }
}

impl RedstoneGraph {
    /// Node kinds, in id order.
    pub closed spec fn kind_seq(&self) -> Seq<NodeKind> {
        self.kinds@
    }

    /// Source levels, in id order.
    pub closed spec fn level_seq(&self) -> Seq<u8> {
        self.levels@
    }

    /// Current power of every node.
    pub closed spec fn power_seq(&self) -> Seq<u8> {
        self.power@
    }

    /// CSR offsets (`len + 1` entries).
    pub closed spec fn offset_seq(&self) -> Seq<u32> {
        self.offsets@
    }

    /// CSR successor targets.
    pub closed spec fn target_seq(&self) -> Seq<u32> {
        self.targets@
    }

    /// Number of nodes.
    pub open spec fn spec_len(&self) -> int {
        self.kind_seq().len() as int
    }

    /// Slot `k` of the target array lies in node `u`'s successor range.
    pub open spec fn slot_of(&self, u: int, k: int) -> bool {
        0 <= u < self.spec_len() && self.offset_seq()[u] <= k < self.offset_seq()[u + 1]
    }

    /// There is a link from `u` to `v`.
    pub open spec fn has_edge(&self, u: int, v: int) -> bool {
        exists|k: int| self.slot_of(u, k) && self.target_seq()[k] == v
    }

    /// Well-formedness: parallel tables and a valid CSR layout.
    pub open spec fn wf(&self) -> bool {
        let n = self.spec_len();
        &&& self.level_seq().len() == n
        &&& self.power_seq().len() == n
        &&& n < u32::MAX
        &&& forall|i: int| 0 <= i < n ==> self.level_seq()[i] <= 15
        &&& self.offset_seq().len() == n + 1
        &&& self.offset_seq()[0] == 0
        &&& self.offset_seq()[n] == self.target_seq().len()
        &&& forall|i: int, j: int| 0 <= i <= j <= n ==> self.offset_seq()[i] <= self.offset_seq()[j]
        &&& forall|k: int| 0 <= k < self.target_seq().len() ==> (self.target_seq()[k] as int) < n
    }

    /// The link `u → v` is satisfied by the power vector `q`: a non-source
    /// receiver holds at least what the sender delivers.
    pub open spec fn edge_ok(&self, q: Seq<u8>, u: int, v: int) -> bool {
        link_ok(self.kind_seq(), q, u, v)
    }

    /// `q` is a steady state: sources hold their levels and every link is
    /// satisfied.
    pub open spec fn steady(&self, q: Seq<u8>) -> bool {
        &&& q.len() == self.spec_len()
        &&& forall|i: int| 0 <= i < self.spec_len() && self.kind_seq()[i] == NodeKind::Source ==> q[i] == self.level_seq()[i]
        &&& forall|u: int, k: int| #[trigger] self.slot_of(u, k) ==> self.edge_ok(q, u, self.target_seq()[k] as int)
    }

    /// The power vector is the least steady state: it is steady, and no
    /// steady state is lower anywhere.
    pub open spec fn solved(&self) -> bool {
        &&& self.steady(self.power_seq())
        &&& forall|q: Seq<u8>| #[trigger] self.steady(q) ==> forall|i: int| 0 <= i < self.spec_len() ==> self.power_seq()[i] <= q[i]
        &&& forall|i: int| 0 <= i < self.spec_len() ==> self.power_seq()[i] <= 15
    }

    /// Number of nodes.
    pub fn len(&self) -> (r: usize)
        ensures
            r == self.spec_len(),
    {
        self.kinds.len()
    }

    /// Whether the graph has no nodes.
    pub fn is_empty(&self) -> (r: bool)
        ensures
            r == (self.spec_len() == 0),
    {
        self.kinds.len() == 0
    }

    /// The kind of `id`.
    pub fn kind(&self, id: NodeId) -> (r: NodeKind)
        requires
            (id.0 as int) < self.spec_len(),
        ensures
            r == self.kind_seq()[id.0 as int],
    {
        self.kinds[id.index()]
    }

    /// The current power level of `id` (`0..=15`).
    pub fn power(&self, id: NodeId) -> (r: u8)
        requires
            self.wf(),
            (id.0 as int) < self.spec_len(),
        ensures
            r == self.power_seq()[id.0 as int],
    {
        self.power[id.index()]
    }

    /// Whether `id` carries any power.
    pub fn is_powered(&self, id: NodeId) -> (r: bool)
        requires
            self.wf(),
            (id.0 as int) < self.spec_len(),
        ensures
            r == (self.power_seq()[id.0 as int] > 0),
    {
        self.power[id.index()] > 0
    }

    /// Whether a lamp is lit (powered). Non-lamp nodes are never "lit".
    pub fn is_lit(&self, id: NodeId) -> (r: bool)
        requires
            self.wf(),
            (id.0 as int) < self.spec_len(),
        ensures
            r == (self.kind_seq()[id.0 as int] == NodeKind::Lamp && self.power_seq()[id.0 as int] > 0),
    {
        self.kinds[id.index()] == NodeKind::Lamp && self.power[id.index()] > 0
    }

    /// Set a source node's level (clamped to `0..=15`) and re-solve the graph.
    /// Returns `false`, changing nothing, if the node is not a
    /// [`NodeKind::Source`].
    pub fn set_source(&mut self, id: NodeId, level: u8) -> (r: bool)
        requires
            old(self).wf(),
            (id.0 as int) < old(self).spec_len(),
        ensures
            r == (old(self).kind_seq()[id.0 as int] == NodeKind::Source),
            final(self).wf(),
            final(self).kind_seq() == old(self).kind_seq(),
            final(self).offset_seq() == old(self).offset_seq(),
            final(self).target_seq() == old(self).target_seq(),
            r ==> final(self).level_seq() == old(self).level_seq().update(
                id.0 as int,
                if level > 15 { 15u8 } else { level },
            ),
            r ==> final(self).solved(),
            !r ==> *final(self) == *old(self),
    {
        if self.kinds[id.index()] != NodeKind::Source {
            return false;
        }
        self.levels.set(id.index(), if level > MAX_POWER { MAX_POWER } else { level });
        self.solve();
        true
    }

    /// The steady state is unique: two graphs with the same nodes, levels and
    /// links that are both solved carry the same power everywhere, whatever
    /// order their relaxations took.
    pub proof fn lemma_solved_unique(a: &Self, b: &Self)
        requires
            a.wf(),
            b.wf(),
            a.kind_seq() == b.kind_seq(),
            a.level_seq() == b.level_seq(),
            a.offset_seq() == b.offset_seq(),
            a.target_seq() == b.target_seq(),
            a.solved(),
            b.solved(),
        ensures
            a.power_seq() == b.power_seq(),
    {
        a.lemma_same_steady(b, a.power_seq());
        a.lemma_same_steady(b, b.power_seq());
        assert(b.steady(a.power_seq()));
        assert(a.steady(b.power_seq()));
        assert(a.power_seq() =~= b.power_seq());
    }

    /// Every power level is at most [`MAX_POWER`].
    spec fn bounded(&self, p: Seq<u8>) -> bool {
        &&& p.len() == self.spec_len()
        &&& forall|i: int| 0 <= i < self.spec_len() ==> p[i] <= 15
    }

    /// Sources hold exactly their set levels.
    spec fn sources_hold(&self, p: Seq<u8>) -> bool {
        forall|i: int|
            0 <= i < self.spec_len() && self.kind_seq()[i] == NodeKind::Source ==> p[i]
                == self.level_seq()[i]
    }

    /// `p` lies at or below every steady state.
    spec fn below_steady(&self, p: Seq<u8>) -> bool {
        forall|q: Seq<u8>| #[trigger]
            self.steady(q) ==> forall|i: int| 0 <= i < self.spec_len() ==> p[i] <= q[i]
    }

    /// Every link is satisfied by `p`, except those out of a node still
    /// waiting in `queue` and those of node `u` at slot `k` or later.
    spec fn settled_except(&self, p: Seq<u8>, queue: Seq<u32>, u: int, k: int) -> bool {
        forall|u2: int, k2: int| #[trigger]
            self.slot_of(u2, k2) ==> queue.contains(u2 as u32) || self.edge_ok(
                p,
                u2,
                self.target_seq()[k2] as int,
            ) || (u2 == u && k2 >= k)
    }

    /// Once slot `k` of `u` is satisfied (or `u` waits in the queue), the
    /// pending range of `u` starts one slot later.
    proof fn lemma_settle_slot(&self, p: Seq<u8>, queue: Seq<u32>, u: int, k: int)
        requires
            self.settled_except(p, queue, u, k),
            self.slot_of(u, k),
            queue.contains(u as u32) || self.edge_ok(p, u, self.target_seq()[k] as int),
        ensures
            self.settled_except(p, queue, u, k + 1),
    {
    }

    /// Raising `v` to `newp`, the level a link from `u` (at power at least
    /// `up`) forces, keeps the power vector below every steady state.
    proof fn lemma_raise_below(&self, p: Seq<u8>, u: int, k: int, up: u8, newp: u8)
        requires
            self.wf(),
            self.below_steady(p),
            p.len() == self.spec_len(),
            self.slot_of(u, k),
            up <= p[u],
            self.kind_seq()[self.target_seq()[k] as int] != NodeKind::Source,
            delivered_spec(self.kind_seq()[u], up, self.kind_seq()[self.target_seq()[k] as int]) > 0,
            newp == receive_spec(
                self.kind_seq()[self.target_seq()[k] as int],
                delivered_spec(self.kind_seq()[u], up, self.kind_seq()[self.target_seq()[k] as int]),
            ),
        ensures
            self.below_steady(p.update(self.target_seq()[k] as int, newp)),
    {
        let v = self.target_seq()[k] as int;
        assert forall|q: Seq<u8>| #[trigger] self.steady(q) implies forall|i: int|
            0 <= i < self.spec_len() ==> p.update(v, newp)[i] <= q[i] by {
            assert(self.edge_ok(q, u, v));
            assert(p[u] <= q[u]);
        }
    }

    /// Raising `v` keeps every other link as settled as it was, and leaves
    /// `v`'s own links to the queue once `v` is pushed.
    proof fn lemma_raise_settled(
        &self,
        p: Seq<u8>,
        queue: Seq<u32>,
        u: int,
        k: int,
        v: int,
        newp: u8,
    )
        requires
            self.wf(),
            p.len() == self.spec_len(),
            0 <= v < self.spec_len(),
            newp > p[v],
            self.settled_except(p, queue, u, k),
        ensures
            self.settled_except(p.update(v, newp), queue.push(v as u32), u, k),
    {
        let p2 = p.update(v, newp);
        let q2 = queue.push(v as u32);
        assert forall|u2: int, k2: int| #[trigger] self.slot_of(u2, k2) implies q2.contains(
            u2 as u32,
        ) || self.edge_ok(p2, u2, self.target_seq()[k2] as int) || (u2 == u && k2 >= k) by {
            if u2 == v {
                assert(q2[queue.len() as int] == v as u32);
            } else if queue.contains(u2 as u32) {
                let j = choose|j: int| 0 <= j < queue.len() && queue[j] == u2 as u32;
                assert(q2[j] == u2 as u32);
            }
        }
    }

    /// Recompute every node's steady-state power from the sources.
    ///
    /// A bounded, monotone (max-only) worklist relaxation: a node is re-queued
    /// only when its power strictly increases, and power is capped at
    /// [`MAX_POWER`], so it always terminates. The result is the least steady
    /// state, whatever order the worklist takes.
    pub fn solve(&mut self)
        requires
            old(self).wf(),
        ensures
            final(self).wf(),
            final(self).kind_seq() == old(self).kind_seq(),
            final(self).level_seq() == old(self).level_seq(),
            final(self).offset_seq() == old(self).offset_seq(),
            final(self).target_seq() == old(self).target_seq(),
            final(self).solved(),
    {
        let ghost g0 = *self;
        let n = self.kinds.len();
        let mut i: usize = 0;
        while i < n
            invariant
                self.wf(),
                g0.wf(),
                n == self.spec_len(),
                self.kind_seq() == g0.kind_seq(),
                self.level_seq() == g0.level_seq(),
                self.offset_seq() == g0.offset_seq(),
                self.target_seq() == g0.target_seq(),
                0 <= i <= n,
                forall|j: int| 0 <= j < i ==> self.power_seq()[j] == 0,
            decreases n - i,
        {
            self.power.set(i, 0);
            i += 1;
        }
        let mut queue: VecDeque<u32> = VecDeque::with_capacity(n);
        let mut i: usize = 0;
        while i < n
            invariant
                self.wf(),
                g0.wf(),
                n == self.spec_len(),
                self.kind_seq() == g0.kind_seq(),
                self.level_seq() == g0.level_seq(),
                self.offset_seq() == g0.offset_seq(),
                self.target_seq() == g0.target_seq(),
                0 <= i <= n,
                forall|j: int|
                    0 <= j < n ==> #[trigger] self.power_seq()[j] == (if j < i
                        && self.kind_seq()[j] == NodeKind::Source {
                        self.level_seq()[j]
                    } else {
                        0u8
                    }),
                forall|j: int| 0 <= j < queue@.len() ==> queue@[j] < i,
                forall|j: int|
                    0 <= j < i && self.power_seq()[j] > 0 ==> queue@.contains(j as u32),
            decreases n - i,
        {
            if self.kinds[i] == NodeKind::Source && self.levels[i] > 0 {
                let ghost q1 = queue@;
                self.power.set(i, self.levels[i]);
                queue.push_back(i as u32);
                proof {
                    assert(queue@[queue@.len() - 1] == i as u32);
                    assert forall|j: int|
                        0 <= j < i && self.power_seq()[j] > 0 implies queue@.contains(j as u32) by {
                        let w = choose|w: int| 0 <= w < q1.len() && q1[w] == j as u32;
                        assert(queue@[w] == j as u32);
                    }
                }
            } else if self.kinds[i] == NodeKind::Source {
                self.power.set(i, self.levels[i]);
            }
            i += 1;
        }
        proof {
            assert forall|u2: int, k2: int| #[trigger] g0.slot_of(u2, k2) implies queue@.contains(
                u2 as u32,
            ) || g0.edge_ok(self.power_seq(), u2, self.target_seq()[k2] as int) || (u2 == -1
                && k2 >= 0) by {
                if self.power_seq()[u2] == 0 {
                    assert(delivered_spec(
                        self.kind_seq()[u2],
                        self.power_seq()[u2],
                        self.kind_seq()[self.target_seq()[k2] as int],
                    ) == 0);
                }
            }
            assert forall|q: Seq<u8>| #[trigger] g0.steady(q) implies forall|j: int|
                0 <= j < self.spec_len() ==> self.power_seq()[j] <= q[j] by {
                assert forall|j: int| 0 <= j < self.spec_len() implies self.power_seq()[j]
                    <= q[j] by {
                    if self.kind_seq()[j] == NodeKind::Source {
                        assert(q[j] == self.level_seq()[j]);
                    }
                }
            }
        }
        loop
            invariant
                self.wf(),
                g0.wf(),
                n == self.spec_len(),
                self.kind_seq() == g0.kind_seq(),
                self.level_seq() == g0.level_seq(),
                self.offset_seq() == g0.offset_seq(),
                self.target_seq() == g0.target_seq(),
                g0.bounded(self.power_seq()),
                g0.sources_hold(self.power_seq()),
                g0.below_steady(self.power_seq()),
                forall|j: int| 0 <= j < queue@.len() ==> (queue@[j] as int) < n,
                g0.settled_except(self.power_seq(), queue@, -1, 0),
            ensures
                queue@.len() == 0,
            decreases headroom(self.power_seq()), queue@.len(),
        {
            proof {
                lemma_headroom_nonneg(self.power_seq());
            }
            let ghost h0 = headroom(self.power_seq());
            let ghost q0 = queue@;
            let popped = queue.pop_front();
            let u = match popped {
                None => {
                    break ;
                },
                Some(u) => u,
            };
            proof {
                assert(q0[0] == u);
                assert forall|u2: int, k2: int| #[trigger] g0.slot_of(u2, k2) implies queue@.contains(
                    u2 as u32,
                ) || g0.edge_ok(self.power_seq(), u2, self.target_seq()[k2] as int) || (u2
                    == u as int && k2 >= self.offset_seq()[u as int]) by {
                    if q0.contains(u2 as u32) && u2 != u as int {
                        let j = choose|j: int| 0 <= j < q0.len() && q0[j] == u2 as u32;
                        assert(j != 0);
                        assert(queue@[j - 1] == u2 as u32);
                    }
                }
            }
            let ui = u as usize;
            let uk = self.kinds[ui];
            let up = self.power[ui];
            let start = self.offsets[ui] as usize;
            let end = self.offsets[ui + 1] as usize;
            proof {
                assert(self.offset_seq()[ui as int] <= self.offset_seq()[ui as int + 1]);
            }
            let mut k: usize = start;
            while k < end
                invariant
                    self.wf(),
                    g0.wf(),
                    n == self.spec_len(),
                    self.kind_seq() == g0.kind_seq(),
                    self.level_seq() == g0.level_seq(),
                    self.offset_seq() == g0.offset_seq(),
                    self.target_seq() == g0.target_seq(),
                    g0.bounded(self.power_seq()),
                    g0.sources_hold(self.power_seq()),
                    g0.below_steady(self.power_seq()),
                    forall|j: int| 0 <= j < queue@.len() ==> (queue@[j] as int) < n,
                    g0.settled_except(self.power_seq(), queue@, ui as int, k as int),
                    (ui as int) < n,
                    ui as int == u as int,
                    uk == self.kind_seq()[ui as int],
                    up <= self.power_seq()[ui as int],
                    up == self.power_seq()[ui as int] || queue@.contains(u),
                    start == self.offset_seq()[ui as int],
                    end == self.offset_seq()[ui as int + 1],
                    end <= self.target_seq().len(),
                    start <= k <= end,
                    headroom(self.power_seq()) <= h0,
                    headroom(self.power_seq()) == h0 ==> queue@.len() < q0.len(),
                decreases end - k,
            {
                let v = self.targets[k];
                let vi = v as usize;
                let vk = self.kinds[vi];
                proof {
                    assert(g0.slot_of(ui as int, k as int));
                }
                if vk != NodeKind::Source {
                    let cand = Self::delivered(uk, up, vk);
                    if cand != 0 {
                        let newp = Self::receive(vk, cand);
                        if newp > self.power[vi] {
                            let ghost was_queued = queue@.contains(u);
                            let ghost q1 = queue@;
                            proof {
                                g0.lemma_raise_below(self.power_seq(), ui as int, k as int, up, newp);
                                g0.lemma_raise_settled(self.power_seq(), queue@, ui as int, k as int, vi as int, newp);
                                lemma_headroom_update(self.power_seq(), vi as int, newp);
                            }
                            self.power.set(vi, newp);
                            queue.push_back(v);
                            proof {
                                assert(queue@[queue@.len() - 1] == v);
                                if vi == ui {
                                    assert(v == u);
                                    assert(queue@.contains(u));
                                } else if was_queued {
                                    let w = choose|w: int| 0 <= w < q1.len() && q1[w] == u;
                                    assert(queue@[w] == u);
                                } else {
                                    assert(up == self.power_seq()[ui as int]);
                                    assert(g0.edge_ok(self.power_seq(), ui as int, vi as int));
                                }
                            }
                        } else {
                            proof {
                                if !queue@.contains(u) {
                                    assert(g0.edge_ok(self.power_seq(), ui as int, vi as int));
                                }
                            }
                        }
                    } else {
                        proof {
                            if !queue@.contains(u) {
                                assert(g0.edge_ok(self.power_seq(), ui as int, vi as int));
                            }
                        }
                    }
                } else {
                    proof {
                        assert(g0.edge_ok(self.power_seq(), ui as int, vi as int));
                    }
                }
                proof {
                    g0.lemma_settle_slot(self.power_seq(), queue@, ui as int, k as int);
                }
                k += 1;
            }
            proof {
                lemma_headroom_nonneg(self.power_seq());
            }
        }
        proof {
            let p = self.power_seq();
            assert forall|u2: int, k2: int| #[trigger] self.slot_of(u2, k2) implies self.edge_ok(
                p,
                u2,
                self.target_seq()[k2] as int,
            ) by {
                assert(g0.slot_of(u2, k2));
            }
            assert forall|q: Seq<u8>| #[trigger] self.steady(q) implies forall|j: int|
                0 <= j < self.spec_len() ==> p[j] <= q[j] by {
                self.lemma_same_steady(&g0, q);
            }
        }
    }

    /// Two graphs with the same CSR tables have the same links.
    proof fn lemma_same_links(&self, other: &Self, u: int, v: int)
        requires
            self.kind_seq() == other.kind_seq(),
            self.offset_seq() == other.offset_seq(),
            self.target_seq() == other.target_seq(),
        ensures
            self.has_edge(u, v) == other.has_edge(u, v),
    {
        if self.has_edge(u, v) {
            let k = choose|k: int| self.slot_of(u, k) && self.target_seq()[k] == v;
            assert(other.slot_of(u, k));
        }
        if other.has_edge(u, v) {
            let k = choose|k: int| other.slot_of(u, k) && other.target_seq()[k] == v;
            assert(self.slot_of(u, k));
        }
    }

    /// Two graphs with the same nodes, levels and links have the same steady
    /// states.
    proof fn lemma_same_steady(&self, other: &Self, q: Seq<u8>)
        requires
            self.kind_seq() == other.kind_seq(),
            self.level_seq() == other.level_seq(),
            self.offset_seq() == other.offset_seq(),
            self.target_seq() == other.target_seq(),
        ensures
            self.steady(q) == other.steady(q),
    {
        if self.steady(q) {
            assert forall|u: int, k: int| #[trigger] other.slot_of(u, k) implies other.edge_ok(
                q,
                u,
                other.target_seq()[k] as int,
            ) by {
                assert(self.slot_of(u, k));
            }
        }
        if other.steady(q) {
            assert forall|u: int, k: int| #[trigger] self.slot_of(u, k) implies self.edge_ok(
                q,
                u,
                self.target_seq()[k] as int,
            ) by {
                assert(other.slot_of(u, k));
            }
        }
    }

    /// What a link carries in a solved graph: a lamp or a repeater takes the
    /// full level of the wire, source or repeater feeding it (a lamp fed any
    /// signal is lit, a repeater fed any signal outputs full strength), and
    /// only a wire-to-wire hop loses a level.
    pub proof fn lemma_link_carries(&self, u: int, v: int)
        requires
            self.wf(),
            self.solved(),
            self.has_edge(u, v),
            self.kind_seq()[u] != NodeKind::Lamp,
        ensures
            self.kind_seq()[v] == NodeKind::Lamp ==> self.power_seq()[v] >= self.power_seq()[u],
            self.kind_seq()[v] == NodeKind::Lamp && self.power_seq()[u] >= 1 ==> self.power_seq()[v] >= 1,
            self.kind_seq()[v] == NodeKind::Repeater && self.power_seq()[u] >= 1 ==> self.power_seq()[v] == 15,
            self.kind_seq()[v] == NodeKind::Wire && self.kind_seq()[u] != NodeKind::Wire ==> self.power_seq()[v]
                >= self.power_seq()[u],
            self.kind_seq()[v] == NodeKind::Wire && self.kind_seq()[u] == NodeKind::Wire ==> self.power_seq()[v]
                >= self.power_seq()[u] - 1,
    {
        let k = choose|k: int| self.slot_of(u, k) && self.target_seq()[k] == v;
        assert(self.edge_ok(self.power_seq(), u, self.target_seq()[k] as int));
        assert(0 <= v < self.spec_len());
        assert(self.power_seq()[v] <= 15);
    }

    /// Graphs with the same nodes, levels and links have the same steady
    /// states, however their links are laid out.
    proof fn lemma_same_links_steady(&self, other: &Self, q: Seq<u8>)
        requires
            self.kind_seq() == other.kind_seq(),
            self.level_seq() == other.level_seq(),
            forall|u: int, v: int| self.has_edge(u, v) == other.has_edge(u, v),
        ensures
            self.steady(q) == other.steady(q),
    {
        if self.steady(q) {
            assert forall|u: int, k: int| #[trigger] other.slot_of(u, k) implies other.edge_ok(
                q,
                u,
                other.target_seq()[k] as int,
            ) by {
                let v = other.target_seq()[k] as int;
                assert(other.has_edge(u, v));
                assert(self.has_edge(u, v));
                let k2 = choose|k2: int| self.slot_of(u, k2) && self.target_seq()[k2] == v;
            }
        }
        if other.steady(q) {
            assert forall|u: int, k: int| #[trigger] self.slot_of(u, k) implies self.edge_ok(
                q,
                u,
                self.target_seq()[k] as int,
            ) by {
                let v = self.target_seq()[k] as int;
                assert(self.has_edge(u, v));
                assert(other.has_edge(u, v));
                let k2 = choose|k2: int| other.slot_of(u, k2) && other.target_seq()[k2] == v;
            }
        }
    }

    /// Re-solving after a source changes lands where a fresh build would: a
    /// graph after [`Self::set_source`] and one [`RedstoneGraphBuilder::build`]
    /// makes from the same nodes, the new levels and the same links are both
    /// solved, and any two solved graphs with the same nodes, source levels
    /// and links carry the same power everywhere, however their links are
    /// laid out.
    pub proof fn lemma_set_source_matches_build(a: &Self, b: &Self)
        requires
            a.wf(),
            b.wf(),
            a.kind_seq() == b.kind_seq(),
            a.level_seq() == b.level_seq(),
            forall|u: int, v: int| a.has_edge(u, v) == b.has_edge(u, v),
            a.solved(),
            b.solved(),
        ensures
            a.power_seq() == b.power_seq(),
    {
        a.lemma_same_links_steady(b, a.power_seq());
        a.lemma_same_links_steady(b, b.power_seq());
        assert(b.steady(a.power_seq()));
        assert(a.steady(b.power_seq()));
        assert(a.power_seq() =~= b.power_seq());
    }

    /// Signal a `sender` of the given power delivers to a `receiver`.
    fn delivered(sender: NodeKind, power: u8, receiver: NodeKind) -> (r: u8)
        ensures
            r == delivered_spec(sender, power, receiver),
    {
        match sender {
            NodeKind::Source | NodeKind::Repeater => power,
            NodeKind::Lamp => 0,
            NodeKind::Wire => {
                if receiver == NodeKind::Wire {
                    if power > 0 {
                        power - 1
                    } else {
                        0
                    }
                } else {
                    power
                }
            },
        }
    }

    /// Power a receiver of `kind` takes from an incoming signal `cand`.
    fn receive(kind: NodeKind, cand: u8) -> (r: u8)
        ensures
            r == receive_spec(kind, cand),
    {
        match kind {
            NodeKind::Repeater => {
                if cand > 0 {
                    MAX_POWER
                } else {
                    0
                }
            },
            NodeKind::Wire | NodeKind::Lamp => cand,
            NodeKind::Source => 0,
        }
    }
}


impl RedstoneGraphBuilder {
    /// Every link joins two nodes of this builder.
    pub open spec fn links_in_range(&self) -> bool {
        forall|e: int|
            0 <= e < self.edge_seq().len() ==> (#[trigger] self.edge_seq()[e].0 as int) < self.kind_seq().len()
                && (self.edge_seq()[e].1 as int) < self.kind_seq().len()
    }

    /// Compile the network into a [`RedstoneGraph`] (contiguous CSR) and solve
    /// its initial steady state.
    pub fn build(self) -> (g: RedstoneGraph)
        requires
            self.wf(),
            self.links_in_range(),
            self.kind_seq().len() < u32::MAX,
            self.edge_seq().len() < u32::MAX,
        ensures
            g.wf(),
            g.solved(),
            g.kind_seq() == self.kind_seq(),
            g.level_seq() == self.level_seq(),
            forall|u: int, v: int|
                g.has_edge(u, v) <==> exists|e: int|
                    0 <= e < self.edge_seq().len() && #[trigger] self.edge_seq()[e] == (
                    u as u32,
                    v as u32,
                ) && 0 <= u < g.spec_len() && 0 <= v < g.spec_len(),
            forall|q: Seq<u8>|
                #[trigger] g.steady(q) == links_steady(
                    self.kind_seq(),
                    self.level_seq(),
                    self.edge_seq(),
                    q,
                ),
    {
        let n = self.kinds.len();
        let m = self.edges.len();
        let ghost edges = self.edges@;
        proof {
            assert forall|e: int| 0 <= e < edges.len() implies (#[trigger] edges[e].0 as int) < n
                && (edges[e].1 as int) < n by {
                assert(self.edge_seq()[e].0 == edges[e].0);
                assert(self.edge_seq()[e].1 == edges[e].1);
            }
        }
        // Count the links leaving each node: counts[u + 1] = out-degree of u.
        let mut counts: Vec<u32> = Vec::new();
        let mut i: usize = 0;
        while i <= n
            invariant
                n == self.kinds@.len(),
                n < u32::MAX,
                0 <= i <= n + 1,
                counts@.len() == i,
                forall|j: int| 0 <= j < i ==> counts@[j] == 0,
            decreases n + 1 - i,
        {
            counts.push(0);
            i += 1;
        }
        let mut e: usize = 0;
        while e < m
            invariant
                self.wf(),
                forall|e: int| 0 <= e < m ==> (#[trigger] edges[e].0 as int) < n && (edges[e].1 as int) < n,
                edges == self.edges@,
                n == self.kinds@.len(),
                m == edges.len(),
                m < u32::MAX,
                0 <= e <= m,
                counts@.len() == n + 1,
                counts@[0] == 0,
                forall|j: int| 1 <= j <= n ==> #[trigger] counts@[j] == out_count(edges.take(e as int), j - 1),
            decreases m - e,
        {
            let from = self.edges[e].0 as usize;
            proof {
                assert(self.edge_seq()[e as int].0 as int == from);
                lemma_out_count_le(edges.take(e as int), from as int);
                assert forall|j: int| 1 <= j <= n implies #[trigger] out_count(edges.take(e + 1), j - 1)
                    == out_count(edges.take(e as int), j - 1) + (if j - 1 == from {
                    1nat
                } else {
                    0nat
                }) by {
                    lemma_out_count_take(edges, e as int, j - 1);
                }
            }
            let c = counts[from + 1];
            counts.set(from + 1, c + 1);
            e += 1;
        }
        proof {
            assert(edges.take(m as int) =~= edges);
        }
        // Prefix sums turn the out-degrees into CSR offsets.
        let mut i: usize = 0;
        while i < n
            invariant
                forall|e: int| 0 <= e < m ==> (#[trigger] edges[e].0 as int) < n && (edges[e].1 as int) < n,
                edges == self.edges@,
                n == self.kinds@.len(),
                m == edges.len(),
                m < u32::MAX,
                0 <= i <= n,
                counts@.len() == n + 1,
                forall|j: int| 0 <= j <= i ==> #[trigger] counts@[j] == out_prefix(edges, j),
                forall|j: int| i < j <= n ==> #[trigger] counts@[j] == out_count(edges, j - 1),
            decreases n - i,
        {
            proof {
                lemma_out_prefix_mono(edges, i + 1, n as int);
                lemma_out_prefix_total(edges, n as int);
            }
            let a = counts[i];
            let b = counts[i + 1];
            counts.set(i + 1, a + b);
            i += 1;
        }
        let offsets = counts;
        proof {
            lemma_out_prefix_total(edges, n as int);
            assert forall|a: int, b: int| 0 <= a <= b <= n implies offsets@[a] <= offsets@[b] by {
                lemma_out_prefix_mono(edges, a, b);
            }
        }
        // Place each link's target in its source's slot range.
        let mut targets: Vec<u32> = Vec::new();
        let mut i: usize = 0;
        while i < m
            invariant
                0 <= i <= m,
                targets@.len() == i,
                forall|j: int| 0 <= j < i ==> targets@[j] == 0,
            decreases m - i,
        {
            targets.push(0);
            i += 1;
        }
        let mut cursor: Vec<u32> = Vec::new();
        let mut i: usize = 0;
        while i < n
            invariant
                0 <= i <= n,
                offsets@.len() == n + 1,
                cursor@.len() == i,
                forall|j: int| 0 <= j < i ==> cursor@[j] == offsets@[j],
            decreases n - i,
        {
            cursor.push(offsets[i]);
            i += 1;
        }
        let mut e: usize = 0;
        while e < m
            invariant
                self.wf(),
                forall|e: int| 0 <= e < m ==> (#[trigger] edges[e].0 as int) < n && (edges[e].1 as int) < n,
                edges == self.edges@,
                n == self.kinds@.len(),
                m == edges.len(),
                m < u32::MAX,
                0 <= e <= m,
                offsets@.len() == n + 1,
                offsets@[0] == 0,
                offsets@[n as int] == m,
                forall|a: int, b: int| 0 <= a <= b <= n ==> offsets@[a] <= offsets@[b],
                forall|w: int| 0 <= w < n ==> offsets@[w + 1] == offsets@[w] + out_count(edges, w),
                cursor@.len() == n,
                forall|w: int|
                    0 <= w < n ==> #[trigger] cursor@[w] == offsets@[w] + out_count(edges.take(e as int), w),
                targets@.len() == m,
                forall|k: int| 0 <= k < m ==> (#[trigger] targets@[k] as int) < n,
                forall|e2: int|
                    0 <= e2 < e ==> #[trigger] placed(offsets@, cursor@, targets@, edges[e2]),
                forall|w: int, k: int|
                    #![trigger cursor@[w], targets@[k]]
                    0 <= w < n && offsets@[w] <= k < cursor@[w] ==> exists|e2: int|
                        0 <= e2 < e && #[trigger] edges[e2] == (w as u32, targets@[k]),
            decreases m - e,
        {
            let from = self.edges[e].0 as usize;
            let to = self.edges[e].1;
            proof {
                assert(self.edge_seq()[e as int].0 as int == from);
                lemma_out_count_take(edges, e as int, from as int);
                lemma_out_count_take_le(edges, e as int + 1, from as int);
            }
            let slot = cursor[from] as usize;
            let ghost t0 = targets@;
            let ghost c0 = cursor@;
            targets.set(slot, to);
            cursor.set(from, (slot + 1) as u32);
            proof {
                assert forall|w: int| 0 <= w < n implies #[trigger] cursor@[w] == offsets@[w] + out_count(
                    edges.take(e + 1),
                    w,
                ) by {
                    lemma_out_count_take(edges, e as int, w);
                }
                assert forall|e2: int| 0 <= e2 < e + 1 implies #[trigger] placed(
                    offsets@,
                    cursor@,
                    targets@,
                    edges[e2],
                ) by {
                    if e2 == e {
                        assert(targets@[slot as int] == edges[e2].1);
                    } else {
                        let f2 = edges[e2].0 as int;
                        lemma_out_count_take_le(edges, e as int, f2);
                        assert(placed(offsets@, c0, t0, edges[e2]));
                        let k = choose|k: int| offsets@[f2] <= k < c0[f2] && #[trigger] t0[k] == edges[e2].1;
                        if f2 < from {
                            assert(offsets@[f2 + 1] <= offsets@[from as int]);
                        } else if f2 > from {
                            assert(offsets@[from as int + 1] <= offsets@[f2]);
                        }
                        assert(k != slot);
                        assert(targets@[k] == edges[e2].1);
                    }
                }
                assert forall|w: int, k: int|
                    #![trigger cursor@[w], targets@[k]]
                    0 <= w < n && offsets@[w] <= k < cursor@[w] implies exists|e2: int|
                        0 <= e2 < e + 1 && #[trigger] edges[e2] == (w as u32, targets@[k]) by {
                    lemma_out_count_take_le(edges, e as int, w);
                    if k == slot {
                        if w < from {
                            assert(offsets@[w + 1] <= offsets@[from as int]);
                        } else if w > from {
                            assert(offsets@[from as int + 1] <= offsets@[w]);
                        }
                        assert(w == from);
                        assert(edges[e as int].0 == w as u32);
                        assert(edges[e as int].1 == targets@[k]);
                        assert(edges[e as int] == (w as u32, targets@[k]));
                    } else {
                        assert(offsets@[w] <= k < c0[w] && t0[k] == t0[k]);
                        let e2 = choose|e2: int| 0 <= e2 < e && #[trigger] edges[e2] == (w as u32, t0[k]);
                        assert(targets@[k] == t0[k]);
                        assert(edges[e2] == (w as u32, targets@[k]));
                    }
                }
            }
            e += 1;
        }
        let mut power: Vec<u8> = Vec::new();
        let mut i: usize = 0;
        while i < n
            invariant
                0 <= i <= n,
                power@.len() == i,
            decreases n - i,
        {
            power.push(0);
            i += 1;
        }
        let ghost cur = cursor@;
        let mut g = RedstoneGraph { kinds: self.kinds, levels: self.levels, power, offsets, targets };
        proof {
            assert(edges.take(m as int) =~= edges);
            assert forall|w: int| 0 <= w < n implies cur[w] == offsets@[w + 1] by {}
            assert forall|u: int, v: int|
                g.has_edge(u, v) <==> exists|e: int|
                    0 <= e < edges.len() && #[trigger] edges[e] == (u as u32, v as u32) && 0 <= u < g.spec_len()
                        && 0 <= v < g.spec_len() by {
                if g.has_edge(u, v) {
                    let k = choose|k: int| g.slot_of(u, k) && g.target_seq()[k] == v;
                    assert(offsets@[u] <= k < cur[u] && g.target_seq()[k] == g.target_seq()[k]);
                    let e2 = choose|e2: int| 0 <= e2 < m && #[trigger] edges[e2] == (u as u32, g.target_seq()[k]);
                    assert(edges[e2] == (u as u32, v as u32));
                }
                if exists|e: int|
                    0 <= e < edges.len() && #[trigger] edges[e] == (u as u32, v as u32) && 0 <= u < g.spec_len()
                        && 0 <= v < g.spec_len() {
                    let e2 = choose|e: int|
                        0 <= e < edges.len() && #[trigger] edges[e] == (u as u32, v as u32) && 0 <= u
                            < g.spec_len() && 0 <= v < g.spec_len();
                    assert(placed(offsets@, cur, g.target_seq(), edges[e2]));
                    let k = choose|k: int|
                        offsets@[edges[e2].0 as int] <= k < cur[edges[e2].0 as int] && #[trigger] g.target_seq()[k]
                            == edges[e2].1;
                    assert(g.slot_of(u, k));
                }
            }
            assert forall|q: Seq<u8>| #[trigger] g.steady(q) == links_steady(
                g.kind_seq(),
                g.level_seq(),
                edges,
                q,
            ) by {
                if g.steady(q) {
                    assert forall|e2: int| 0 <= e2 < edges.len() implies link_ok(
                        g.kind_seq(),
                        q,
                        #[trigger] edges[e2].0 as int,
                        edges[e2].1 as int,
                    ) by {
                        assert(placed(offsets@, cur, g.target_seq(), edges[e2]));
                        let k = choose|k: int|
                            offsets@[edges[e2].0 as int] <= k < cur[edges[e2].0 as int] && #[trigger] g.target_seq()[k]
                                == edges[e2].1;
                        assert(g.slot_of(edges[e2].0 as int, k));
                    }
                }
                if links_steady(g.kind_seq(), g.level_seq(), edges, q) {
                    assert forall|u: int, k: int| #[trigger] g.slot_of(u, k) implies g.edge_ok(
                        q,
                        u,
                        g.target_seq()[k] as int,
                    ) by {
                        assert(offsets@[u] <= k < cur[u] && g.target_seq()[k] == g.target_seq()[k]);
                        let e2 = choose|e2: int|
                            0 <= e2 < m && #[trigger] edges[e2] == (u as u32, g.target_seq()[k]);
                        assert(link_ok(g.kind_seq(), q, edges[e2].0 as int, edges[e2].1 as int));
                    }
                }
            }
        }
        let ghost g_pre = g;
        g.solve();
        proof {
            assert forall|q: Seq<u8>| #[trigger] g.steady(q) == links_steady(
                g.kind_seq(),
                g.level_seq(),
                edges,
                q,
            ) by {
                g.lemma_same_steady(&g_pre, q);
            }
            assert forall|u: int, v: int| #[trigger] g.has_edge(u, v) == g_pre.has_edge(u, v) by {
                g.lemma_same_links(&g_pre, u, v);
            }
        }
        g
    }
}

} // verus!
