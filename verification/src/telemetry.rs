//! Telemetry primitives: atomic counters and gauges, and a registry of named
//! metrics that renders the Prometheus text exposition format.
//!
//! Metric names are kept in byte-wise lexicographic order, the order in which
//! Rust orders `String`s, so the exposition is deterministic.

use vstd::prelude::*;
use vstd::utf8::{encode_utf8, encode_utf8_decode_utf8};
use crate::text::{decimal, push_decimal_i64, push_decimal_u64, push_str};
use std::sync::Arc;
use std::sync::atomic::{AtomicI64, AtomicU64, Ordering};

verus! {

// ---------------------------------------------------------------------------
// Byte-wise lexicographic order
// ---------------------------------------------------------------------------

/// Length of the longest common prefix of `a` and `b`.
pub open spec fn common_prefix(a: Seq<u8>, b: Seq<u8>) -> nat
    decreases a.len(),
{
    if a.len() == 0 || b.len() == 0 || a[0] != b[0] {
        0
    } else {
        1 + common_prefix(a.drop_first(), b.drop_first())
    }
}

/// `a` sorts strictly before `b`, byte by byte (a proper prefix sorts first).
pub open spec fn bytes_before(a: Seq<u8>, b: Seq<u8>) -> bool {
    let k = common_prefix(a, b);
    k < b.len() && (k == a.len() || a[k as int] < b[k as int])
}

/// Metric name `a` sorts strictly before `b`: their UTF-8 bytes do.
pub open spec fn name_before(a: Seq<char>, b: Seq<char>) -> bool {
    bytes_before(encode_utf8(a), encode_utf8(b))
}

/// The names are in strictly increasing order.
pub open spec fn names_sorted(names: Seq<Seq<char>>) -> bool {
    forall|i: int, j: int| 0 <= i < j < names.len() ==> name_before(#[trigger] names[i], #[trigger] names[j])
}

proof fn lemma_common_prefix(a: Seq<u8>, b: Seq<u8>)
    ensures
        common_prefix(a, b) <= a.len(),
        common_prefix(a, b) <= b.len(),
        forall|j: int| 0 <= j < common_prefix(a, b) ==> a[j] == b[j],
        common_prefix(a, b) < a.len() && common_prefix(a, b) < b.len() ==> a[common_prefix(a, b) as int]
            != b[common_prefix(a, b) as int],
    decreases a.len(),
{
    if a.len() == 0 || b.len() == 0 || a[0] != b[0] {
    } else {
        let (ta, tb) = (a.drop_first(), b.drop_first());
        lemma_common_prefix(ta, tb);
        assert forall|j: int| 0 <= j < common_prefix(a, b) implies a[j] == b[j] by {
            if j > 0 {
                assert(a[j] == ta[j - 1]);
                assert(b[j] == tb[j - 1]);
            }
        }
        let k = common_prefix(ta, tb) as int;
        if k < ta.len() && k < tb.len() {
            assert(a[k + 1] == ta[k]);
            assert(b[k + 1] == tb[k]);
        }
    }
}

/// The common prefix is the one length at which the sequences agree below
/// and differ (or one ends) at.
proof fn lemma_common_prefix_is(a: Seq<u8>, b: Seq<u8>, k: int)
    requires
        0 <= k <= a.len(),
        k <= b.len(),
        forall|j: int| 0 <= j < k ==> a[j] == b[j],
        k < a.len() && k < b.len() ==> a[k] != b[k],
    ensures
        common_prefix(a, b) == k,
{
    lemma_common_prefix(a, b);
    let c = common_prefix(a, b) as int;
    if c < k {
        assert(a[c] == b[c]);
    } else if c > k {
        assert(a[k] == b[k]);
    }
}

/// Exactly one of `a < b`, `a == b`, `b < a` holds.
pub proof fn lemma_bytes_order_total(a: Seq<u8>, b: Seq<u8>)
    ensures
        bytes_before(a, b) || a == b || bytes_before(b, a),
        !(bytes_before(a, b) && bytes_before(b, a)),
        a == b ==> !bytes_before(a, b),
{
    lemma_common_prefix(a, b);
    let k = common_prefix(a, b) as int;
    assert forall|j: int| 0 <= j < k implies b[j] == a[j] by {}
    lemma_common_prefix_is(b, a, k);
    if k == a.len() && k == b.len() {
        assert(a =~= b);
    }
    if a == b {
        lemma_common_prefix_is(a, b, a.len() as int);
    }
}

/// The byte order is transitive.
pub proof fn lemma_bytes_before_transitive(a: Seq<u8>, b: Seq<u8>, c: Seq<u8>)
    requires
        bytes_before(a, b),
        bytes_before(b, c),
    ensures
        bytes_before(a, c),
{
    lemma_common_prefix(a, b);
    lemma_common_prefix(b, c);
    let k1 = common_prefix(a, b) as int;
    let k2 = common_prefix(b, c) as int;
    if k1 < k2 {
        assert(b[k1] == c[k1]);
        lemma_common_prefix_is(a, c, k1);
    } else if k2 < k1 {
        assert(a[k2] == b[k2]);
        lemma_common_prefix_is(a, c, k2);
    } else {
        lemma_common_prefix_is(a, c, k1);
    }
}

/// Names with the same UTF-8 bytes are the same name.
proof fn lemma_name_bytes_injective(a: Seq<char>, b: Seq<char>)
    requires
        encode_utf8(a) == encode_utf8(b),
    ensures
        a == b,
{
    encode_utf8_decode_utf8(a);
    encode_utf8_decode_utf8(b);
}

/// Outcome of comparing two byte strings.
enum ByteOrder {
    Before,
    Same,
    After,
}

fn byte_order(a: &[u8], b: &[u8]) -> (r: ByteOrder)
    ensures
        r is Before <==> bytes_before(a@, b@),
        r is Same <==> a@ == b@,
        r is After <==> bytes_before(b@, a@),
{
    let mut i: usize = 0;
    while i < a.len() && i < b.len() && a[i] == b[i]
        invariant
            i <= a@.len(),
            i <= b@.len(),
            forall|j: int| 0 <= j < i ==> a@[j] == b@[j],
        decreases a@.len() - i,
    {
        i += 1;
    }
    proof {
        lemma_common_prefix_is(a@, b@, i as int);
        assert forall|j: int| 0 <= j < i implies b@[j] == a@[j] by {}
        lemma_common_prefix_is(b@, a@, i as int);
        lemma_bytes_order_total(a@, b@);
    }
    if i < a.len() && i < b.len() {
        if a[i] < b[i] {
            ByteOrder::Before
        } else {
            ByteOrder::After
        }
    } else if i < b.len() {
        ByteOrder::Before
    } else if i < a.len() {
        ByteOrder::After
    } else {
        proof {
            assert(a@ =~= b@);
        }
        ByteOrder::Same
    }
}

// ---------------------------------------------------------------------------
// Counters and gauges
// ---------------------------------------------------------------------------

/// A monotonically increasing counter (e.g. ticks processed, chunks saved).
///
/// Shared between threads, so no contract can say what a read returns: any
/// other holder may add at any time.
#[derive(Debug)]
pub struct Counter(AtomicU64);

impl Counter {
    /// Add `n` to the counter (wrapping around, as the atomic addition does).
    pub fn add(&self, n: u64) {
        self.0.fetch_add(n, Ordering::Relaxed);
    }

    /// Increment by one.
    pub fn inc(&self) {
        self.add(1);
    }

    /// Current value.
    pub fn get(&self) -> u64 {
        self.0.load(Ordering::Relaxed)
    }
}

/// A value that can go up or down (e.g. loaded chunks, entities alive).
#[derive(Debug)]
pub struct Gauge(AtomicI64);

impl Gauge {
    /// Set the gauge to `v`.
    pub fn set(&self, v: i64) {
        self.0.store(v, Ordering::Relaxed);
    }

    /// Add `delta` (may be negative; wraps around as the atomic addition does).
    pub fn add(&self, delta: i64) {
        self.0.fetch_add(delta, Ordering::Relaxed);
    }

    /// Current value.
    pub fn get(&self) -> i64 {
        self.0.load(Ordering::Relaxed)
    }
}

/// Another handle to the same shared value (`Arc::clone`).
///
/// Trusted: the clone points at the value the original points at.
#[verifier::external_body]
fn share<T>(a: &Arc<T>) -> (r: Arc<T>)
    ensures
        r == *a,
{
    Arc::clone(a)
}

// ---------------------------------------------------------------------------
// Registry
// ---------------------------------------------------------------------------

/// The two kinds of metric.
#[derive(Debug, Clone, Copy, PartialEq, Eq, Structural)]
pub enum MetricKind {
    Counter,
    Gauge,
}

enum Metric {
    Counter(Arc<Counter>),
    Gauge(Arc<Gauge>),
}

spec fn metric_kind(m: Metric) -> MetricKind {
    match m {
        Metric::Counter(_) => MetricKind::Counter,
        Metric::Gauge(_) => MetricKind::Gauge,
    }
}

/// The kind registered under each name, for parallel sequences of names and
/// kinds with no name twice.
pub open spec fn kinds_map(names: Seq<Seq<char>>, kinds: Seq<MetricKind>) -> Map<Seq<char>, MetricKind> {
    Map::new(
        |n: Seq<char>| names.contains(n),
        |n: Seq<char>| kinds[choose|i: int| 0 <= i < names.len() && names[i] == n],
    )
}

/// The text block one metric contributes to the exposition.
pub open spec fn metric_lines(name: Seq<char>, kind: MetricKind, value: int) -> Seq<char> {
    "# TYPE "@ + name + (match kind {
        MetricKind::Counter => " counter\n"@,
        MetricKind::Gauge => " gauge\n"@,
    }) + name + " "@ + decimal(value) + "\n"@
}

/// The exposition of metrics `names[i]` of kind `kinds[i]` holding `values[i]`, in order.
pub open spec fn exposition(names: Seq<Seq<char>>, kinds: Seq<MetricKind>, values: Seq<int>) -> Seq<char>
    decreases names.len(),
{
    if names.len() == 0 {
        Seq::empty()
    } else {
        let last = names.len() - 1;
        exposition(names.drop_last(), kinds.drop_last(), values.drop_last()) + metric_lines(
            names[last],
            kinds[last],
            values[last],
        )
    }
}

/// Each value fits its metric's kind: a counter is a `u64`, a gauge an `i64`.
pub open spec fn values_fit(kinds: Seq<MetricKind>, values: Seq<int>) -> bool {
    forall|i: int|
        0 <= i < values.len() ==> match #[trigger] kinds[i] {
            MetricKind::Counter => 0 <= values[i] <= u64::MAX,
            MetricKind::Gauge => i64::MIN <= values[i] <= i64::MAX,
        }
}

/// A named collection of counters and gauges that renders the Prometheus
/// text exposition format.
///
/// A name holds one metric, of one kind, for the registry's lifetime.
pub struct Registry {
    entries: Vec<(String, Metric)>,
}

impl Registry {
    #[verifier::type_invariant]
    spec fn sorted(&self) -> bool {
        names_sorted(self.names())
    }

    /// The registered names, in the order they are rendered.
    pub closed spec fn names(&self) -> Seq<Seq<char>> {
        self.entries@.map_values(|e: (String, Metric)| e.0@)
    }

    /// The kind of each registered name, parallel to [`Registry::names`].
    pub closed spec fn kind_seq(&self) -> Seq<MetricKind> {
        self.entries@.map_values(|e: (String, Metric)| metric_kind(e.1))
    }

    /// The kind registered under each name.
    pub open spec fn kinds(&self) -> Map<Seq<char>, MetricKind> {
        kinds_map(self.names(), self.kind_seq())
    }

    /// The counter registered under `n` (meaningful when `n` is a counter's name).
    pub closed spec fn counter_named(&self, n: Seq<char>) -> Counter {
        let i = choose|i: int| 0 <= i < self.names().len() && self.names()[i] == n;
        match self.entries@[i].1 {
            Metric::Counter(c) => *c,
            Metric::Gauge(_) => arbitrary(),
        }
    }

    /// The gauge registered under `n` (meaningful when `n` is a gauge's name).
    pub closed spec fn gauge_named(&self, n: Seq<char>) -> Gauge {
        let i = choose|i: int| 0 <= i < self.names().len() && self.names()[i] == n;
        match self.entries@[i].1 {
            Metric::Gauge(g) => *g,
            Metric::Counter(_) => arbitrary(),
        }
    }

    /// Create an empty registry.
    pub fn new() -> (r: Self)
        ensures
            r.kinds() == Map::<Seq<char>, MetricKind>::empty(),
            r.names() == Seq::<Seq<char>>::empty(),
    {
        let r = Registry { entries: Vec::new() };
        proof {
            assert(r.names() =~= Seq::<Seq<char>>::empty());
            assert(r.kinds() =~= Map::<Seq<char>, MetricKind>::empty());
        }
        r
    }

    proof fn lemma_index_of(names: Seq<Seq<char>>, i: int)
        requires
            names_sorted(names),
            0 <= i < names.len(),
        ensures
            (choose|j: int| 0 <= j < names.len() && names[j] == names[i]) == i,
    {
        let j = choose|j: int| 0 <= j < names.len() && names[j] == names[i];
        assert(0 <= j < names.len() && names[j] == names[i]);
        if j != i {
            lemma_bytes_order_total(encode_utf8(names[i]), encode_utf8(names[i]));
            if j < i {
                assert(name_before(names[j], names[i]));
            } else {
                assert(name_before(names[i], names[j]));
            }
        }
    }

    /// Where `name` is, or where it would go to keep the names sorted.
    fn locate(&self, name: &str) -> (r: Result<usize, usize>)
        ensures
            r matches Ok(i) ==> i < self.names().len() && self.names()[i as int] == name@,
            r matches Err(p) ==> p <= self.names().len() && !self.names().contains(name@) && (forall|j: int|
                0 <= j < p ==> name_before(#[trigger] self.names()[j], name@)) && (forall|j: int|
                p <= j < self.names().len() ==> name_before(name@, #[trigger] self.names()[j])),
    {
        proof {
            use_type_invariant(self);
        }
        let nb = name.as_bytes();
        let mut i: usize = 0;
        while i < self.entries.len()
            invariant
                i <= self.entries@.len(),
                self.names().len() == self.entries@.len(),
                nb@ == encode_utf8(name@),
                names_sorted(self.names()),
                forall|j: int| 0 <= j < i ==> name_before(#[trigger] self.names()[j], name@),
            decreases self.entries@.len() - i,
        {
            let eb = self.entries[i].0.as_str().as_bytes();
            proof {
                assert(self.names()[i as int] == self.entries@[i as int].0@);
            }
            match byte_order(nb, eb) {
                ByteOrder::Same => {
                    proof {
                        lemma_name_bytes_injective(name@, self.names()[i as int]);
                    }
                    return Ok(i);
                },
                ByteOrder::Before => {
                    proof {
                        let ni = encode_utf8(self.names()[i as int]);
                        assert forall|j: int| i <= j < self.names().len() implies name_before(
                            name@,
                            #[trigger] self.names()[j],
                        ) by {
                            if j > i {
                                lemma_bytes_before_transitive(
                                    encode_utf8(name@),
                                    ni,
                                    encode_utf8(self.names()[j]),
                                );
                            }
                        }
                        if self.names().contains(name@) {
                            let j = choose|j: int| 0 <= j < self.names().len() && self.names()[j] == name@;
                            lemma_bytes_order_total(encode_utf8(name@), encode_utf8(name@));
                            if j < i {
                                assert(name_before(self.names()[j], name@));
                            } else {
                                assert(name_before(name@, self.names()[j]));
                            }
                        }
                    }
                    return Err(i);
                },
                ByteOrder::After => {},
            }
            i += 1;
        }
        proof {
            if self.names().contains(name@) {
                let j = choose|j: int| 0 <= j < self.names().len() && self.names()[j] == name@;
                lemma_bytes_order_total(encode_utf8(name@), encode_utf8(name@));
                assert(name_before(self.names()[j], name@));
            }
        }
        Err(i)
    }

    /// Inserting a new name at its sorted place keeps the names sorted and
    /// adds exactly that name, with that kind, to the map.
    proof fn lemma_insert_model(
        names: Seq<Seq<char>>,
        kinds: Seq<MetricKind>,
        p: int,
        name: Seq<char>,
        kind: MetricKind,
    )
        requires
            names_sorted(names),
            kinds.len() == names.len(),
            0 <= p <= names.len(),
            forall|j: int| 0 <= j < p ==> name_before(#[trigger] names[j], name),
            forall|j: int| p <= j < names.len() ==> name_before(name, #[trigger] names[j]),
            !names.contains(name),
        ensures
            names_sorted(names.insert(p, name)),
            kinds_map(names.insert(p, name), kinds.insert(p, kind)) == kinds_map(names, kinds).insert(name, kind),
    {
        let nn = names.insert(p, name);
        let nk = kinds.insert(p, kind);
        assert forall|i: int, j: int| 0 <= i < j < nn.len() implies name_before(#[trigger] nn[i], #[trigger] nn[j]) by {
            if j < p {
            } else if j == p {
            } else if i < p {
                lemma_bytes_before_transitive(encode_utf8(names[i]), encode_utf8(name), encode_utf8(names[j - 1]));
            } else if i == p {
            } else {
                assert(nn[i] == names[i - 1] && nn[j] == names[j - 1]);
            }
        }
        let m = kinds_map(names, kinds).insert(name, kind);
        assert forall|n: Seq<char>| #[trigger] kinds_map(nn, nk).contains_key(n) <==> m.contains_key(n) by {
            if nn.contains(n) && n != name {
                let j = choose|j: int| 0 <= j < nn.len() && nn[j] == n;
                assert(names[if j < p { j } else { j - 1 }] == n);
            }
            if names.contains(n) {
                let j = choose|j: int| 0 <= j < names.len() && names[j] == n;
                assert(nn[if j < p { j } else { j + 1 }] == n);
            }
            if n == name {
                assert(nn[p] == name);
            }
        }
        assert forall|n: Seq<char>| #[trigger] kinds_map(nn, nk).contains_key(n) implies kinds_map(nn, nk)[n] == m[n] by {
            if n == name {
                Self::lemma_index_of(nn, p);
            } else {
                let j = choose|j: int| 0 <= j < names.len() && names[j] == n;
                Self::lemma_index_of(names, j);
                let jj = if j < p { j } else { j + 1 };
                assert(nn[jj] == n);
                Self::lemma_index_of(nn, jj);
            }
        }
        assert(kinds_map(nn, nk) =~= m);
    }

    /// The kind registered under `name`, if any.
    pub fn kind_of(&self, name: &str) -> (r: Option<MetricKind>)
        ensures
            r == (if self.kinds().contains_key(name@) {
                Some(self.kinds()[name@])
            } else {
                None::<MetricKind>
            }),
    {
        proof {
            use_type_invariant(self);
        }
        match self.locate(name) {
            Ok(i) => {
                proof {
                    Self::lemma_index_of(self.names(), i as int);
                }
                match &self.entries[i].1 {
                    Metric::Counter(_) => Some(MetricKind::Counter),
                    Metric::Gauge(_) => Some(MetricKind::Gauge),
                }
            },
            Err(_) => None,
        }
    }

    /// Get or create the counter named `name`.
    ///
    /// A name already registered as a gauge is not accepted.
    pub fn counter(&mut self, name: &str) -> (r: Arc<Counter>)
        requires
            !(old(self).kinds().contains_key(name@) && old(self).kinds()[name@] == MetricKind::Gauge),
        ensures
            final(self).kinds() == old(self).kinds().insert(name@, MetricKind::Counter),
            *r == final(self).counter_named(name@),
            old(self).kinds().contains_key(name@) ==> final(self).names() == old(self).names() && *r
                == old(self).counter_named(name@),
            forall|n: Seq<char>|
                n != name@ && #[trigger] old(self).kinds().contains_key(n) ==> final(self).counter_named(n) == old(
                    self,
                ).counter_named(n) && final(self).gauge_named(n) == old(self).gauge_named(n),
    {
        proof {
            use_type_invariant(&*self);
        }
        let ghost old_names = self.names();
        match self.locate(name) {
            Ok(i) => {
                proof {
                    Self::lemma_index_of(self.names(), i as int);
                }
                match &self.entries[i].1 {
                    Metric::Counter(c) => share(c),
                    Metric::Gauge(_) => {
                        proof {
                            assert(false);
                        }
                        Arc::new(Counter(AtomicU64::new(0)))
                    },
                }
            },
            Err(p) => {
                let c = Arc::new(Counter(AtomicU64::new(0)));
                let mine = share(&c);
                let mut e: Vec<(String, Metric)> = Vec::new();
                std::mem::swap(&mut e, &mut self.entries);
                let ghost old_e = e@;
                e.insert(p, (name.to_owned(), Metric::Counter(c)));
                proof {
                    let ne = e@;
                    let nn = ne.map_values(|x: (String, Metric)| x.0@);
                    let nk = ne.map_values(|x: (String, Metric)| metric_kind(x.1));
                    let on = old_e.map_values(|x: (String, Metric)| x.0@);
                    let ok = old_e.map_values(|x: (String, Metric)| metric_kind(x.1));
                    assert(nn =~= on.insert(p as int, name@));
                    assert(nk =~= ok.insert(p as int, MetricKind::Counter));
                    Self::lemma_insert_model(on, ok, p as int, name@, MetricKind::Counter);
                    Self::lemma_index_of(nn, p as int);
                    assert forall|n: Seq<char>| n != name@ && #[trigger] kinds_map(on, ok).contains_key(n) implies {
                        let oi = choose|i: int| 0 <= i < on.len() && on[i] == n;
                        let ni = choose|i: int| 0 <= i < nn.len() && nn[i] == n;
                        ne[ni].1 == old_e[oi].1
                    } by {
                        let j = choose|j: int| 0 <= j < on.len() && on[j] == n;
                        Self::lemma_index_of(on, j);
                        let jj = if j < p { j } else { j + 1 };
                        assert(nn[jj] == n);
                        Self::lemma_index_of(nn, jj);
                    }
                }
                self.entries = e;
                mine
            },
        }
    }

    /// Get or create the gauge named `name`.
    ///
    /// A name already registered as a counter is not accepted.
    pub fn gauge(&mut self, name: &str) -> (r: Arc<Gauge>)
        requires
            !(old(self).kinds().contains_key(name@) && old(self).kinds()[name@] == MetricKind::Counter),
        ensures
            final(self).kinds() == old(self).kinds().insert(name@, MetricKind::Gauge),
            *r == final(self).gauge_named(name@),
            old(self).kinds().contains_key(name@) ==> final(self).names() == old(self).names() && *r
                == old(self).gauge_named(name@),
            forall|n: Seq<char>|
                n != name@ && #[trigger] old(self).kinds().contains_key(n) ==> final(self).counter_named(n) == old(
                    self,
                ).counter_named(n) && final(self).gauge_named(n) == old(self).gauge_named(n),
    {
        proof {
            use_type_invariant(&*self);
        }
        match self.locate(name) {
            Ok(i) => {
                proof {
                    Self::lemma_index_of(self.names(), i as int);
                }
                match &self.entries[i].1 {
                    Metric::Gauge(g) => share(g),
                    Metric::Counter(_) => {
                        proof {
                            assert(false);
                        }
                        Arc::new(Gauge(AtomicI64::new(0)))
                    },
                }
            },
            Err(p) => {
                let g = Arc::new(Gauge(AtomicI64::new(0)));
                let mine = share(&g);
                let mut e: Vec<(String, Metric)> = Vec::new();
                std::mem::swap(&mut e, &mut self.entries);
                let ghost old_e = e@;
                e.insert(p, (name.to_owned(), Metric::Gauge(g)));
                proof {
                    let ne = e@;
                    let nn = ne.map_values(|x: (String, Metric)| x.0@);
                    let nk = ne.map_values(|x: (String, Metric)| metric_kind(x.1));
                    let on = old_e.map_values(|x: (String, Metric)| x.0@);
                    let ok = old_e.map_values(|x: (String, Metric)| metric_kind(x.1));
                    assert(nn =~= on.insert(p as int, name@));
                    assert(nk =~= ok.insert(p as int, MetricKind::Gauge));
                    Self::lemma_insert_model(on, ok, p as int, name@, MetricKind::Gauge);
                    Self::lemma_index_of(nn, p as int);
                    assert forall|n: Seq<char>| n != name@ && #[trigger] kinds_map(on, ok).contains_key(n) implies {
                        let oi = choose|i: int| 0 <= i < on.len() && on[i] == n;
                        let ni = choose|i: int| 0 <= i < nn.len() && nn[i] == n;
                        ne[ni].1 == old_e[oi].1
                    } by {
                        let j = choose|j: int| 0 <= j < on.len() && on[j] == n;
                        Self::lemma_index_of(on, j);
                        let jj = if j < p { j } else { j + 1 };
                        assert(nn[jj] == n);
                        Self::lemma_index_of(nn, jj);
                    }
                }
                self.entries = e;
                mine
            },
        }
    }

    /// Render every metric in the Prometheus text exposition format, in name
    /// order, each with the value its counter or gauge held when read.
    pub fn render_prometheus(&self) -> (r: String)
        ensures
            names_sorted(self.names()),
            self.kind_seq().len() == self.names().len(),
            exists|values: Seq<int>|
                #![trigger exposition(self.names(), self.kind_seq(), values)]
                values.len() == self.names().len() && values_fit(self.kind_seq(), values) && r@ == exposition(
                    self.names(),
                    self.kind_seq(),
                    values,
                ),
    {
        proof {
            use_type_invariant(self);
        }
        let mut out = String::new();
        let ghost mut values: Seq<int> = Seq::empty();
        let mut i: usize = 0;
        while i < self.entries.len()
            invariant
                i <= self.entries@.len(),
                self.names().len() == self.entries@.len(),
                self.kind_seq().len() == self.entries@.len(),
                values.len() == i,
                values_fit(self.kind_seq(), values),
                out@ == exposition(self.names().take(i as int), self.kind_seq().take(i as int), values),
            decreases self.entries@.len() - i,
        {
            let ghost before = out@;
            let name = self.entries[i].0.as_str();
            let ghost mut v: int = 0;
            push_str(&mut out, "# TYPE ");
            push_str(&mut out, name);
            match &self.entries[i].1 {
                Metric::Counter(c) => {
                    push_str(&mut out, " counter\n");
                    push_str(&mut out, name);
                    push_str(&mut out, " ");
                    let x = c.get();
                    push_decimal_u64(&mut out, x);
                    proof {
                        v = x as int;
                    }
                },
                Metric::Gauge(g) => {
                    push_str(&mut out, " gauge\n");
                    push_str(&mut out, name);
                    push_str(&mut out, " ");
                    let x = g.get();
                    push_decimal_i64(&mut out, x);
                    proof {
                        v = x as int;
                    }
                },
            }
            push_str(&mut out, "\n");
            proof {
                let ii = i as int;
                let nm = self.names()[ii];
                let kd = self.kind_seq()[ii];
                assert(nm == self.entries@[ii].0@);
                assert(out@ =~= before + metric_lines(nm, kd, v));
                let nt = self.names().take(ii + 1);
                let kt = self.kind_seq().take(ii + 1);
                let vs = values.push(v);
                assert(nt.drop_last() =~= self.names().take(ii));
                assert(kt.drop_last() =~= self.kind_seq().take(ii));
                assert(vs.drop_last() =~= values);
                values = vs;
            }
            i += 1;
        }
        proof {
            assert(self.names().take(self.entries@.len() as int) =~= self.names());
            assert(self.kind_seq().take(self.entries@.len() as int) =~= self.kind_seq());
        }
        out
    }
}

impl Default for Registry {
    fn default() -> (r: Self)
        ensures
            r.kinds() == Map::<Seq<char>, MetricKind>::empty(),
    {
        Registry::new()
    }
}

} // verus!
