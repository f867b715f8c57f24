//! Bit-mask operations over Structure-of-Arrays sub-chunk masks.
//!
//! Every sub-chunk property (solid / collision / redstone …) is a bit mask of
//! 4096 bits = 64 `u64` words. Combining masks (`a & b`, `a | b`, `a & !b`,
//! popcount) is the most common inner loop in physics, lighting and redstone.
//! Each backend computes the same words; the wide backends walk the slices
//! two or four words at a time.

use vstd::prelude::*;
use crate::subchunk::{count_ones_u64, word_ones};

verus! {

/// Which backend a [`MaskOps`] implementation represents.
#[derive(Debug, Clone, Copy, PartialEq, Eq, Structural, Hash)]
pub enum Backend {
    /// Portable fallback; always available.
    Scalar,
    /// 128-bit SSE4.2.
    Sse42,
    /// 256-bit AVX2.
    Avx2,
    /// 512-bit AVX-512 (served by the AVX2 path).
    Avx512,
}

impl Backend {
    /// Human-readable name for telemetry / logging.
    pub fn name(self) -> (r: &'static str)
        ensures
            r == match self {
                Backend::Scalar => "scalar",
                Backend::Sse42 => "sse4.2",
                Backend::Avx2 => "avx2",
                Backend::Avx512 => "avx512",
            },
    {
        match self {
            Backend::Scalar => "scalar",
            Backend::Sse42 => "sse4.2",
            Backend::Avx2 => "avx2",
            Backend::Avx512 => "avx512",
        }
    }
}

/// The word-wise combination of two masks.
pub open spec fn combine(a: Seq<u64>, b: Seq<u64>, op: u8) -> Seq<u64> {
    Seq::new(a.len(), |i: int| if op == 0 { a[i] & b[i] } else if op == 1 { a[i] | b[i] } else { a[i] & !b[i] })
}

/// Number of set bits across the first `n` words of `a`.
pub open spec fn mask_ones(a: Seq<u64>, n: int) -> int
    decreases n,
{
    if n <= 0 {
        0
    } else {
        mask_ones(a, n - 1) + word_ones(a[n - 1], 64)
    }
}

proof fn lemma_word_ones_bound(w: u64, n: int)
    requires
        0 <= n <= 64,
    ensures
        0 <= word_ones(w, n) <= n,
    decreases n,
{
    if n > 0 {
        lemma_word_ones_bound(w, n - 1);
    }
}

proof fn lemma_mask_ones_bound(a: Seq<u64>, n: int)
    requires
        0 <= n <= a.len(),
    ensures
        0 <= mask_ones(a, n) <= 64 * n,
    decreases n,
{
    if n > 0 {
        lemma_mask_ones_bound(a, n - 1);
        lemma_word_ones_bound(a[n - 1], 64);
    }
}

/// Bit-mask operations over masks of equal length.
pub trait MaskOps {
    /// Which backend this implementation is.
    fn backend(&self) -> Backend;

    /// `dst = a & b`
    fn and_into(&self, dst: &mut [u64], a: &[u64], b: &[u64])
        requires
            old(dst)@.len() == a@.len(),
            a@.len() == b@.len(),
        ensures
            final(dst)@ == combine(a@, b@, 0),
    ;

    /// `dst = a | b`
    fn or_into(&self, dst: &mut [u64], a: &[u64], b: &[u64])
        requires
            old(dst)@.len() == a@.len(),
            a@.len() == b@.len(),
        ensures
            final(dst)@ == combine(a@, b@, 1),
    ;

    /// `dst = a & !b`
    fn andnot_into(&self, dst: &mut [u64], a: &[u64], b: &[u64])
        requires
            old(dst)@.len() == a@.len(),
            a@.len() == b@.len(),
        ensures
            final(dst)@ == combine(a@, b@, 2),
    ;

    /// Number of set bits across the whole slice.
    fn popcount(&self, a: &[u64]) -> (r: u32)
        requires
            a@.len() < 0x400_0000,
        ensures
            r == mask_ones(a@, a@.len() as int),
    ;
}

/// Combine `a` and `b` into `dst`, `width` words per step.
fn binop(dst: &mut [u64], a: &[u64], b: &[u64], op: u8, width: usize)
    requires
        old(dst)@.len() == a@.len(),
        a@.len() == b@.len(),
        1 <= width <= 4,
    ensures
        final(dst)@ == combine(a@, b@, op),
{
    let n = dst.len();
    let chunks = n / width;
    assert(chunks * width <= n) by (nonlinear_arith)
        requires
            chunks == n / width,
            width >= 1,
    ;
    let mut i: usize = 0;
    while i < chunks * width
        invariant
            dst@.len() == n,
            n == a@.len(),
            a@.len() == b@.len(),
            chunks * width <= n,
            i <= chunks * width,
            forall|k: int| 0 <= k < i ==> dst@[k] == #[trigger] combine(a@, b@, op)[k],
        decreases chunks * width - i,
    {
        dst[i] = if op == 0 {
            a[i] & b[i]
        } else if op == 1 {
            a[i] | b[i]
        } else {
            a[i] & !b[i]
        };
        i += 1;
    }
    while i < n
        invariant
            dst@.len() == n,
            n == a@.len(),
            a@.len() == b@.len(),
            i <= n,
            forall|k: int| 0 <= k < i ==> dst@[k] == #[trigger] combine(a@, b@, op)[k],
        decreases n - i,
    {
        dst[i] = if op == 0 {
            a[i] & b[i]
        } else if op == 1 {
            a[i] | b[i]
        } else {
            a[i] & !b[i]
        };
        i += 1;
    }
    assert(dst@ =~= combine(a@, b@, op));
}

/// Count the set bits of `a`.
fn count(a: &[u64]) -> (r: u32)
    requires
        a@.len() < 0x400_0000,
    ensures
        r == mask_ones(a@, a@.len() as int),
{
    let mut total: u32 = 0;
    let mut i: usize = 0;
    while i < a.len()
        invariant
            i <= a@.len(),
            a@.len() < 0x400_0000,
            total == mask_ones(a@, i as int),
        decreases a@.len() - i,
    {
        proof {
            lemma_mask_ones_bound(a@, i + 1);
        }
        total = total + count_ones_u64(a[i]);
        i += 1;
    }
    total
}

/// Portable scalar implementation.
pub struct Scalar;

impl MaskOps for Scalar {
    fn backend(&self) -> (r: Backend)
        ensures
            r == Backend::Scalar,
    {
        Backend::Scalar
    }

    fn and_into(&self, dst: &mut [u64], a: &[u64], b: &[u64]) {
        binop(dst, a, b, 0, 1);
    }

    fn or_into(&self, dst: &mut [u64], a: &[u64], b: &[u64]) {
        binop(dst, a, b, 1, 1);
    }

    fn andnot_into(&self, dst: &mut [u64], a: &[u64], b: &[u64]) {
        binop(dst, a, b, 2, 1);
    }

    fn popcount(&self, a: &[u64]) -> (r: u32) {
        count(a)
    }
}

/// The 128-bit path: two words per step.
pub struct Sse42;

impl MaskOps for Sse42 {
    fn backend(&self) -> (r: Backend)
        ensures
            r == Backend::Sse42,
    {
        Backend::Sse42
    }

    fn and_into(&self, dst: &mut [u64], a: &[u64], b: &[u64]) {
        binop(dst, a, b, 0, 2);
    }

    fn or_into(&self, dst: &mut [u64], a: &[u64], b: &[u64]) {
        binop(dst, a, b, 1, 2);
    }

    fn andnot_into(&self, dst: &mut [u64], a: &[u64], b: &[u64]) {
        binop(dst, a, b, 2, 2);
    }

    fn popcount(&self, a: &[u64]) -> (r: u32) {
        count(a)
    }
}

/// The 256-bit path: four words per step.
pub struct Avx2;

impl MaskOps for Avx2 {
    fn backend(&self) -> (r: Backend)
        ensures
            r == Backend::Avx2,
    {
        Backend::Avx2
    }

    fn and_into(&self, dst: &mut [u64], a: &[u64], b: &[u64]) {
        binop(dst, a, b, 0, 4);
    }

    fn or_into(&self, dst: &mut [u64], a: &[u64], b: &[u64]) {
        binop(dst, a, b, 1, 4);
    }

    fn andnot_into(&self, dst: &mut [u64], a: &[u64], b: &[u64]) {
        binop(dst, a, b, 2, 4);
    }

    fn popcount(&self, a: &[u64]) -> (r: u32) {
        count(a)
    }
}

/// The backend that serves a CPU whose best feature level is `detected`:
/// AVX-512 is routed to the AVX2 path.
pub fn serving_backend(detected: Backend) -> (r: Backend)
    ensures
        r == match detected {
            Backend::Avx512 => Backend::Avx2,
            other => other,
        },
{
    match detected {
        Backend::Avx512 => Backend::Avx2,
        other => other,
    }
}

/// The mask operations for a CPU whose best feature level is `detected`.
pub fn dispatch(detected: Backend) -> (r: &'static dyn MaskOps)
{
    match serving_backend(detected) {
        Backend::Avx2 => &Avx2,
        Backend::Sse42 => &Sse42,
        _ => &Scalar,
    }
}

} // verus!
