//! Character-level name matching used to classify block names
//! (`namespace:base` names, suffix/prefix/substring tests).

use vstd::prelude::*;

verus! {

/// The part of a name after its last `':'` (the whole name if it has none).
pub open spec fn base_of(s: Seq<char>) -> Seq<char>
    decreases s.len(),
{
    if s.len() == 0 {
        s
    } else if s.last() == ':' {
        Seq::empty()
    } else {
        base_of(s.drop_last()).push(s.last())
    }
}

/// `s` ends with `p`.
pub open spec fn ends_with(s: Seq<char>, p: Seq<char>) -> bool {
    p.len() <= s.len() && s.subrange(s.len() - p.len(), s.len() as int) == p
}

/// `s` starts with `p`.
pub open spec fn starts_with(s: Seq<char>, p: Seq<char>) -> bool {
    p.len() <= s.len() && s.subrange(0, p.len() as int) == p
}

/// `p` occurs somewhere in `s`.
pub open spec fn contains(s: Seq<char>, p: Seq<char>) -> bool {
    exists|i: int| 0 <= i && i + p.len() <= s.len() && #[trigger] s.subrange(i, i + p.len()) == p
}

/// The characters of `s`.
pub fn chars_of(s: &str) -> (r: Vec<char>)
    ensures
        r@ == s@,
{
    let n = s.unicode_len();
    let mut out: Vec<char> = Vec::new();
    let mut i: usize = 0;
    while i < n
        invariant
            n == s@.len(),
            i <= n,
            out@ == s@.subrange(0, i as int),
        decreases n - i,
    {
        out.push(s.get_char(i));
        proof {
            assert(out@ =~= s@.subrange(0, i + 1));
        }
        i += 1;
    }
    assert(out@ =~= s@);
    out
}

/// The characters after the last `':'` of `s`.
pub fn base_chars(s: &Vec<char>) -> (r: Vec<char>)
    ensures
        r@ == base_of(s@),
{
    let mut start: usize = s.len();
    assert(s@.subrange(0, start as int) =~= s@);
    assert(s@.subrange(start as int, s@.len() as int) =~= Seq::<char>::empty());
    assert(base_of(s@) =~= base_of(s@.subrange(0, start as int)) + s@.subrange(start as int, s@.len() as int));
    while start > 0 && s[start - 1] != ':'
        invariant
            start <= s@.len(),
            base_of(s@) == base_of(s@.subrange(0, start as int)) + s@.subrange(start as int, s@.len() as int),
        decreases start,
    {
        proof {
            let t = s@.subrange(0, start as int);
            assert(t.drop_last() =~= s@.subrange(0, start - 1));
            assert(s@.subrange(start - 1, s@.len() as int) =~= seq![t.last()] + s@.subrange(start as int, s@.len() as int));
            assert(base_of(t) == base_of(t.drop_last()).push(t.last()));
            assert(base_of(t.drop_last()).push(t.last()) + s@.subrange(start as int, s@.len() as int) =~= base_of(
                t.drop_last(),
            ) + (seq![t.last()] + s@.subrange(start as int, s@.len() as int)));
        }
        start -= 1;
    }
    proof {
        let t = s@.subrange(0, start as int);
        if start > 0 {
            assert(t.last() == ':');
        }
        assert(base_of(t) =~= Seq::<char>::empty());
        assert(base_of(s@) =~= s@.subrange(start as int, s@.len() as int));
    }
    let mut out: Vec<char> = Vec::new();
    let mut j: usize = start;
    while j < s.len()
        invariant
            start <= j <= s@.len(),
            out@ == s@.subrange(start as int, j as int),
        decreases s@.len() - j,
    {
        out.push(s[j]);
        proof {
            assert(out@ =~= s@.subrange(start as int, j + 1));
        }
        j += 1;
    }
    out
}

fn range_eq(s: &Vec<char>, at: usize, p: &Vec<char>) -> (r: bool)
    requires
        at + p@.len() <= s@.len(),
    ensures
        r == (s@.subrange(at as int, at + p@.len()) == p@),
{
    let sl = s.len();
    let mut k: usize = 0;
    while k < p.len()
        invariant
            sl == s@.len(),
            at + p@.len() <= s@.len(),
            k <= p@.len(),
            forall|q: int| 0 <= q < k ==> s@[at + q] == p@[q],
        decreases p@.len() - k,
    {
        if s[at + k] != p[k] {
            assert(s@.subrange(at as int, at + p@.len())[k as int] != p@[k as int]);
            return false;
        }
        k += 1;
    }
    assert(s@.subrange(at as int, at + p@.len()) =~= p@);
    true
}

/// Whether `s` equals the literal `lit`.
pub fn is(s: &Vec<char>, lit: &str) -> (r: bool)
    ensures
        r == (s@ == lit@),
{
    let p = chars_of(lit);
    if p.len() != s.len() {
        return false;
    }
    let r = range_eq(s, 0, &p);
    assert(s@.subrange(0, s@.len() as int) =~= s@);
    r
}

/// Whether `s` ends with the literal `lit`.
pub fn ends(s: &Vec<char>, lit: &str) -> (r: bool)
    ensures
        r == ends_with(s@, lit@),
{
    let p = chars_of(lit);
    if p.len() > s.len() {
        return false;
    }
    range_eq(s, s.len() - p.len(), &p)
}

/// Whether `s` starts with the literal `lit`.
pub fn starts(s: &Vec<char>, lit: &str) -> (r: bool)
    ensures
        r == starts_with(s@, lit@),
{
    let p = chars_of(lit);
    if p.len() > s.len() {
        return false;
    }
    range_eq(s, 0, &p)
}

/// Whether the literal `lit` occurs in `s`.
pub fn has(s: &Vec<char>, lit: &str) -> (r: bool)
    ensures
        r == contains(s@, lit@),
{
    let p = chars_of(lit);
    if p.len() > s.len() {
        return false;
    }
    let limit = s.len() - p.len();
    let mut i: usize = 0;
    while i <= limit
        invariant
            p@ == lit@,
            p@.len() <= s@.len(),
            limit == s@.len() - p@.len(),
            i <= limit + 1,
            forall|q: int| 0 <= q < i ==> #[trigger] s@.subrange(q, q + p@.len()) != p@,
        decreases s@.len() - i,
    {
        if range_eq(s, i, &p) {
            return true;
        }
        if i == limit {
            return false;
        }
        i += 1;
    }
    false
}

} // verus!
