//! A small NBT reader.
//!
//! Named Binary Tag is Minecraft's big-endian tree format. This reader parses
//! every tag type into an owned [`Nbt`] tree. What a buffer parses to is stated
//! by the spec parser [`parse_spec`], over the mathematical tree [`NbtTree`];
//! [`parse`] is proved to return exactly that.
//!
//! Work stays linear in the input: a list whose header claims more items
//! than bytes remain is refused before any item is built, and so is a
//! non-empty list of end tags, whose items would take no bytes at all.

use vstd::prelude::*;
use vstd::utf8::{decode_utf8, valid_utf8};
use crate::bytes::{be16_at, be32_at, be64_at, read_u16_be, read_u32_be, read_u64_be};

verus! {

/// A parsed NBT value. Floating-point tags carry their IEEE-754 bit patterns.
#[derive(Debug, PartialEq)]
pub enum Nbt {
    /// TAG_End is only used internally as a list/compound terminator.
    End,
    Byte(i8),
    Short(i16),
    Int(i32),
    Long(i64),
    /// The bits of an `f32`.
    Float(u32),
    /// The bits of an `f64`.
    Double(u64),
    ByteArray(Vec<i8>),
    String(String),
    List(Vec<Nbt>),
    Compound(Vec<(String, Nbt)>),
    IntArray(Vec<i32>),
    LongArray(Vec<i64>),
}

/// Errors from NBT parsing.
#[derive(Debug, Clone, Copy, PartialEq, Eq, Structural)]
pub enum NbtError {
    /// Reached the end of the buffer mid-value.
    Truncated,
    /// Encountered a tag id that is not defined.
    BadTag(u8),
    /// A string held invalid UTF-8.
    BadString,
    /// The root tag was not a compound.
    RootNotCompound,
}

/// The mathematical form of an NBT value.
pub enum NbtTree {
    End,
    Byte(i8),
    Short(i16),
    Int(i32),
    Long(i64),
    Float(u32),
    Double(u64),
    ByteArray(Seq<i8>),
    String(Seq<char>),
    List(Seq<NbtTree>),
    Compound(Seq<(Seq<char>, NbtTree)>),
    IntArray(Seq<i32>),
    LongArray(Seq<i64>),
}

/// The tree a parsed value stands for.
pub open spec fn tree(n: Nbt) -> NbtTree
    decreases n,
{
    match n {
        Nbt::End => NbtTree::End,
        Nbt::Byte(v) => NbtTree::Byte(v),
        Nbt::Short(v) => NbtTree::Short(v),
        Nbt::Int(v) => NbtTree::Int(v),
        Nbt::Long(v) => NbtTree::Long(v),
        Nbt::Float(v) => NbtTree::Float(v),
        Nbt::Double(v) => NbtTree::Double(v),
        Nbt::ByteArray(v) => NbtTree::ByteArray(v@),
        Nbt::String(s) => NbtTree::String(s@),
        Nbt::List(v) => NbtTree::List(trees(v@)),
        Nbt::Compound(v) => NbtTree::Compound(field_trees(v@)),
        Nbt::IntArray(v) => NbtTree::IntArray(v@),
        Nbt::LongArray(v) => NbtTree::LongArray(v@),
    }
}

/// The trees of a list's items, in order.
pub open spec fn trees(s: Seq<Nbt>) -> Seq<NbtTree>
    decreases s,
{
    if s.len() == 0 {
        Seq::empty()
    } else {
        trees(s.subrange(0, s.len() - 1)).push(tree(s[s.len() - 1]))
    }
}

/// The named trees of a compound's fields, in order.
pub open spec fn field_trees(s: Seq<(String, Nbt)>) -> Seq<(Seq<char>, NbtTree)>
    decreases s,
{
    if s.len() == 0 {
        Seq::empty()
    } else {
        field_trees(s.subrange(0, s.len() - 1)).push((s[s.len() - 1].0@, tree(s[s.len() - 1].1)))
    }
}

/// A length field: negative lengths count as zero.
pub open spec fn count_of(v: i32) -> nat {
    if v < 0 {
        0
    } else {
        v as nat
    }
}

/// A `u16`-length-prefixed UTF-8 string at `pos`, and the position after it.
pub open spec fn string_at(buf: Seq<u8>, pos: int) -> Result<(Seq<char>, int), NbtError> {
    if pos + 2 > buf.len() {
        Err(NbtError::Truncated)
    } else {
        let end = pos + 2 + be16_at(buf, pos);
        if end > buf.len() {
            Err(NbtError::Truncated)
        } else if !valid_utf8(buf.subrange(pos + 2, end)) {
            Err(NbtError::BadString)
        } else {
            Ok((decode_utf8(buf.subrange(pos + 2, end)), end))
        }
    }
}

/// The payload of a tag of type `tag` at `pos`, and the position after it.
pub open spec fn payload_at(buf: Seq<u8>, pos: int, tag: u8) -> Result<(NbtTree, int), NbtError>
    decreases (buf.len() - pos) as nat, 1nat, 0nat,
{
    let len = buf.len();
    if tag == 0 {
        Ok((NbtTree::End, pos))
    } else if tag == 1 {
        if pos + 1 > len { Err(NbtError::Truncated) } else { Ok((NbtTree::Byte(buf[pos] as i8), pos + 1)) }
    } else if tag == 2 {
        if pos + 2 > len {
            Err(NbtError::Truncated)
        } else {
            Ok((NbtTree::Short(be16_at(buf, pos) as i16), pos + 2))
        }
    } else if tag == 3 {
        if pos + 4 > len {
            Err(NbtError::Truncated)
        } else {
            Ok((NbtTree::Int(be32_at(buf, pos) as i32), pos + 4))
        }
    } else if tag == 4 {
        if pos + 8 > len {
            Err(NbtError::Truncated)
        } else {
            Ok((NbtTree::Long(be64_at(buf, pos) as i64), pos + 8))
        }
    } else if tag == 5 {
        if pos + 4 > len { Err(NbtError::Truncated) } else { Ok((NbtTree::Float(be32_at(buf, pos)), pos + 4)) }
    } else if tag == 6 {
        if pos + 8 > len { Err(NbtError::Truncated) } else { Ok((NbtTree::Double(be64_at(buf, pos)), pos + 8)) }
    } else if tag == 7 {
        if pos + 4 > len {
            Err(NbtError::Truncated)
        } else {
            let n = count_of(be32_at(buf, pos) as i32);
            if pos + 4 + n > len {
                Err(NbtError::Truncated)
            } else {
                Ok((NbtTree::ByteArray(Seq::new(n, |i: int| buf[pos + 4 + i] as i8)), pos + 4 + n))
            }
        }
    } else if tag == 8 {
        match string_at(buf, pos) {
            Ok((s, end)) => Ok((NbtTree::String(s), end)),
            Err(e) => Err(e),
        }
    } else if tag == 9 {
        if pos + 5 > len {
            Err(NbtError::Truncated)
        } else if count_of(be32_at(buf, pos + 1) as i32) > len - (pos + 5) {
            Err(NbtError::Truncated)
        } else if buf[pos] == 0 && count_of(be32_at(buf, pos + 1) as i32) > 0 {
            Err(NbtError::BadTag(0))
        } else {
            match items_at(buf, pos + 5, buf[pos], count_of(be32_at(buf, pos + 1) as i32)) {
                Ok((items, end)) => Ok((NbtTree::List(items), end)),
                Err(e) => Err(e),
            }
        }
    } else if tag == 10 {
        match fields_at(buf, pos) {
            Ok((fields, end)) => Ok((NbtTree::Compound(fields), end)),
            Err(e) => Err(e),
        }
    } else if tag == 11 {
        if pos + 4 > len {
            Err(NbtError::Truncated)
        } else {
            let n = count_of(be32_at(buf, pos) as i32);
            if pos + 4 + 4 * n > len {
                Err(NbtError::Truncated)
            } else {
                Ok(
                    (
                        NbtTree::IntArray(Seq::new(n, |i: int| be32_at(buf, pos + 4 + 4 * i) as i32)),
                        pos + 4 + 4 * n,
                    ),
                )
            }
        }
    } else if tag == 12 {
        if pos + 4 > len {
            Err(NbtError::Truncated)
        } else {
            let n = count_of(be32_at(buf, pos) as i32);
            if pos + 4 + 8 * n > len {
                Err(NbtError::Truncated)
            } else {
                Ok(
                    (
                        NbtTree::LongArray(Seq::new(n, |i: int| be64_at(buf, pos + 4 + 8 * i) as i64)),
                        pos + 4 + 8 * n,
                    ),
                )
            }
        }
    } else {
        Err(NbtError::BadTag(tag))
    }
}

/// `k` list items of type `elem` starting at `pos`, and the position after them.
pub open spec fn items_at(buf: Seq<u8>, pos: int, elem: u8, k: nat) -> Result<
    (Seq<NbtTree>, int),
    NbtError,
>
    decreases (buf.len() - pos) as nat, 2nat, k,
{
    if k == 0 {
        Ok((Seq::empty(), pos))
    } else {
        match payload_at(buf, pos, elem) {
            Err(e) => Err(e),
            Ok((v, next)) => if pos <= next <= buf.len() {
                match items_at(buf, next, elem, (k - 1) as nat) {
                    Err(e) => Err(e),
                    Ok((rest, end)) => Ok((seq![v] + rest, end)),
                }
            } else {
                Err(NbtError::Truncated)
            },
        }
    }
}

/// The fields of a compound starting at `pos` up to and including its end
/// tag, and the position after it.
pub open spec fn fields_at(buf: Seq<u8>, pos: int) -> Result<(Seq<(Seq<char>, NbtTree)>, int), NbtError>
    decreases (buf.len() - pos) as nat, 0nat, 0nat,
{
    if pos + 1 > buf.len() {
        Err(NbtError::Truncated)
    } else if buf[pos] == 0 {
        Ok((Seq::empty(), pos + 1))
    } else {
        match string_at(buf, pos + 1) {
            Err(e) => Err(e),
            Ok((name, start)) => match payload_at(buf, start, buf[pos]) {
                Err(e) => Err(e),
                Ok((v, next)) => if start <= next <= buf.len() {
                    match fields_at(buf, next) {
                        Err(e) => Err(e),
                        Ok((rest, end)) => Ok((seq![(name, v)] + rest, end)),
                    }
                } else {
                    Err(NbtError::Truncated)
                },
            },
        }
    }
}

/// What a whole buffer parses to: a root compound tag, its name, its payload.
pub open spec fn parse_spec(buf: Seq<u8>) -> Result<NbtTree, NbtError> {
    if buf.len() < 1 {
        Err(NbtError::Truncated)
    } else if buf[0] != 10 {
        Err(NbtError::RootNotCompound)
    } else {
        match string_at(buf, 1) {
            Err(e) => Err(e),
            Ok((_, start)) => match payload_at(buf, start, 10) {
                Err(e) => Err(e),
                Ok((t, _)) => Ok(t),
            },
        }
    }
}


/// `front` followed by the items of a successful result.
pub open spec fn prepend<T>(front: Seq<T>, r: Result<(Seq<T>, int), NbtError>) -> Result<(Seq<T>, int), NbtError> {
    match r {
        Ok((rest, end)) => Ok((front + rest, end)),
        Err(e) => Err(e),
    }
}

proof fn lemma_prepend_push<T>(front: Seq<T>, x: T, r: Result<(Seq<T>, int), NbtError>)
    ensures
        prepend(front, prepend(seq![x], r)) == prepend(front.push(x), r),
{
    match r {
        Ok((rest, end)) => {
            assert(front + (seq![x] + rest) =~= front.push(x) + rest);
        },
        Err(_) => {},
    }
}

proof fn lemma_trees_push(s: Seq<Nbt>, v: Nbt)
    ensures
        trees(s.push(v)) == trees(s).push(tree(v)),
{
    assert(s.push(v).subrange(0, s.len() as int) =~= s);
}

proof fn lemma_field_trees_push(s: Seq<(String, Nbt)>, f: (String, Nbt))
    ensures
        field_trees(s.push(f)) == field_trees(s).push((f.0@, tree(f.1))),
{
    assert(s.push(f).subrange(0, s.len() as int) =~= s);
}

/// A read position over an NBT buffer.
struct Cursor<'a> {
    buf: &'a [u8],
    pos: usize,
}

/// A length field as a count: negative lengths count as zero.
fn count(v: i32) -> (r: usize)
    ensures
        r == count_of(v),
{
    if v < 0 {
        0
    } else {
        v as usize
    }
}

impl<'a> Cursor<'a> {
    spec fn ok(&self) -> bool {
        self.pos <= self.buf@.len()
    }

    /// Whether `n` more bytes are available.
    fn has(&self, n: usize) -> (r: bool)
        requires
            self.ok(),
        ensures
            r == (self.pos + n <= self.buf@.len()),
    {
        n <= self.buf.len() - self.pos
    }

    /// Read a `u16`-length-prefixed UTF-8 string.
    fn string(&mut self) -> (r: Result<String, NbtError>)
        requires
            old(self).ok(),
        ensures
            final(self).ok(),
            final(self).buf@ == old(self).buf@,
            old(self).pos <= final(self).pos,
            match r {
                Ok(s) => string_at(old(self).buf@, old(self).pos as int) == Ok::<(Seq<char>, int), NbtError>(
                    (s@, final(self).pos as int),
                ),
                Err(e) => string_at(old(self).buf@, old(self).pos as int) == Err::<(Seq<char>, int), NbtError>(e),
            },
    {
        if !self.has(2) {
            return Err(NbtError::Truncated);
        }
        assert(self.buf@.len() == self.buf.len());
        let n = read_u16_be(self.buf, self.pos) as usize;
        let start = self.pos + 2;
        if n > self.buf.len() - start {
            return Err(NbtError::Truncated);
        }
        let end = start + n;
        let slice = &self.buf[start..end];
        proof {
            assert(slice@ =~= self.buf@.subrange(start as int, end as int));
        }
        match core::str::from_utf8(slice) {
            Ok(s) => {
                let owned = s.to_owned();
                proof {
                    vstd::utf8::encode_utf8_decode_utf8(s@);
                }
                self.pos = end;
                Ok(owned)
            },
            Err(_) => Err(NbtError::BadString),
        }
    }

    /// Read the payload of a tag of type `tag`.
    fn payload(&mut self, tag: u8) -> (r: Result<Nbt, NbtError>)
        requires
            old(self).ok(),
        ensures
            final(self).ok(),
            final(self).buf@ == old(self).buf@,
            old(self).pos <= final(self).pos,
            match r {
                Ok(n) => payload_at(old(self).buf@, old(self).pos as int, tag) == Ok::<(NbtTree, int), NbtError>(
                    (tree(n), final(self).pos as int),
                ),
                Err(e) => payload_at(old(self).buf@, old(self).pos as int, tag) == Err::<(NbtTree, int), NbtError>(e),
            },
        decreases old(self).buf@.len() - old(self).pos,
    {
        let p = self.pos;
        let len = self.buf.len();
        let ghost b = self.buf@;
        assert(b.len() == len);
        if tag == 0 {
            Ok(Nbt::End)
        } else if tag == 1 {
            if !self.has(1) {
                return Err(NbtError::Truncated);
            }
            let v = self.buf[p] as i8;
            self.pos = p + 1;
            Ok(Nbt::Byte(v))
        } else if tag == 2 {
            if !self.has(2) {
                return Err(NbtError::Truncated);
            }
            let v = read_u16_be(self.buf, p) as i16;
            self.pos = p + 2;
            Ok(Nbt::Short(v))
        } else if tag == 3 {
            if !self.has(4) {
                return Err(NbtError::Truncated);
            }
            let v = read_u32_be(self.buf, p) as i32;
            self.pos = p + 4;
            Ok(Nbt::Int(v))
        } else if tag == 4 {
            if !self.has(8) {
                return Err(NbtError::Truncated);
            }
            let v = read_u64_be(self.buf, p) as i64;
            self.pos = p + 8;
            Ok(Nbt::Long(v))
        } else if tag == 5 {
            if !self.has(4) {
                return Err(NbtError::Truncated);
            }
            let v = read_u32_be(self.buf, p);
            self.pos = p + 4;
            Ok(Nbt::Float(v))
        } else if tag == 6 {
            if !self.has(8) {
                return Err(NbtError::Truncated);
            }
            let v = read_u64_be(self.buf, p);
            self.pos = p + 8;
            Ok(Nbt::Double(v))
        } else if tag == 7 {
            if !self.has(4) {
                return Err(NbtError::Truncated);
            }
            let n = count(read_u32_be(self.buf, p) as i32);
            let start = p + 4;
            if n > len - start {
                return Err(NbtError::Truncated);
            }
            let mut out: Vec<i8> = Vec::new();
            let mut i: usize = 0;
            while i < n
                invariant
                    self.buf@ == b,
                    b == old(self).buf@,
                    p == old(self).pos,
                    b.len() == len,
                    start + n <= len,
                    i <= n,
                    out@ =~= Seq::new(i as nat, |j: int| b[start + j] as i8),
                decreases n - i,
            {
                out.push(self.buf[start + i] as i8);
                i += 1;
            }
            self.pos = start + n;
            Ok(Nbt::ByteArray(out))
        } else if tag == 8 {
            match self.string() {
                Ok(s) => Ok(Nbt::String(s)),
                Err(e) => Err(e),
            }
        } else if tag == 9 {
            if !self.has(5) {
                return Err(NbtError::Truncated);
            }
            let elem = self.buf[p];
            let n = count(read_u32_be(self.buf, p + 1) as i32);
            if n > self.buf.len() - (p + 5) {
                return Err(NbtError::Truncated);
            }
            if elem == 0 && n > 0 {
                return Err(NbtError::BadTag(0));
            }
            self.pos = p + 5;
            let mut items: Vec<Nbt> = Vec::new();
            let mut i: usize = 0;
            while i < n
                invariant
                    self.buf@ == b,
                    b == old(self).buf@,
                    p == old(self).pos,
                    b.len() == len,
                    p + 5 <= self.pos <= len,
                    tag == 9,
                    i <= n,
                    n == count_of(be32_at(b, p + 1) as i32),
                    n <= len - (p + 5),
                    !(elem == 0 && n > 0),
                    elem == b[p as int],
                    items_at(b, p + 5, elem, n as nat) == prepend(
                        trees(items@),
                        items_at(b, self.pos as int, elem, (n - i) as nat),
                    ),
                decreases n - i,
            {
                let ghost q = self.pos as int;
                match self.payload(elem) {
                    Ok(v) => {
                        proof {
                            lemma_trees_push(items@, v);
                            lemma_prepend_push(
                                trees(items@),
                                tree(v),
                                items_at(b, self.pos as int, elem, (n - i - 1) as nat),
                            );
                        }
                        items.push(v);
                    },
                    Err(e) => {
                        proof {
                            assert(items_at(b, q, elem, (n - i) as nat) == Err::<(Seq<NbtTree>, int), NbtError>(e));
                        }
                        return Err(e);
                    },
                }
                i += 1;
            }
            proof {
                assert(trees(items@) + Seq::<NbtTree>::empty() =~= trees(items@));
            }
            Ok(Nbt::List(items))
        } else if tag == 10 {
            let mut fields: Vec<(String, Nbt)> = Vec::new();
            loop
                invariant_except_break
                    self.buf@ == b,
                    b == old(self).buf@,
                    p == old(self).pos,
                    b.len() == len,
                    p <= self.pos <= len,
                    tag == 10,
                    fields_at(b, p as int) == prepend(field_trees(fields@), fields_at(b, self.pos as int)),
                ensures
                    self.buf@ == b,
                    b == old(self).buf@,
                    p == old(self).pos,
                    p <= self.pos <= len,
                    fields_at(b, p as int) == Ok::<(Seq<(Seq<char>, NbtTree)>, int), NbtError>(
                        (field_trees(fields@), self.pos as int),
                    ),
                decreases len - self.pos,
            {
                let q = self.pos;
                if !self.has(1) {
                    proof {
                        assert(fields_at(b, q as int) == Err::<(Seq<(Seq<char>, NbtTree)>, int), NbtError>(
                            NbtError::Truncated,
                        ));
                    }
                    return Err(NbtError::Truncated);
                }
                let child = self.buf[q];
                proof {
                    assert(fields_at(b, q as int) == prepend(Seq::empty(), fields_at(b, q as int)));
                }
                if child == 0 {
                    self.pos = q + 1;
                    proof {
                        assert(field_trees(fields@) + Seq::<(Seq<char>, NbtTree)>::empty() =~= field_trees(
                            fields@,
                        ));
                    }
                    break;
                }
                self.pos = q + 1;
                let name = match self.string() {
                    Ok(s) => s,
                    Err(e) => {
                        return Err(e);
                    },
                };
                let ghost start = self.pos as int;
                match self.payload(child) {
                    Ok(v) => {
                        proof {
                            lemma_field_trees_push(fields@, (name, v));
                            lemma_prepend_push(
                                field_trees(fields@),
                                (name@, tree(v)),
                                fields_at(b, self.pos as int),
                            );
                        }
                        fields.push((name, v));
                    },
                    Err(e) => {
                        proof {
                            assert(fields_at(b, q as int) == Err::<(Seq<(Seq<char>, NbtTree)>, int), NbtError>(e));
                        }
                        return Err(e);
                    },
                }
            }
            Ok(Nbt::Compound(fields))
        } else if tag == 11 {
            if !self.has(4) {
                return Err(NbtError::Truncated);
            }
            let n = count(read_u32_be(self.buf, p) as i32);
            let start = p + 4;
            if n > (len - start) / 4 {
                return Err(NbtError::Truncated);
            }
            let mut out: Vec<i32> = Vec::new();
            let mut i: usize = 0;
            while i < n
                invariant
                    self.buf@ == b,
                    b == old(self).buf@,
                    p == old(self).pos,
                    b.len() == len,
                    start + 4 * n <= len,
                    i <= n,
                    out@ =~= Seq::new(i as nat, |j: int| be32_at(b, start + 4 * j) as i32),
                decreases n - i,
            {
                out.push(read_u32_be(self.buf, start + 4 * i) as i32);
                i += 1;
            }
            self.pos = start + 4 * n;
            Ok(Nbt::IntArray(out))
        } else if tag == 12 {
            if !self.has(4) {
                return Err(NbtError::Truncated);
            }
            let n = count(read_u32_be(self.buf, p) as i32);
            let start = p + 4;
            if n > (len - start) / 8 {
                return Err(NbtError::Truncated);
            }
            let mut out: Vec<i64> = Vec::new();
            let mut i: usize = 0;
            while i < n
                invariant
                    self.buf@ == b,
                    b == old(self).buf@,
                    p == old(self).pos,
                    b.len() == len,
                    start + 8 * n <= len,
                    i <= n,
                    out@ =~= Seq::new(i as nat, |j: int| be64_at(b, start + 8 * j) as i64),
                decreases n - i,
            {
                out.push(read_u64_be(self.buf, start + 8 * i) as i64);
                i += 1;
            }
            self.pos = start + 8 * n;
            Ok(Nbt::LongArray(out))
        } else {
            Err(NbtError::BadTag(tag))
        }
    }
}

/// Parse an uncompressed NBT buffer whose root is a named compound.
pub fn parse(buf: &[u8]) -> (r: Result<Nbt, NbtError>)
    ensures
        match r {
            Ok(n) => parse_spec(buf@) == Ok::<NbtTree, NbtError>(tree(n)),
            Err(e) => parse_spec(buf@) == Err::<NbtTree, NbtError>(e),
        },
{
    let mut c = Cursor { buf, pos: 0 };
    if buf.len() < 1 {
        return Err(NbtError::Truncated);
    }
    if buf[0] != 10 {
        return Err(NbtError::RootNotCompound);
    }
    c.pos = 1;
    match c.string() {
        Ok(_) => {},
        Err(e) => {
            return Err(e);
        },
    }
    c.payload(10)
}

/// A `TAG_Long` payload reads back the value written: when the eight bytes
/// at `pos` are the big-endian bytes of `v` (as `i64::to_be_bytes` writes
/// them), the payload there is `Long(v)` and ends eight bytes on.
pub proof fn lemma_long_round_trip(buf: Seq<u8>, pos: int, v: i64)
    requires
        0 <= pos,
        pos + 8 <= buf.len(),
        forall|i: int| 0 <= i < 8 ==> #[trigger] buf[pos + i] == ((v as u64) >> ((56 - 8 * i) as u64)) as u8,
    ensures
        payload_at(buf, pos, 4) == Ok::<(NbtTree, int), NbtError>((NbtTree::Long(v), pos + 8)),
{
    let x = v as u64;
    let b0 = buf[pos];
    let b1 = buf[pos + 1];
    let b2 = buf[pos + 2];
    let b3 = buf[pos + 3];
    let b4 = buf[pos + 4];
    let b5 = buf[pos + 5];
    let b6 = buf[pos + 6];
    let b7 = buf[pos + 7];
    assert(buf[pos + 0] == b0);
    assert(b0 == (x >> 56u64) as u8);
    assert(b1 == (x >> 48u64) as u8);
    assert(b2 == (x >> 40u64) as u8);
    assert(b3 == (x >> 32u64) as u8);
    assert(b4 == (x >> 24u64) as u8);
    assert(b5 == (x >> 16u64) as u8);
    assert(b6 == (x >> 8u64) as u8);
    assert(b7 == (x >> 0u64) as u8);
    assert(((b0 as u64) << 56u64) | ((b1 as u64) << 48u64) | ((b2 as u64) << 40u64) | ((b3 as u64) << 32u64) | ((
    b4 as u64) << 24u64) | ((b5 as u64) << 16u64) | ((b6 as u64) << 8u64) | (b7 as u64) == x) by (bit_vector)
        requires
            b0 == (x >> 56u64) as u8,
            b1 == (x >> 48u64) as u8,
            b2 == (x >> 40u64) as u8,
            b3 == (x >> 32u64) as u8,
            b4 == (x >> 24u64) as u8,
            b5 == (x >> 16u64) as u8,
            b6 == (x >> 8u64) as u8,
            b7 == (x >> 0u64) as u8,
    ;
    assert(be64_at(buf, pos) == x);
    assert((x as i64) == v) by (bit_vector)
        requires
            x == v as u64,
    ;
}

/// The value under the first field named `key` of `f`.
pub open spec fn field_in(f: Seq<(String, Nbt)>, key: Seq<char>) -> Option<Nbt>
    decreases f.len(),
{
    if f.len() == 0 {
        None
    } else if f[0].0@ == key {
        Some(f[0].1)
    } else {
        field_in(f.drop_first(), key)
    }
}

/// The value under the first field named `key` of the compound `n`; `None`
/// for a tag that is no compound.
pub open spec fn field(n: Nbt, key: Seq<char>) -> Option<Nbt> {
    match n {
        Nbt::Compound(f) => field_in(f@, key),
        _ => None,
    }
}

/// The first field named `key` decides `field_in`.
proof fn lemma_field_in(f: Seq<(String, Nbt)>, key: Seq<char>, i: int)
    requires
        0 <= i <= f.len(),
        forall|j: int| 0 <= j < i ==> f[j].0@ != key,
    ensures
        i < f.len() && f[i].0@ == key ==> field_in(f, key) == Some(f[i].1),
        i == f.len() ==> field_in(f, key) is None,
    decreases i,
{
    if i > 0 {
        let g = f.drop_first();
        assert forall|j: int| 0 <= j < i - 1 implies g[j].0@ != key by {
            assert(g[j] == f[j + 1]);
        }
        lemma_field_in(g, key, i - 1);
        if i < f.len() {
            assert(g[i - 1] == f[i]);
        }
    }
}

impl Nbt {
    /// Look up a field of a compound by name: the first field so named.
    pub fn get(&self, key: &str) -> (r: Option<&Nbt>)
        ensures
            match *self {
                Nbt::Compound(f) => match r {
                    Some(v) => exists|i: int|
                        0 <= i < f@.len() && #[trigger] f@[i].0@ == key@ && *v == f@[i].1 && forall|j: int|
                            0 <= j < i ==> f@[j].0@ != key@,
                    None => forall|j: int| 0 <= j < f@.len() ==> f@[j].0@ != key@,
                },
                _ => r is None,
            },
            match r {
                Some(v) => field(*self, key@) == Some(*v),
                None => field(*self, key@) is None,
            },
    {
        match self {
            Nbt::Compound(fields) => {
                let k = key.to_owned();
                let mut i: usize = 0;
                while i < fields.len()
                    invariant
                        i <= fields@.len(),
                        *self == Nbt::Compound(*fields),
                        k@ == key@,
                        forall|j: int| 0 <= j < i ==> fields@[j].0@ != key@,
                    decreases fields@.len() - i,
                {
                    if fields[i].0 == k {
                        let r = &fields[i].1;
                        assert(match *self {
                            Nbt::Compound(f) => exists|ii: int|
                                0 <= ii < f@.len() && #[trigger] f@[ii].0@ == key@ && *r == f@[ii].1 && forall|j: int|
                                    0 <= j < ii ==> f@[j].0@ != key@,
                            _ => false,
                        });
                        proof {
                            lemma_field_in(fields@, key@, i as int);
                        }
                        return Some(r);
                    }
                    i += 1;
                }
                proof {
                    lemma_field_in(fields@, key@, i as int);
                }
                None
            },
            _ => None,
        }
    }

    /// As a `&str` if this is a string tag.
    pub fn as_str(&self) -> (r: Option<&str>)
        ensures
            match *self {
                Nbt::String(s) => r matches Some(x) && x@ == s@,
                _ => r is None,
            },
    {
        match self {
            Nbt::String(s) => Some(s.as_str()),
            _ => None,
        }
    }

    /// As an `i64` if this is any integer tag.
    pub fn as_i64(&self) -> (r: Option<i64>)
        ensures
            r == match *self {
                Nbt::Byte(v) => Some(v as i64),
                Nbt::Short(v) => Some(v as i64),
                Nbt::Int(v) => Some(v as i64),
                Nbt::Long(v) => Some(v),
                _ => None,
            },
    {
        match self {
            Nbt::Byte(v) => Some(*v as i64),
            Nbt::Short(v) => Some(*v as i64),
            Nbt::Int(v) => Some(*v as i64),
            Nbt::Long(v) => Some(*v),
            _ => None,
        }
    }

    /// As a list slice if this is a list tag.
    pub fn as_list(&self) -> (r: Option<&[Nbt]>)
        ensures
            match *self {
                Nbt::List(items) => r matches Some(x) && x@ == items@,
                _ => r is None,
            },
    {
        match self {
            Nbt::List(items) => Some(items.as_slice()),
            _ => None,
        }
    }

    /// As a `long[]` if this is a long-array tag.
    pub fn as_long_array(&self) -> (r: Option<&[i64]>)
        ensures
            match *self {
                Nbt::LongArray(v) => r matches Some(x) && x@ == v@,
                _ => r is None,
            },
    {
        match self {
            Nbt::LongArray(v) => Some(v.as_slice()),
            _ => None,
        }
    }
}

} // verus!
