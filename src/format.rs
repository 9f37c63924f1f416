//! What the format is: the bytes that encode a tree, and the tree (or the
//! error) that decoding a buffer gives, as spec functions over the model
//! [`Tree`]. The decoder and encoder are proved against these.
use crate::error::Error;
use crate::value::{
    Tree, TAG_BYTE, TAG_BYTE_ARRAY, TAG_COMPOUND, TAG_DOUBLE, TAG_END, TAG_FLOAT, TAG_INT,
    TAG_INT_ARRAY, TAG_LIST, TAG_LONG, TAG_LONG_ARRAY, TAG_SHORT, TAG_STRING,
};
use crate::wire::{
    be16_at, be16_bytes, be32_at, be32_bytes, be64_at, be64_bytes, i32s_at, i32s_bytes, i64s_at,
    i64s_bytes, i8s_at, i8s_bytes, string_bytes,
};
use vstd::prelude::*;
use vstd::utf8::{decode_utf8, encode_utf8, valid_utf8};

verus! {

/// Whether a byte is the tag of a value kind (the end marker is not).
pub open spec fn is_value_tag(t: u8) -> bool {
    TAG_BYTE <= t <= TAG_LONG_ARRAY
}

/// Whether a string's UTF-8 length fits the two-byte length field.
pub open spec fn name_fits(s: Seq<char>) -> bool {
    encode_utf8(s).len() <= u16::MAX
}

/// Whether every length in a tree fits its field on the wire: strings and
/// names in two bytes, list and array counts in a non-negative `i32`.
pub open spec fn fits(t: Tree) -> bool
    decreases t,
{
    match t {
        Tree::ByteArray(a) => a.len() <= i32::MAX,
        Tree::Str(s) => name_fits(s),
        Tree::List(vs) => vs.len() <= i32::MAX && elems_fit(vs),
        Tree::Compound(name, es) => (name matches Some(n) ==> name_fits(n)) && entries_fit(es),
        Tree::IntArray(a) => a.len() <= i32::MAX,
        Tree::LongArray(a) => a.len() <= i32::MAX,
        _ => true,
    }
}

/// Whether every length in each of a list's elements fits its field.
pub open spec fn elems_fit(vs: Seq<Tree>) -> bool
    decreases vs,
{
    forall|i: int| 0 <= i < vs.len() ==> fits(#[trigger] vs[i])
}

/// Whether each entry's name, and every length in its value, fits its field.
pub open spec fn entries_fit(es: Seq<(Seq<char>, Tree)>) -> bool
    decreases es,
{
    forall|i: int| #![trigger es[i]] 0 <= i < es.len() ==> name_fits(es[i].0) && fits(es[i].1)
}

/// Whether a tree has at most `d` levels of lists and compounds, itself
/// included.
pub open spec fn nested_within(t: Tree, d: nat) -> bool
    decreases t,
{
    match t {
        Tree::List(vs) => d > 0 && forall|i: int|
            0 <= i < vs.len() ==> nested_within(#[trigger] vs[i], (d - 1) as nat),
        Tree::Compound(_, es) => d > 0 && forall|i: int|
            #![trigger es[i]]
            0 <= i < es.len() ==> nested_within(es[i].1, (d - 1) as nat),
        _ => true,
    }
}

// ----- encoding -----

/// The first index from `i` on whose element's tag differs from `t`.
pub open spec fn mismatch_from(vs: Seq<Tree>, t: u8, i: int) -> Option<int>
    decreases vs.len() - i,
{
    if i < 0 || i >= vs.len() {
        None
    } else if vs[i].tag() != t {
        Some(i)
    } else {
        mismatch_from(vs, t, i + 1)
    }
}

/// The bytes of a value without its tag or name, or the first error met
/// while encoding it (in the order the bytes are written).
pub open spec fn enc_payload(t: Tree) -> Result<Seq<u8>, Error>
    decreases t,
{
    match t {
        Tree::Byte(x) => Ok(seq![x as u8]),
        Tree::Short(x) => Ok(be16_bytes(x as u16)),
        Tree::Int(x) => Ok(be32_bytes(x as u32)),
        Tree::Long(x) => Ok(be64_bytes(x as u64)),
        Tree::Float(x) => Ok(be32_bytes(x)),
        Tree::Double(x) => Ok(be64_bytes(x)),
        Tree::ByteArray(a) => Ok(be32_bytes(a.len() as u32) + i8s_bytes(a)),
        Tree::Str(s) => Ok(string_bytes(s)),
        Tree::List(vs) => if vs.len() == 0 {
            Ok(seq![TAG_END] + be32_bytes(0))
        } else {
            match mismatch_from(vs, vs[0].tag(), 0) {
                Some(j) => Err(
                    Error::HeterogeneousList {
                        expected: vs[0].tag(),
                        found: vs[j].tag(),
                        index: j as usize,
                    },
                ),
                None => match enc_elems(vs) {
                    Ok(b) => Ok(seq![vs[0].tag()] + be32_bytes(vs.len() as u32) + b),
                    Err(e) => Err(e),
                },
            }
        },
        Tree::Compound(_, es) => match enc_entries(es) {
            Ok(b) => Ok(b.push(TAG_END)),
            Err(e) => Err(e),
        },
        Tree::IntArray(a) => Ok(be32_bytes(a.len() as u32) + i32s_bytes(a)),
        Tree::LongArray(a) => Ok(be32_bytes(a.len() as u32) + i64s_bytes(a)),
    }
}

/// The payloads of list elements one after the other.
pub open spec fn enc_elems(vs: Seq<Tree>) -> Result<Seq<u8>, Error>
    decreases vs,
{
    if vs.len() == 0 {
        Ok(Seq::empty())
    } else {
        match enc_elems(vs.subrange(0, vs.len() - 1)) {
            Err(e) => Err(e),
            Ok(b) => match enc_payload(vs[vs.len() - 1]) {
                Err(e) => Err(e),
                Ok(c) => Ok(b + c),
            },
        }
    }
}

/// The entries of a compound, each as its tag, its name and its payload,
/// without the end marker.
pub open spec fn enc_entries(es: Seq<(Seq<char>, Tree)>) -> Result<Seq<u8>, Error>
    decreases es,
{
    if es.len() == 0 {
        Ok(Seq::empty())
    } else {
        match enc_entries(es.subrange(0, es.len() - 1)) {
            Err(e) => Err(e),
            Ok(b) => match enc_payload(es[es.len() - 1].1) {
                Err(e) => Err(e),
                Ok(c) => Ok(
                    b + seq![es[es.len() - 1].1.tag()] + string_bytes(es[es.len() - 1].0) + c,
                ),
            },
        }
    }
}

/// A document: the root tag, the root name where the framing has one, then
/// the root compound's entries and end marker.
pub open spec fn enc_document(t: Tree, root_name: Option<Seq<char>>) -> Result<Seq<u8>, Error> {
    if t is Compound {
        match enc_payload(t) {
            Ok(b) => Ok(
                seq![TAG_COMPOUND] + match root_name {
                    Some(n) => string_bytes(n),
                    None => Seq::empty(),
                } + b,
            ),
            Err(e) => Err(e),
        }
    } else {
        Err(Error::RootNotCompound { tag: t.tag() })
    }
}

/// The name that the named-root framing writes for a root: its own, or the
/// empty name where it has none.
pub open spec fn root_name_of(t: Tree) -> Seq<char> {
    match t {
        Tree::Compound(Some(n), _) => n,
        _ => Seq::empty(),
    }
}

// ----- decoding -----

/// Prepends `ts` to what a successful parse of a sequence gave.
pub open spec fn prepend<T>(ts: Seq<T>, r: Result<(Seq<T>, int), Error>) -> Result<
    (Seq<T>, int),
    Error,
> {
    match r {
        Ok((us, q)) => Ok((ts + us, q)),
        Err(e) => Err(e),
    }
}

pub open spec fn end_at(p: int) -> Error {
    Error::UnexpectedEndOfInput { offset: p as usize }
}

/// A length-prefixed string at `p`: the characters and the position after it.
pub open spec fn parse_string(b: Seq<u8>, p: int) -> Result<(Seq<char>, int), Error> {
    if p + 2 > b.len() {
        Err(end_at(p))
    } else {
        let n = be16_at(b, p) as int;
        let q = p + 2;
        if q + n > b.len() {
            Err(end_at(q))
        } else if !valid_utf8(b.subrange(q, q + n)) {
            Err(Error::InvalidUtf8 { offset: q as usize, len: n as usize })
        } else {
            Ok((decode_utf8(b.subrange(q, q + n)), q + n))
        }
    }
}

/// A signed four-byte element count at `p`, which must not be negative.
pub open spec fn parse_count(b: Seq<u8>, p: int) -> Result<int, Error> {
    if p + 4 > b.len() {
        Err(end_at(p))
    } else if (be32_at(b, p) as i32) < 0 {
        Err(Error::NegativeLength { length: be32_at(b, p) as i32, offset: p as usize })
    } else {
        Ok(be32_at(b, p) as i32 as int)
    }
}

/// The payload of a value of kind `tag` at `p`: the tree and the position
/// after it. A list or compound may hold `depth` more levels of lists and
/// compounds, itself included.
pub open spec fn parse_payload(b: Seq<u8>, tag: u8, p: int, depth: nat) -> Result<
    (Tree, int),
    Error,
>
    decreases b.len() - p, 2int,
{
    if tag == TAG_BYTE {
        if p + 1 > b.len() {
            Err(end_at(p))
        } else {
            Ok((Tree::Byte(b[p] as i8), p + 1))
        }
    } else if tag == TAG_SHORT {
        if p + 2 > b.len() {
            Err(end_at(p))
        } else {
            Ok((Tree::Short(be16_at(b, p) as i16), p + 2))
        }
    } else if tag == TAG_INT || tag == TAG_FLOAT {
        if p + 4 > b.len() {
            Err(end_at(p))
        } else if tag == TAG_INT {
            Ok((Tree::Int(be32_at(b, p) as i32), p + 4))
        } else {
            Ok((Tree::Float(be32_at(b, p)), p + 4))
        }
    } else if tag == TAG_LONG || tag == TAG_DOUBLE {
        if p + 8 > b.len() {
            Err(end_at(p))
        } else if tag == TAG_LONG {
            Ok((Tree::Long(be64_at(b, p) as i64), p + 8))
        } else {
            Ok((Tree::Double(be64_at(b, p)), p + 8))
        }
    } else if tag == TAG_BYTE_ARRAY || tag == TAG_INT_ARRAY || tag == TAG_LONG_ARRAY {
        match parse_count(b, p) {
            Err(e) => Err(e),
            Ok(n) => {
                let q = p + 4;
                let w: int = if tag == TAG_BYTE_ARRAY {
                    1
                } else if tag == TAG_INT_ARRAY {
                    4
                } else {
                    8
                };
                if q + w * n > b.len() {
                    Err(end_at(q))
                } else if tag == TAG_BYTE_ARRAY {
                    Ok((Tree::ByteArray(i8s_at(b, q, n as nat)), q + n))
                } else if tag == TAG_INT_ARRAY {
                    Ok((Tree::IntArray(i32s_at(b, q, n as nat)), q + 4 * n))
                } else {
                    Ok((Tree::LongArray(i64s_at(b, q, n as nat)), q + 8 * n))
                }
            },
        }
    } else if tag == TAG_STRING {
        match parse_string(b, p) {
            Ok((s, q)) => Ok((Tree::Str(s), q)),
            Err(e) => Err(e),
        }
    } else if (tag == TAG_LIST || tag == TAG_COMPOUND) && depth == 0 {
        Err(Error::TooDeep { offset: p as usize })
    } else if tag == TAG_LIST {
        match parse_list(b, p, (depth - 1) as nat) {
            Ok((ts, q)) => Ok((Tree::List(ts), q)),
            Err(e) => Err(e),
        }
    } else if tag == TAG_COMPOUND {
        match parse_entries(b, p, (depth - 1) as nat) {
            Ok((es, q)) => Ok((Tree::Compound(None, es), q)),
            Err(e) => Err(e),
        }
    } else {
        Err(Error::InvalidTag { tag, offset: p as usize })
    }
}

/// A list at `p`: element tag, count, then the elements' payloads, each of
/// which may hold `depth` levels of lists and compounds.
pub open spec fn parse_list(b: Seq<u8>, p: int, depth: nat) -> Result<(Seq<Tree>, int), Error>
    decreases b.len() - p, 1int,
{
    if p + 1 > b.len() {
        Err(end_at(p))
    } else {
        let et = b[p];
        match parse_count(b, p + 1) {
            Err(e) => Err(e),
            Ok(n) => if n > 0 && !is_value_tag(et) {
                Err(Error::InvalidTag { tag: et, offset: p as usize })
            } else {
                parse_elems(b, et, n, p + 5, depth)
            },
        }
    }
}

/// `n` payloads of kind `et` one after the other from `p` on.
pub open spec fn parse_elems(b: Seq<u8>, et: u8, n: int, p: int, depth: nat) -> Result<
    (Seq<Tree>, int),
    Error,
>
    decreases b.len() - p, 3int,
{
    if n <= 0 {
        Ok((Seq::empty(), p))
    } else {
        match parse_payload(b, et, p, depth) {
            Err(e) => Err(e),
            Ok((t, q)) => if !(p < q <= b.len()) {
                Err(end_at(q))
            } else {
                prepend(seq![t], parse_elems(b, et, n - 1, q, depth))
            },
        }
    }
}

/// The entries of a compound from `p` on, through its end marker; each
/// value may hold `depth` levels of lists and compounds.
pub open spec fn parse_entries(b: Seq<u8>, p: int, depth: nat) -> Result<
    (Seq<(Seq<char>, Tree)>, int),
    Error,
>
    decreases b.len() - p, 1int,
{
    if p + 1 > b.len() {
        Err(end_at(p))
    } else {
        let t = b[p];
        if t == TAG_END {
            Ok((Seq::empty(), p + 1))
        } else if !is_value_tag(t) {
            Err(Error::InvalidTag { tag: t, offset: p as usize })
        } else {
            match parse_string(b, p + 1) {
                Err(e) => Err(e),
                Ok((name, q)) => match parse_payload(b, t, q, depth) {
                    Err(e) => Err(e),
                    Ok((v, q1)) => if !(q < q1 <= b.len()) {
                        Err(end_at(q1))
                    } else {
                        prepend(seq![(name, v)], parse_entries(b, q1, depth))
                    },
                },
            }
        }
    }
}

/// A document at `p`: the root tag, which must be the compound tag; the
/// root name where the framing has one; then the root compound's entries.
/// The tree may have `depth` levels of lists and compounds, the root
/// included.
pub open spec fn parse_root(b: Seq<u8>, p: int, named: bool, depth: nat) -> Result<Tree, Error> {
    if p + 1 > b.len() {
        Err(end_at(p))
    } else if b[p] != TAG_COMPOUND {
        Err(Error::RootNotCompound { tag: b[p] })
    } else if depth == 0 {
        Err(Error::TooDeep { offset: p as usize })
    } else if named {
        match parse_string(b, p + 1) {
            Err(e) => Err(e),
            Ok((name, q)) => match parse_entries(b, q, (depth - 1) as nat) {
                Ok((es, _)) => Ok(Tree::Compound(Some(name), es)),
                Err(e) => Err(e),
            },
        }
    } else {
        match parse_entries(b, p + 1, (depth - 1) as nat) {
            Ok((es, _)) => Ok(Tree::Compound(None, es)),
            Err(e) => Err(e),
        }
    }
}

} // verus!
