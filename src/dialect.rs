//! The two framings of a document's root. Both share the recursive decoder
//! and encoder; they differ only in whether the root compound's name is on
//! the wire right after the root tag.
use crate::decode::{read_compound, read_nbt_string};
use crate::encode::{write_compound, write_nbt_string};
use crate::error::Error;
use crate::format::{enc_document, fits, name_fits, parse_root, root_name_of};
use crate::proofs::lemma_root_fits;
use crate::reader::NbtReader;
use crate::value::{entry_views, Tree, Value, TAG_COMPOUND};
use crate::writer::NbtWriter;
use vstd::prelude::*;

verus! {

/// The depth limit of [`Nbt::decode`] and [`NbtAfter764::decode`]: how many
/// levels of lists and compounds a document may have, the root included.
pub const MAX_DEPTH: usize = 512;

/// Reads a document's root from the cursor on: the root tag, the root name
/// when `named`, then the root compound's entries. The tree may have `depth`
/// levels of lists and compounds, the root included.
fn read_root(r: &mut NbtReader, named: bool, depth: usize) -> (res: Result<Value, Error>)
    ensures
        final(r).data@ == old(r).data@,
        match parse_root(old(r).data@, old(r).cursor as int, named, depth as nat) {
            Ok(t) => res matches Ok(v) && v.view() == t,
            Err(e) => res == Err::<Value, Error>(e),
        },
        res matches Ok(v) ==> fits(v.view()),
{
    proof {
        lemma_root_fits(r.data@, r.cursor as int, named, depth as nat);
    }
    let at = r.cursor;
    let tag = match r.read_u8() {
        Ok(t) => t,
        Err(e) => return Err(e),
    };
    if tag != TAG_COMPOUND {
        return Err(Error::RootNotCompound { tag });
    }
    if depth == 0 {
        return Err(Error::TooDeep { offset: at });
    }
    let name = if named {
        match read_nbt_string(r) {
            Ok(s) => Some(s),
            Err(e) => return Err(e),
        }
    } else {
        None
    };
    match read_compound(r, depth - 1) {
        Ok(es) => {
            let v = Value::Compound(name, es);
            proof {
                assert(entry_views(es@) =~= match v.view() {
                    Tree::Compound(_, ts) => ts,
                    _ => Seq::empty(),
                });
            }
            Ok(v)
        },
        Err(e) => Err(e),
    }
}

/// Writes a document: the root tag, `root_name` where the framing has one,
/// then the root compound's entries.
fn write_root(w: &mut NbtWriter, value: &Value, root_name: Option<&str>) -> (res: Result<(), Error>)
    requires
        fits(value.view()),
        root_name matches Some(n) ==> name_fits(n@),
    ensures
        match enc_document(
            value.view(),
            match root_name {
                Some(n) => Some(n@),
                None => None,
            },
        ) {
            Ok(b) => res is Ok && final(w).data@ == old(w).data@ + b,
            Err(e) => res == Err::<(), Error>(e),
        },
{
    match value {
        Value::Compound(_, es) => {
            w.write_u8(TAG_COMPOUND);
            match root_name {
                Some(n) => write_nbt_string(w, n),
                None => {},
            }
            let ghost mid = w.data@;
            proof {
                assert(entry_views(es@) =~= match value.view() {
                    Tree::Compound(_, ts) => ts,
                    _ => Seq::empty(),
                });
            }
            let res = write_compound(w, es);
            proof {
                if res is Ok {
                    assert(w.data@ =~= old(w).data@ + (seq![TAG_COMPOUND] + match root_name {
                        Some(n) => crate::wire::string_bytes(n@),
                        None => Seq::empty(),
                    } + w.data@.subrange(mid.len() as int, w.data@.len() as int)));
                }
            }
            res
        },
        _ => Err(Error::RootNotCompound { tag: value.tag() }),
    }
}

/// The classic framing: the root compound's name follows the root tag.
pub struct Nbt;

/// The later framing: the root tag is followed directly by the root
/// compound's entries, with no name.
pub struct NbtAfter764;

impl Nbt {
    pub fn new() -> Nbt {
        Nbt
    }

    /// Decodes a document from the reader's cursor on, under the depth limit
    /// [`MAX_DEPTH`]; the root carries the name that was read.
    pub fn from_reader(r: &mut NbtReader) -> (res: Result<Value, Error>)
        ensures
            final(r).data@ == old(r).data@,
            match parse_root(old(r).data@, old(r).cursor as int, true, MAX_DEPTH as nat) {
                Ok(t) => res matches Ok(v) && v.view() == t,
                Err(e) => res == Err::<Value, Error>(e),
            },
            res matches Ok(v) ==> fits(v.view()),
    {
        read_root(r, true, MAX_DEPTH)
    }

    /// Decodes a buffer from its first byte, under the depth limit
    /// [`MAX_DEPTH`]; bytes after the root compound's end marker are not read.
    pub fn decode(data: &[u8]) -> (res: Result<Value, Error>)
        ensures
            match parse_root(data@, 0, true, MAX_DEPTH as nat) {
                Ok(t) => res matches Ok(v) && v.view() == t,
                Err(e) => res == Err::<Value, Error>(e),
            },
            res matches Ok(v) ==> fits(v.view()),
    {
        let mut r = NbtReader::new(data);
        read_root(&mut r, true, MAX_DEPTH)
    }

    /// Decodes a buffer as [`Self::decode`] does, under the depth limit
    /// `max_depth` in place of [`MAX_DEPTH`].
    pub fn decode_with_depth(data: &[u8], max_depth: usize) -> (res: Result<Value, Error>)
        ensures
            match parse_root(data@, 0, true, max_depth as nat) {
                Ok(t) => res matches Ok(v) && v.view() == t,
                Err(e) => res == Err::<Value, Error>(e),
            },
            res matches Ok(v) ==> fits(v.view()),
    {
        let mut r = NbtReader::new(data);
        read_root(&mut r, true, max_depth)
    }

    /// Writes a document whose root name is the root's own, or the empty
    /// name where it has none.
    pub fn write_to(w: &mut NbtWriter, value: &Value) -> (res: Result<(), Error>)
        requires
            fits(value.view()),
        ensures
            match enc_document(value.view(), Some(root_name_of(value.view()))) {
                Ok(b) => res is Ok && final(w).data@ == old(w).data@ + b,
                Err(e) => res == Err::<(), Error>(e),
            },
    {
        match value {
            Value::Compound(Some(name), _) => write_root(w, value, Some(name.as_str())),
            _ => {
                let empty = String::new();
                write_root(w, value, Some(empty.as_str()))
            },
        }
    }

    /// Writes a document under the root name `name`, whatever the root's own.
    pub fn write_to_with_name(w: &mut NbtWriter, name: &str, value: &Value) -> (res: Result<
        (),
        Error,
    >)
        requires
            fits(value.view()),
            name_fits(name@),
        ensures
            match enc_document(value.view(), Some(name@)) {
                Ok(b) => res is Ok && final(w).data@ == old(w).data@ + b,
                Err(e) => res == Err::<(), Error>(e),
            },
    {
        write_root(w, value, Some(name))
    }

    /// Encodes a document into a new buffer.
    pub fn encode(value: &Value) -> (res: Result<Vec<u8>, Error>)
        requires
            fits(value.view()),
        ensures
            match enc_document(value.view(), Some(root_name_of(value.view()))) {
                Ok(b) => res matches Ok(bytes) && bytes@ == b,
                Err(e) => res == Err::<Vec<u8>, Error>(e),
            },
    {
        let mut w = NbtWriter::new();
        match Nbt::write_to(&mut w, value) {
            Ok(()) => Ok(w.get_data()),
            Err(e) => Err(e),
        }
    }
}

impl NbtAfter764 {
    pub fn new() -> NbtAfter764 {
        NbtAfter764
    }

    /// Decodes a document from the reader's cursor on, under the depth limit
    /// [`MAX_DEPTH`]; the root carries no name.
    pub fn from_reader(r: &mut NbtReader) -> (res: Result<Value, Error>)
        ensures
            final(r).data@ == old(r).data@,
            match parse_root(old(r).data@, old(r).cursor as int, false, MAX_DEPTH as nat) {
                Ok(t) => res matches Ok(v) && v.view() == t,
                Err(e) => res == Err::<Value, Error>(e),
            },
            res matches Ok(v) ==> fits(v.view()),
    {
        read_root(r, false, MAX_DEPTH)
    }

    /// Decodes a buffer from its first byte, under the depth limit
    /// [`MAX_DEPTH`]; bytes after the root compound's end marker are not read.
    pub fn decode(data: &[u8]) -> (res: Result<Value, Error>)
        ensures
            match parse_root(data@, 0, false, MAX_DEPTH as nat) {
                Ok(t) => res matches Ok(v) && v.view() == t,
                Err(e) => res == Err::<Value, Error>(e),
            },
            res matches Ok(v) ==> fits(v.view()),
    {
        let mut r = NbtReader::new(data);
        read_root(&mut r, false, MAX_DEPTH)
    }

    /// Decodes a buffer as [`Self::decode`] does, under the depth limit
    /// `max_depth` in place of [`MAX_DEPTH`].
    pub fn decode_with_depth(data: &[u8], max_depth: usize) -> (res: Result<Value, Error>)
        ensures
            match parse_root(data@, 0, false, max_depth as nat) {
                Ok(t) => res matches Ok(v) && v.view() == t,
                Err(e) => res == Err::<Value, Error>(e),
            },
            res matches Ok(v) ==> fits(v.view()),
    {
        let mut r = NbtReader::new(data);
        read_root(&mut r, false, max_depth)
    }

    /// Writes a document; the root's name, if any, is not written.
    pub fn write_to(w: &mut NbtWriter, value: &Value) -> (res: Result<(), Error>)
        requires
            fits(value.view()),
        ensures
            match enc_document(value.view(), None) {
                Ok(b) => res is Ok && final(w).data@ == old(w).data@ + b,
                Err(e) => res == Err::<(), Error>(e),
            },
    {
        write_root(w, value, None)
    }

    /// Writes a document; this framing has no root name, so `_name` is not
    /// written.
    pub fn write_to_with_name(w: &mut NbtWriter, _name: &str, value: &Value) -> (res: Result<
        (),
        Error,
    >)
        requires
            fits(value.view()),
        ensures
            match enc_document(value.view(), None) {
                Ok(b) => res is Ok && final(w).data@ == old(w).data@ + b,
                Err(e) => res == Err::<(), Error>(e),
            },
    {
        write_root(w, value, None)
    }

    /// Encodes a document into a new buffer.
    pub fn encode(value: &Value) -> (res: Result<Vec<u8>, Error>)
        requires
            fits(value.view()),
        ensures
            match enc_document(value.view(), None) {
                Ok(b) => res matches Ok(bytes) && bytes@ == b,
                Err(e) => res == Err::<Vec<u8>, Error>(e),
            },
    {
        let mut w = NbtWriter::new();
        match NbtAfter764::write_to(&mut w, value) {
            Ok(()) => Ok(w.get_data()),
            Err(e) => Err(e),
        }
    }
}

} // verus!
