//! The recursive encoder shared by both framings: tag dispatch over a
//! [`NbtWriter`], compounds, lists and arrays.
use crate::error::Error;
use crate::format::{
    elems_fit, enc_elems, enc_entries, enc_payload, entries_fit, fits, mismatch_from, name_fits,
};
use crate::value::{entry_views, views, Tree, Value, TAG_END};
use crate::wire::{be32_bytes, i32s_bytes, i64s_bytes, i8s_bytes, string_bytes};
use crate::writer::NbtWriter;
use vstd::prelude::*;

verus! {

/// An error met while encoding a prefix of a list's elements is the error of
/// the whole list's elements.
proof fn lemma_elems_err_prefix(ts: Seq<Tree>, i: int, e: Error)
    requires
        0 <= i <= ts.len(),
        enc_elems(ts.subrange(0, i)) == Err::<Seq<u8>, Error>(e),
    ensures
        enc_elems(ts) == Err::<Seq<u8>, Error>(e),
    decreases ts.len() - i,
{
    if i < ts.len() {
        assert(ts.subrange(0, i + 1).subrange(0, i) =~= ts.subrange(0, i));
        lemma_elems_err_prefix(ts, i + 1, e);
    } else {
        assert(ts.subrange(0, i) =~= ts);
    }
}

/// An error met while encoding a prefix of a compound's entries is the
/// error of all its entries.
proof fn lemma_entries_err_prefix(es: Seq<(Seq<char>, Tree)>, i: int, e: Error)
    requires
        0 <= i <= es.len(),
        enc_entries(es.subrange(0, i)) == Err::<Seq<u8>, Error>(e),
    ensures
        enc_entries(es) == Err::<Seq<u8>, Error>(e),
    decreases es.len() - i,
{
    if i < es.len() {
        assert(es.subrange(0, i + 1).subrange(0, i) =~= es.subrange(0, i));
        lemma_entries_err_prefix(es, i + 1, e);
    } else {
        assert(es.subrange(0, i) =~= es);
    }
}

/// Writes a byte array: its count, then its elements.
pub fn write_byte_array(w: &mut NbtWriter, value: &Vec<i8>)
    requires
        value@.len() <= i32::MAX,
    ensures
        final(w).data@ == old(w).data@ + be32_bytes(value@.len() as u32) + i8s_bytes(value@),
{
    w.write_i32(value.len() as i32);
    w.write_i8_array(value);
}

/// Writes a length-prefixed string.
pub fn write_nbt_string(w: &mut NbtWriter, value: &str)
    requires
        name_fits(value@),
    ensures
        final(w).data@ == old(w).data@ + string_bytes(value@),
{
    w.write_string(value);
}

/// Writes an int array: its count, then its elements.
pub fn write_int_array(w: &mut NbtWriter, value: &Vec<i32>)
    requires
        value@.len() <= i32::MAX,
    ensures
        final(w).data@ == old(w).data@ + be32_bytes(value@.len() as u32) + i32s_bytes(value@),
{
    w.write_i32(value.len() as i32);
    w.write_i32_array(value);
}

/// Writes a long array: its count, then its elements.
pub fn write_long_array(w: &mut NbtWriter, value: &Vec<i64>)
    requires
        value@.len() <= i32::MAX,
    ensures
        final(w).data@ == old(w).data@ + be32_bytes(value@.len() as u32) + i64s_bytes(value@),
{
    w.write_i32(value.len() as i32);
    w.write_i64_array(value);
}

/// Writes the payload of a value, without its tag or name: the one dispatch
/// over kinds that list elements and compound entries share.
pub fn write_payload(w: &mut NbtWriter, value: &Value) -> (res: Result<(), Error>)
    requires
        fits(value.view()),
    ensures
        match enc_payload(value.view()) {
            Ok(b) => res is Ok && final(w).data@ == old(w).data@ + b,
            Err(e) => res == Err::<(), Error>(e),
        },
    decreases value,
{
    match value {
        Value::Byte(x) => {
            w.write_i8(*x);
            assert(w.data@ =~= old(w).data@ + seq![*x as u8]);
        },
        Value::Short(x) => w.write_i16(*x),
        Value::Int(x) => w.write_i32(*x),
        Value::Long(x) => w.write_i64(*x),
        Value::Float(x) => w.write_f32_bits(*x),
        Value::Double(x) => w.write_f64_bits(*x),
        Value::ByteArray(a) => {
            write_byte_array(w, a);
            assert(w.data@ =~= old(w).data@ + (be32_bytes(a@.len() as u32) + i8s_bytes(a@)));
        },
        Value::String(s) => write_nbt_string(w, s.as_str()),
        Value::List(vs) => {
            proof {
                assert(views(vs@) =~= match value.view() {
                    Tree::List(ts) => ts,
                    _ => Seq::empty(),
                });
            }
            return write_list(w, vs);
        },
        Value::Compound(_, es) => {
            proof {
                assert(entry_views(es@) =~= match value.view() {
                    Tree::Compound(_, ts) => ts,
                    _ => Seq::empty(),
                });
            }
            assert(entries_fit(entry_views(es@)));
            return write_compound(w, es);
        },
        Value::IntArray(a) => {
            write_int_array(w, a);
            assert(w.data@ =~= old(w).data@ + (be32_bytes(a@.len() as u32) + i32s_bytes(a@)));
        },
        Value::LongArray(a) => {
            write_long_array(w, a);
            assert(w.data@ =~= old(w).data@ + (be32_bytes(a@.len() as u32) + i64s_bytes(a@)));
        },
    }
    Ok(())
}

/// Writes a list: an empty one as element tag 0 and count 0; otherwise,
/// after checking that every element has the first element's tag, that tag,
/// the count, and each element's payload.
pub fn write_list(w: &mut NbtWriter, value: &Vec<Value>) -> (res: Result<(), Error>)
    requires
        value@.len() <= i32::MAX,
        elems_fit(views(value@)),
    ensures
        match enc_payload(Tree::List(views(value@))) {
            Ok(b) => res is Ok && final(w).data@ == old(w).data@ + b,
            Err(e) => res == Err::<(), Error>(e),
        },
    decreases value,
{
    let ghost ts = views(value@);
    if value.len() == 0 {
        w.write_u8(TAG_END);
        w.write_i32(0);
        assert(w.data@ =~= old(w).data@ + (seq![TAG_END] + be32_bytes(0)));
        return Ok(());
    }
    let tag = value[0].tag();
    let mut j: usize = 0;
    while j < value.len()
        invariant
            ts == views(value@),
            ts.len() > 0,
            tag == ts[0].tag(),
            j <= value@.len(),
            mismatch_from(ts, tag, 0) == mismatch_from(ts, tag, j as int),
        decreases value@.len() - j,
    {
        let found = value[j].tag();
        if found != tag {
            return Err(Error::HeterogeneousList { expected: tag, found, index: j });
        }
        j = j + 1;
    }
    w.write_u8(tag);
    w.write_i32(value.len() as i32);
    let ghost mark = w.data@;
    let ghost mut written: Seq<u8> = Seq::empty();
    let mut i: usize = 0;
    while i < value.len()
        invariant
            ts == views(value@),
            elems_fit(ts),
            i <= value@.len(),
            ts.len() > 0,
            mismatch_from(ts, ts[0].tag(), 0) is None,
            w.data@ == mark + written,
            enc_elems(ts.subrange(0, i as int)) == Ok::<Seq<u8>, Error>(written),
        decreases value@.len() - i,
    {
        let ghost before = w.data@;
        assert(ts.subrange(0, i + 1).subrange(0, i as int) =~= ts.subrange(0, i as int));
        assert(fits(ts[i as int]));
        match write_payload(w, &value[i]) {
            Ok(()) => {
                proof {
                    let c = w.data@.subrange(before.len() as int, w.data@.len() as int);
                    assert(w.data@ =~= before + c);
                    let sub = ts.subrange(0, i + 1);
                    assert(enc_payload(value@[i as int].view()) is Ok);
                    assert(w.data@ == before + enc_payload(value@[i as int].view())->Ok_0);
                    assert(c =~= enc_payload(value@[i as int].view())->Ok_0);
                    assert(sub[i as int] == value@[i as int].view());
                    assert(enc_payload(sub[i as int]) == Ok::<Seq<u8>, Error>(c));
                    written = written + c;
                    assert(w.data@ =~= mark + written);
                }
            },
            Err(e) => {
                proof {
                    assert(ts.subrange(0, i + 1)[i as int] == value@[i as int].view());
                    lemma_elems_err_prefix(ts, i + 1, e);
                }
                return Err(e);
            },
        }
        i = i + 1;
    }
    assert(ts.subrange(0, i as int) =~= ts);
    assert(w.data@ =~= old(w).data@ + (seq![tag] + be32_bytes(value@.len() as u32) + written));
    Ok(())
}

/// Writes the entries of a compound, each as its tag, its name and its
/// payload, then the end marker.
pub fn write_compound(w: &mut NbtWriter, value: &Vec<(String, Value)>) -> (res: Result<(), Error>)
    requires
        entries_fit(entry_views(value@)),
    ensures
        match enc_payload(Tree::Compound(None, entry_views(value@))) {
            Ok(b) => res is Ok && final(w).data@ == old(w).data@ + b,
            Err(e) => res == Err::<(), Error>(e),
        },
    decreases value,
{
    let ghost es = entry_views(value@);
    let ghost mut written: Seq<u8> = Seq::empty();
    let mut i: usize = 0;
    while i < value.len()
        invariant
            es == entry_views(value@),
            entries_fit(es),
            i <= value@.len(),
            w.data@ == old(w).data@ + written,
            enc_entries(es.subrange(0, i as int)) == Ok::<Seq<u8>, Error>(written),
        decreases value@.len() - i,
    {
        let ghost before = w.data@;
        assert(es.subrange(0, i + 1).subrange(0, i as int) =~= es.subrange(0, i as int));
        assert(name_fits(es[i as int].0) && fits(es[i as int].1));
        let entry = &value[i];
        w.write_u8(entry.1.tag());
        write_nbt_string(w, entry.0.as_str());
        let ghost mid = w.data@;
        match write_payload(w, &entry.1) {
            Ok(()) => {
                proof {
                    let c = w.data@.subrange(mid.len() as int, w.data@.len() as int);
                    assert(w.data@ =~= mid + c);
                    assert(c =~= enc_payload(entry.1.view())->Ok_0);
                    assert(es.subrange(0, i + 1)[i as int] == (entry.0@, entry.1.view()));
                    written = written + seq![entry.1.view().tag()] + string_bytes(entry.0@) + c;
                    assert(w.data@ =~= old(w).data@ + written);
                }
            },
            Err(e) => {
                proof {
                    assert(es.subrange(0, i + 1)[i as int] == (entry.0@, entry.1.view()));
                    lemma_entries_err_prefix(es, i + 1, e);
                }
                return Err(e);
            },
        }
        i = i + 1;
    }
    assert(es.subrange(0, i as int) =~= es);
    w.write_u8(TAG_END);
    assert(w.data@ =~= old(w).data@ + written.push(TAG_END));
    Ok(())
}

/// Whether every length in a value fits its field on the wire, which the
/// encoder requires: strings and names of at most 65535 UTF-8 bytes, lists
/// and arrays of at most `i32::MAX` elements.
pub fn fits_on_wire(value: &Value) -> (r: bool)
    ensures
        r == fits(value.view()),
    decreases value,
{
    match value {
        Value::ByteArray(a) => a.len() <= i32::MAX as usize,
        Value::String(s) => s.as_str().as_bytes().len() <= u16::MAX as usize,
        Value::List(vs) => {
            proof {
                assert(views(vs@) =~= match value.view() {
                    Tree::List(ts) => ts,
                    _ => Seq::empty(),
                });
            }
            vs.len() <= i32::MAX as usize && elems_fit_on_wire(vs)
        },
        Value::Compound(name, es) => {
            proof {
                assert(entry_views(es@) =~= match value.view() {
                    Tree::Compound(_, ts) => ts,
                    _ => Seq::empty(),
                });
            }
            let name_ok = match name {
                Some(n) => n.as_str().as_bytes().len() <= u16::MAX as usize,
                None => true,
            };
            name_ok && entries_fit_on_wire(es)
        },
        Value::IntArray(a) => a.len() <= i32::MAX as usize,
        Value::LongArray(a) => a.len() <= i32::MAX as usize,
        _ => true,
    }
}

fn elems_fit_on_wire(vs: &Vec<Value>) -> (r: bool)
    ensures
        r == elems_fit(views(vs@)),
    decreases vs,
{
    let ghost ts = views(vs@);
    let mut i: usize = 0;
    while i < vs.len()
        invariant
            ts == views(vs@),
            i <= vs@.len(),
            forall|k: int| 0 <= k < i ==> fits(#[trigger] ts[k]),
        decreases vs@.len() - i,
    {
        if !fits_on_wire(&vs[i]) {
            assert(!fits(ts[i as int]));
            return false;
        }
        i = i + 1;
    }
    true
}

fn entries_fit_on_wire(es: &Vec<(String, Value)>) -> (r: bool)
    ensures
        r == entries_fit(entry_views(es@)),
    decreases es,
{
    let ghost ts = entry_views(es@);
    let mut i: usize = 0;
    while i < es.len()
        invariant
            ts == entry_views(es@),
            i <= es@.len(),
            forall|k: int| #![trigger ts[k]] 0 <= k < i ==> name_fits(ts[k].0) && fits(ts[k].1),
        decreases es@.len() - i,
    {
        let entry = &es[i];
        if !(entry.0.as_str().as_bytes().len() <= u16::MAX as usize && fits_on_wire(&entry.1)) {
            assert(!(name_fits(ts[i as int].0) && fits(ts[i as int].1)));
            return false;
        }
        i = i + 1;
    }
    true
}

} // verus!
