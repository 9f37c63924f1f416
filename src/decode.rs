//! The recursive decoder shared by both framings: tag dispatch over a
//! [`NbtReader`], compounds, lists and arrays.
use crate::error::Error;
use crate::format::{
    is_value_tag, parse_count, parse_elems, parse_entries, parse_list, parse_payload,
    parse_string, prepend,
};
use crate::reader::NbtReader;
use crate::value::{
    entry_views, views, Value, TAG_BYTE, TAG_BYTE_ARRAY, TAG_COMPOUND, TAG_DOUBLE, TAG_END,
    TAG_FLOAT, TAG_INT, TAG_INT_ARRAY, TAG_LIST, TAG_LONG, TAG_LONG_ARRAY, TAG_SHORT, TAG_STRING,
};
use vstd::prelude::*;

verus! {

/// Reads a length-prefixed string.
pub fn read_nbt_string(r: &mut NbtReader) -> (res: Result<String, Error>)
    ensures
        final(r).data@ == old(r).data@,
        match parse_string(old(r).data@, old(r).cursor as int) {
            Ok((s, q)) => res matches Ok(v) && v@ == s && final(r).cursor == q,
            Err(e) => res == Err::<String, Error>(e),
        },
{
    let len = match r.read_u16() {
        Ok(n) => n,
        Err(e) => return Err(e),
    };
    r.read_string(len as usize)
}

/// Reads a signed four-byte element count and rejects a negative one.
fn read_count(r: &mut NbtReader) -> (res: Result<usize, Error>)
    ensures
        final(r).data@ == old(r).data@,
        match parse_count(old(r).data@, old(r).cursor as int) {
            Ok(n) => res == Ok::<usize, Error>(n as usize) && final(r).cursor == old(r).cursor + 4,
            Err(e) => res == Err::<usize, Error>(e),
        },
{
    let at = r.cursor;
    match r.read_i32() {
        Ok(n) => if n < 0 {
            Err(Error::NegativeLength { length: n, offset: at })
        } else {
            Ok(n as usize)
        },
        Err(e) => Err(e),
    }
}

/// Reads a byte array: its count, then its elements.
pub fn read_byte_array(r: &mut NbtReader) -> (res: Result<Vec<i8>, Error>)
    ensures
        final(r).data@ == old(r).data@,
        match parse_payload(old(r).data@, TAG_BYTE_ARRAY, old(r).cursor as int, 0) {
            Ok((t, q)) => res matches Ok(a) && Value::ByteArray(a).view() == t && final(r).cursor
                == q,
            Err(e) => res == Err::<Vec<i8>, Error>(e),
        },
{
    let n = match read_count(r) {
        Ok(n) => n,
        Err(e) => return Err(e),
    };
    r.read_i8_array(n)
}

/// Reads an int array: its count, then its elements.
pub fn read_int_array(r: &mut NbtReader) -> (res: Result<Vec<i32>, Error>)
    ensures
        final(r).data@ == old(r).data@,
        match parse_payload(old(r).data@, TAG_INT_ARRAY, old(r).cursor as int, 0) {
            Ok((t, q)) => res matches Ok(a) && Value::IntArray(a).view() == t && final(r).cursor
                == q,
            Err(e) => res == Err::<Vec<i32>, Error>(e),
        },
{
    let n = match read_count(r) {
        Ok(n) => n,
        Err(e) => return Err(e),
    };
    r.read_i32_array(n)
}

/// Reads a long array: its count, then its elements.
pub fn read_long_array(r: &mut NbtReader) -> (res: Result<Vec<i64>, Error>)
    ensures
        final(r).data@ == old(r).data@,
        match parse_payload(old(r).data@, TAG_LONG_ARRAY, old(r).cursor as int, 0) {
            Ok((t, q)) => res matches Ok(a) && Value::LongArray(a).view() == t && final(r).cursor
                == q,
            Err(e) => res == Err::<Vec<i64>, Error>(e),
        },
{
    let n = match read_count(r) {
        Ok(n) => n,
        Err(e) => return Err(e),
    };
    r.read_i64_array(n)
}

/// Reads the payload of a value whose tag has been read: the one dispatch
/// over tags that list elements and compound entries share. A list or
/// compound may hold `depth` levels of lists and compounds, itself included;
/// the check at this entry point is what bounds the recursion.
pub fn read_payload(r: &mut NbtReader, tag: u8, depth: usize) -> (res: Result<Value, Error>)
    requires
        is_value_tag(tag),
    ensures
        final(r).data@ == old(r).data@,
        match parse_payload(old(r).data@, tag, old(r).cursor as int, depth as nat) {
            Ok((t, q)) => res matches Ok(v) && v.view() == t && final(r).cursor == q,
            Err(e) => res == Err::<Value, Error>(e),
        },
        res is Ok ==> old(r).cursor < final(r).cursor <= old(r).data@.len(),
    decreases old(r).data@.len() - old(r).cursor, 2int,
{
    if tag == TAG_BYTE {
        match r.read_i8() {
            Ok(x) => Ok(Value::Byte(x)),
            Err(e) => Err(e),
        }
    } else if tag == TAG_SHORT {
        match r.read_i16() {
            Ok(x) => Ok(Value::Short(x)),
            Err(e) => Err(e),
        }
    } else if tag == TAG_INT {
        match r.read_i32() {
            Ok(x) => Ok(Value::Int(x)),
            Err(e) => Err(e),
        }
    } else if tag == TAG_LONG {
        match r.read_i64() {
            Ok(x) => Ok(Value::Long(x)),
            Err(e) => Err(e),
        }
    } else if tag == TAG_FLOAT {
        match r.read_f32_bits() {
            Ok(x) => Ok(Value::Float(x)),
            Err(e) => Err(e),
        }
    } else if tag == TAG_DOUBLE {
        match r.read_f64_bits() {
            Ok(x) => Ok(Value::Double(x)),
            Err(e) => Err(e),
        }
    } else if tag == TAG_BYTE_ARRAY {
        match read_byte_array(r) {
            Ok(a) => Ok(Value::ByteArray(a)),
            Err(e) => Err(e),
        }
    } else if tag == TAG_STRING {
        match read_nbt_string(r) {
            Ok(s) => Ok(Value::String(s)),
            Err(e) => Err(e),
        }
    } else if (tag == TAG_LIST || tag == TAG_COMPOUND) && depth == 0 {
        Err(Error::TooDeep { offset: r.cursor })
    } else if tag == TAG_LIST {
        match read_list(r, depth - 1) {
            Ok(vs) => {
                let v = Value::List(vs);
                proof {
                    assert(views(vs@) =~= match v.view() {
                        crate::value::Tree::List(ts) => ts,
                        _ => Seq::empty(),
                    });
                }
                Ok(v)
            },
            Err(e) => Err(e),
        }
    } else if tag == TAG_COMPOUND {
        match read_compound(r, depth - 1) {
            Ok(es) => {
                let v = Value::Compound(None, es);
                proof {
                    assert(entry_views(es@) =~= match v.view() {
                        crate::value::Tree::Compound(_, ts) => ts,
                        _ => Seq::empty(),
                    });
                }
                Ok(v)
            },
            Err(e) => Err(e),
        }
    } else if tag == TAG_INT_ARRAY {
        match read_int_array(r) {
            Ok(a) => Ok(Value::IntArray(a)),
            Err(e) => Err(e),
        }
    } else {
        match read_long_array(r) {
            Ok(a) => Ok(Value::LongArray(a)),
            Err(e) => Err(e),
        }
    }
}

/// Reads a list: the element tag, the count, then that many payloads of
/// that kind, each of which may hold `depth` levels of lists and compounds.
/// An empty list may carry any element tag.
pub fn read_list(r: &mut NbtReader, depth: usize) -> (res: Result<Vec<Value>, Error>)
    ensures
        final(r).data@ == old(r).data@,
        match parse_list(old(r).data@, old(r).cursor as int, depth as nat) {
            Ok((ts, q)) => res matches Ok(vs) && views(vs@) == ts && final(r).cursor == q,
            Err(e) => res == Err::<Vec<Value>, Error>(e),
        },
        res is Ok ==> old(r).cursor < final(r).cursor <= old(r).data@.len(),
    decreases old(r).data@.len() - old(r).cursor, 1int,
{
    let ghost d = r.data@;
    let ghost p0 = r.cursor as int;
    let at = r.cursor;
    let et = match r.read_u8() {
        Ok(t) => t,
        Err(e) => return Err(e),
    };
    let n = match read_count(r) {
        Ok(n) => n,
        Err(e) => return Err(e),
    };
    if n > 0 && !(TAG_BYTE <= et && et <= TAG_LONG_ARRAY) {
        return Err(Error::InvalidTag { tag: et, offset: at });
    }
    let mut list: Vec<Value> = Vec::new();
    let mut i: usize = 0;
    while i < n
        invariant
            r.data@ == d,
            d == old(r).data@,
            p0 == old(r).cursor,
            i <= n,
            n <= i32::MAX,
            p0 + 5 <= r.cursor <= d.len(),
            n > 0 ==> is_value_tag(et),
            parse_list(d, p0, depth as nat) == prepend(
                views(list@),
                parse_elems(d, et, n - i, r.cursor as int, depth as nat),
            ),
        decreases n - i,
    {
        let ghost c = r.cursor as int;
        match read_payload(r, et, depth) {
            Ok(v) => {
                proof {
                    let rest = parse_elems(d, et, n - i - 1, r.cursor as int, depth as nat);
                    assert(views(list@.push(v)) =~= views(list@) + seq![v.view()]);
                    match rest {
                        Ok((us, q)) => {
                            assert(views(list@) + (seq![v.view()] + us) =~= views(list@.push(v))
                                + us);
                        },
                        Err(_) => {},
                    }
                }
                list.push(v);
            },
            Err(e) => return Err(e),
        }
        i = i + 1;
    }
    proof {
        assert(views(list@) + Seq::<crate::value::Tree>::empty() =~= views(list@));
    }
    Ok(list)
}

/// Reads the entries of a compound up to and including its end marker;
/// each value may hold `depth` levels of lists and compounds.
pub fn read_compound(r: &mut NbtReader, depth: usize) -> (res: Result<Vec<(String, Value)>, Error>)
    ensures
        final(r).data@ == old(r).data@,
        match parse_entries(old(r).data@, old(r).cursor as int, depth as nat) {
            Ok((es, q)) => res matches Ok(vs) && entry_views(vs@) == es && final(r).cursor == q,
            Err(e) => res == Err::<Vec<(String, Value)>, Error>(e),
        },
        res is Ok ==> old(r).cursor < final(r).cursor <= old(r).data@.len(),
    decreases old(r).data@.len() - old(r).cursor, 1int,
{
    let ghost d = r.data@;
    let ghost p0 = r.cursor as int;
    let mut compound: Vec<(String, Value)> = Vec::new();
    loop
        invariant
            r.data@ == d,
            d == old(r).data@,
            p0 == old(r).cursor,
            p0 <= r.cursor,
            compound@.len() > 0 ==> p0 < r.cursor <= d.len(),
            parse_entries(d, p0, depth as nat) == prepend(
                entry_views(compound@),
                parse_entries(d, r.cursor as int, depth as nat),
            ),
        decreases d.len() - r.cursor,
    {
        let at = r.cursor;
        let t = match r.read_u8() {
            Ok(t) => t,
            Err(e) => return Err(e),
        };
        if t == TAG_END {
            proof {
                assert(entry_views(compound@) + Seq::<(Seq<char>, crate::value::Tree)>::empty()
                    =~= entry_views(compound@));
            }
            return Ok(compound);
        }
        if !(TAG_BYTE <= t && t <= TAG_LONG_ARRAY) {
            return Err(Error::InvalidTag { tag: t, offset: at });
        }
        let name = match read_nbt_string(r) {
            Ok(s) => s,
            Err(e) => return Err(e),
        };
        let ghost q = r.cursor as int;
        match read_payload(r, t, depth) {
            Ok(v) => {
                proof {
                    let rest = parse_entries(d, r.cursor as int, depth as nat);
                    let ev = entry_views(compound@);
                    assert(entry_views(compound@.push((name, v))) =~= ev + seq![(name@, v.view())]);
                    match rest {
                        Ok((us, q2)) => {
                            assert(ev + (seq![(name@, v.view())] + us) =~= entry_views(
                                compound@.push((name, v)),
                            ) + us);
                        },
                        Err(_) => {},
                    }
                }
                compound.push((name, v));
            },
            Err(e) => return Err(e),
        }
    }
}

} // verus!
