//! Lemmas behind the laws: decoding what was encoded, and decoding a prefix
//! of a buffer.
use crate::error::Error;
use crate::format::{
    nested_within,
    elems_fit, enc_document, enc_elems, enc_entries, enc_payload, entries_fit, fits,
    is_value_tag, mismatch_from, name_fits, parse_count, parse_elems, parse_entries, parse_list,
    parse_payload, parse_root, parse_string,
};
use crate::value::{Tree, TAG_COMPOUND, TAG_END};
use crate::wire::{
    be16_at, be16_bytes, be32_bytes, be64_bytes, i32s_at, i32s_bytes, i64s_at, i64s_bytes,
    i8s_at, i8s_bytes, lemma_be16_read_written, lemma_be32_read_written,
    lemma_be64_read_written, string_bytes,
};
use vstd::prelude::*;
use vstd::utf8::{
    decode_utf8_encode_utf8, encode_utf8, encode_utf8_decode_utf8, encode_utf8_valid_utf8,
};

verus! {

proof fn lemma_enc_elems_cons(x: Tree, ys: Seq<Tree>)
    ensures
        enc_elems(seq![x] + ys) == match enc_payload(x) {
            Err(e) => Err(e),
            Ok(a) => match enc_elems(ys) {
                Err(e) => Err(e),
                Ok(c) => Ok(a + c),
            },
        },
    decreases ys.len(),
{
    let zs = seq![x] + ys;
    if ys.len() == 0 {
        assert(zs.subrange(0, zs.len() - 1) =~= Seq::<Tree>::empty());
        assert(enc_elems(Seq::<Tree>::empty()) == Ok::<Seq<u8>, Error>(Seq::empty()));
        assert(enc_elems(ys) == Ok::<Seq<u8>, Error>(Seq::empty()));
        assert(zs[zs.len() - 1] == x);
        if enc_payload(x) is Ok {
            assert(Seq::<u8>::empty() + enc_payload(x)->Ok_0 =~= enc_payload(x)->Ok_0 + Seq::<
                u8,
            >::empty());
        }
    } else {
        let ys1 = ys.subrange(0, ys.len() - 1);
        assert(zs.subrange(0, zs.len() - 1) =~= seq![x] + ys1);
        assert(zs[zs.len() - 1] == ys[ys.len() - 1]);
        lemma_enc_elems_cons(x, ys1);
        if enc_payload(x) is Ok && enc_elems(ys1) is Ok && enc_payload(ys[ys.len() - 1]) is Ok {
            let a = enc_payload(x)->Ok_0;
            let c = enc_elems(ys1)->Ok_0;
            let d = enc_payload(ys[ys.len() - 1])->Ok_0;
            assert(a + c + d =~= a + (c + d));
        }
    }
}

proof fn lemma_enc_entries_cons(x: (Seq<char>, Tree), ys: Seq<(Seq<char>, Tree)>)
    ensures
        enc_entries(seq![x] + ys) == match enc_payload(x.1) {
            Err(e) => Err(e),
            Ok(a) => match enc_entries(ys) {
                Err(e) => Err(e),
                Ok(c) => Ok(seq![x.1.tag()] + string_bytes(x.0) + a + c),
            },
        },
    decreases ys.len(),
{
    let zs = seq![x] + ys;
    if ys.len() == 0 {
        assert(zs.subrange(0, zs.len() - 1) =~= Seq::<(Seq<char>, Tree)>::empty());
        assert(enc_entries(Seq::<(Seq<char>, Tree)>::empty()) == Ok::<Seq<u8>, Error>(
            Seq::empty(),
        ));
        assert(enc_entries(ys) == Ok::<Seq<u8>, Error>(Seq::empty()));
        assert(zs[zs.len() - 1] == x);
        if enc_payload(x.1) is Ok {
            let a = enc_payload(x.1)->Ok_0;
            assert(Seq::<u8>::empty() + seq![x.1.tag()] + string_bytes(x.0) + a =~= seq![
                x.1.tag(),
            ] + string_bytes(x.0) + a + Seq::<u8>::empty());
        }
    } else {
        let ys1 = ys.subrange(0, ys.len() - 1);
        assert(zs.subrange(0, zs.len() - 1) =~= seq![x] + ys1);
        assert(zs[zs.len() - 1] == ys[ys.len() - 1]);
        lemma_enc_entries_cons(x, ys1);
        let l = ys[ys.len() - 1];
        if enc_payload(x.1) is Ok && enc_entries(ys1) is Ok && enc_payload(l.1) is Ok {
            let h = seq![x.1.tag()] + string_bytes(x.0) + enc_payload(x.1)->Ok_0;
            let c = enc_entries(ys1)->Ok_0;
            let d = enc_payload(l.1)->Ok_0;
            assert((h + c) + seq![l.1.tag()] + string_bytes(l.0) + d =~= h + (c + seq![l.1.tag()]
                + string_bytes(l.0) + d));
        }
    }
}

proof fn lemma_right_of_concat<A>(x: Seq<A>, y: Seq<A>)
    ensures
        (x + y).subrange(x.len() as int, (x.len() + y.len()) as int) == y,
{
    assert((x + y).subrange(x.len() as int, (x.len() + y.len()) as int) =~= y);
}

proof fn lemma_i16_u16(x: i16)
    ensures
        (x as u16) as i16 == x,
{
    assert((x as u16) as i16 == x) by (bit_vector);
}

proof fn lemma_i32_u32(x: i32)
    ensures
        (x as u32) as i32 == x,
{
    assert((x as u32) as i32 == x) by (bit_vector);
}

proof fn lemma_i64_u64(x: i64)
    ensures
        (x as u64) as i64 == x,
{
    assert((x as u64) as i64 == x) by (bit_vector);
}

proof fn lemma_i8_u8(x: i8)
    ensures
        (x as u8) as i8 == x,
{
    assert((x as u8) as i8 == x) by (bit_vector);
}

proof fn lemma_i32s_bytes_at(a: Seq<i32>, k: int)
    requires
        0 <= k < a.len(),
    ensures
        i32s_bytes(a).len() == 4 * a.len(),
        i32s_bytes(a).subrange(4 * k, 4 * k + 4) == be32_bytes(a[k] as u32),
    decreases a.len(),
{
    let a1 = a.drop_last();
    if k < a.len() - 1 {
        lemma_i32s_bytes_at(a1, k);
        assert(i32s_bytes(a).subrange(4 * k, 4 * k + 4) =~= i32s_bytes(a1).subrange(4 * k, 4 * k
            + 4));
    } else {
        if a1.len() > 0 {
            lemma_i32s_bytes_at(a1, 0);
        }
        assert(i32s_bytes(a1).len() == 4 * k);
        assert(be32_bytes(a[k] as u32).len() == 4);
        lemma_right_of_concat(i32s_bytes(a1), be32_bytes(a[k] as u32));
    }
}

proof fn lemma_i32s_read_written(a: Seq<i32>, b: Seq<u8>, p: int)
    requires
        0 <= p,
        p + 4 * a.len() <= b.len(),
        b.subrange(p, p + 4 * a.len()) == i32s_bytes(a),
    ensures
        i32s_at(b, p, a.len()) == a,
{
    assert forall|k: int| 0 <= k < a.len() implies #[trigger] i32s_at(b, p, a.len())[k] == a[k] by {
        lemma_i32s_bytes_at(a, k);
        assert(b.subrange(p + 4 * k, p + 4 * k + 4) =~= i32s_bytes(a).subrange(4 * k, 4 * k + 4));
        lemma_be32_read_written(a[k] as u32, b, p + 4 * k);
        lemma_i32_u32(a[k]);
    }
    assert(i32s_at(b, p, a.len()) =~= a);
}

proof fn lemma_i64s_bytes_at(a: Seq<i64>, k: int)
    requires
        0 <= k < a.len(),
    ensures
        i64s_bytes(a).len() == 8 * a.len(),
        i64s_bytes(a).subrange(8 * k, 8 * k + 8) == be64_bytes(a[k] as u64),
    decreases a.len(),
{
    let a1 = a.drop_last();
    if k < a.len() - 1 {
        lemma_i64s_bytes_at(a1, k);
        assert(i64s_bytes(a).subrange(8 * k, 8 * k + 8) =~= i64s_bytes(a1).subrange(8 * k, 8 * k
            + 8));
    } else {
        if a1.len() > 0 {
            lemma_i64s_bytes_at(a1, 0);
        }
        assert(i64s_bytes(a1).len() == 8 * k);
        assert(be64_bytes(a[k] as u64).len() == 8);
        lemma_right_of_concat(i64s_bytes(a1), be64_bytes(a[k] as u64));
    }
}

proof fn lemma_i64s_read_written(a: Seq<i64>, b: Seq<u8>, p: int)
    requires
        0 <= p,
        p + 8 * a.len() <= b.len(),
        b.subrange(p, p + 8 * a.len()) == i64s_bytes(a),
    ensures
        i64s_at(b, p, a.len()) == a,
{
    assert forall|k: int| 0 <= k < a.len() implies #[trigger] i64s_at(b, p, a.len())[k] == a[k] by {
        lemma_i64s_bytes_at(a, k);
        assert(b.subrange(p + 8 * k, p + 8 * k + 8) =~= i64s_bytes(a).subrange(8 * k, 8 * k + 8));
        lemma_be64_read_written(a[k] as u64, b, p + 8 * k);
        lemma_i64_u64(a[k]);
    }
    assert(i64s_at(b, p, a.len()) =~= a);
}

proof fn lemma_window(b: Seq<u8>, p: int, s: Seq<u8>, i: int, j: int)
    requires
        0 <= p,
        p + s.len() <= b.len(),
        b.subrange(p, p + s.len()) == s,
        0 <= i <= j <= s.len(),
    ensures
        b.subrange(p + i, p + j) == s.subrange(i, j),
{
    assert(b.subrange(p + i, p + j) =~= s.subrange(i, j)) by {
        assert forall|k: int| 0 <= k < j - i implies b.subrange(p + i, p + j)[k] == s.subrange(
            i,
            j,
        )[k] by {
            assert(b.subrange(p, p + s.len())[i + k] == s[i + k]);
        }
    }
}

proof fn lemma_count_cast(n: int)
    requires
        0 <= n <= i32::MAX,
    ensures
        (n as u32) as i32 as int == n,
        0 <= (n as u32) as i32,
{
}

pub(crate) proof fn lemma_mismatch_none(vs: Seq<Tree>, t: u8, i: int)
    requires
        0 <= i <= vs.len(),
    ensures
        mismatch_from(vs, t, i) is None <==> forall|k: int|
            i <= k < vs.len() ==> #[trigger] vs[k].tag() == t,
    decreases vs.len() - i,
{
    if i < vs.len() {
        lemma_mismatch_none(vs, t, i + 1);
    }
}

proof fn lemma_string_round(s: Seq<char>, b: Seq<u8>, p: int)
    requires
        name_fits(s),
        0 <= p,
        p + string_bytes(s).len() <= b.len(),
        b.subrange(p, p + string_bytes(s).len()) == string_bytes(s),
    ensures
        parse_string(b, p) == Ok::<(Seq<char>, int), Error>((s, p + string_bytes(s).len())),
{
    let u = encode_utf8(s);
    let sb = string_bytes(s);
    lemma_window(b, p, sb, 0, 2);
    assert(sb.subrange(0, 2) =~= be16_bytes(u.len() as u16));
    lemma_be16_read_written(u.len() as u16, b, p);
    lemma_window(b, p, sb, 2, sb.len() as int);
    assert(sb.subrange(2, sb.len() as int) =~= u);
    encode_utf8_valid_utf8(s);
    encode_utf8_decode_utf8(s);
}

proof fn lemma_scalar_round(t: Tree, b: Seq<u8>, p: int, depth: nat)
    requires
        !(t is List || t is Compound || t is ByteArray || t is IntArray || t is LongArray),
        fits(t),
        enc_payload(t) is Ok,
        0 <= p,
        p + enc_payload(t)->Ok_0.len() <= b.len(),
        b.subrange(p, p + enc_payload(t)->Ok_0.len()) == enc_payload(t)->Ok_0,
    ensures
        enc_payload(t)->Ok_0.len() > 0,
        (parse_payload(b, t.tag(), p, depth) matches Ok((t2, q)) && q == p + enc_payload(
            t,
        )->Ok_0.len()
            && t2.tag() == t.tag() && fits(t2) && enc_payload(t2) == enc_payload(t)),
{
    match t {
        Tree::Byte(x) => {
            assert(b.subrange(p, p + 1)[0] == b[p]);
            lemma_i8_u8(x);
        },
        Tree::Short(x) => {
            lemma_be16_read_written(x as u16, b, p);
            lemma_i16_u16(x);
        },
        Tree::Int(x) => {
            lemma_be32_read_written(x as u32, b, p);
            lemma_i32_u32(x);
        },
        Tree::Long(x) => {
            lemma_be64_read_written(x as u64, b, p);
            lemma_i64_u64(x);
        },
        Tree::Float(x) => {
            lemma_be32_read_written(x, b, p);
        },
        Tree::Double(x) => {
            lemma_be64_read_written(x, b, p);
        },
        Tree::Str(s) => {
            lemma_string_round(s, b, p);
        },
        _ => {},
    }
}

proof fn lemma_array_round(t: Tree, b: Seq<u8>, p: int, depth: nat)
    requires
        t is ByteArray || t is IntArray || t is LongArray,
        fits(t),
        enc_payload(t) is Ok,
        0 <= p,
        p + enc_payload(t)->Ok_0.len() <= b.len(),
        b.subrange(p, p + enc_payload(t)->Ok_0.len()) == enc_payload(t)->Ok_0,
    ensures
        enc_payload(t)->Ok_0.len() > 0,
        (parse_payload(b, t.tag(), p, depth) matches Ok((t2, q)) && q == p + enc_payload(
            t,
        )->Ok_0.len()
            && t2.tag() == t.tag() && fits(t2) && enc_payload(t2) == enc_payload(t)),
{
    let e = enc_payload(t)->Ok_0;
    match t {
        Tree::ByteArray(a) => {
            lemma_window(b, p, e, 0, 4);
            assert(e.subrange(0, 4) =~= be32_bytes(a.len() as u32));
            lemma_be32_read_written(a.len() as u32, b, p);
            lemma_count_cast(a.len() as int);
            lemma_window(b, p, e, 4, e.len() as int);
            assert(e.subrange(4, e.len() as int) =~= i8s_bytes(a));
            assert forall|k: int| 0 <= k < a.len() implies #[trigger] i8s_at(b, p + 4, a.len())[k]
                == a[k] by {
                assert(b.subrange(p + 4, p + e.len())[k] == b[p + 4 + k]);
                lemma_i8_u8(a[k]);
            }
            assert(i8s_at(b, p + 4, a.len()) =~= a);
        },
        Tree::IntArray(a) => {
            lemma_window(b, p, e, 0, 4);
            assert(e.subrange(0, 4) =~= be32_bytes(a.len() as u32));
            lemma_be32_read_written(a.len() as u32, b, p);
            lemma_count_cast(a.len() as int);
            if a.len() > 0 {
                lemma_i32s_bytes_at(a, 0);
            }
            lemma_window(b, p, e, 4, e.len() as int);
            assert(e.subrange(4, e.len() as int) =~= i32s_bytes(a));
            lemma_i32s_read_written(a, b, p + 4);
        },
        Tree::LongArray(a) => {
            lemma_window(b, p, e, 0, 4);
            assert(e.subrange(0, 4) =~= be32_bytes(a.len() as u32));
            lemma_be32_read_written(a.len() as u32, b, p);
            lemma_count_cast(a.len() as int);
            if a.len() > 0 {
                lemma_i64s_bytes_at(a, 0);
            }
            lemma_window(b, p, e, 4, e.len() as int);
            assert(e.subrange(4, e.len() as int) =~= i64s_bytes(a));
            lemma_i64s_read_written(a, b, p + 4);
        },
        _ => {},
    }
}

proof fn lemma_payload_round(t: Tree, b: Seq<u8>, p: int, depth: nat)
    requires
        fits(t),
        nested_within(t, depth),
        enc_payload(t) is Ok,
        0 <= p,
        p + enc_payload(t)->Ok_0.len() <= b.len(),
        b.subrange(p, p + enc_payload(t)->Ok_0.len()) == enc_payload(t)->Ok_0,
    ensures
        enc_payload(t)->Ok_0.len() > 0,
        (parse_payload(b, t.tag(), p, depth) matches Ok((t2, q)) && q == p + enc_payload(
            t,
        )->Ok_0.len()
            && t2.tag() == t.tag() && fits(t2) && enc_payload(t2) == enc_payload(t)),
    decreases t, 0int,
{
    match t {
        Tree::List(vs) => {
            lemma_list_round(vs, b, p, depth);
        },
        Tree::Compound(_, es) => {
            let e = enc_payload(t)->Ok_0;
            let eb = enc_entries(es)->Ok_0;
            assert(eb.push(TAG_END) == e);
            lemma_entries_round(es, b, p, (depth - 1) as nat);
        },
        Tree::ByteArray(_) => lemma_array_round(t, b, p, depth),
        Tree::IntArray(_) => lemma_array_round(t, b, p, depth),
        Tree::LongArray(_) => lemma_array_round(t, b, p, depth),
        _ => lemma_scalar_round(t, b, p, depth),
    }
}

proof fn lemma_list_round(vs: Seq<Tree>, b: Seq<u8>, p: int, depth: nat)
    requires
        fits(Tree::List(vs)),
        nested_within(Tree::List(vs), depth),
        enc_payload(Tree::List(vs)) is Ok,
        0 <= p,
        p + enc_payload(Tree::List(vs))->Ok_0.len() <= b.len(),
        b.subrange(p, p + enc_payload(Tree::List(vs))->Ok_0.len()) == enc_payload(
            Tree::List(vs),
        )->Ok_0,
    ensures
        enc_payload(Tree::List(vs))->Ok_0.len() > 0,
        (parse_payload(b, Tree::List(vs).tag(), p, depth) matches Ok((t2, q)) && q == p
            + enc_payload(
            Tree::List(vs),
        )->Ok_0.len() && t2.tag() == Tree::List(vs).tag() && fits(t2) && enc_payload(t2)
            == enc_payload(Tree::List(vs))),
    decreases vs, 1int,
{
    let e = enc_payload(Tree::List(vs))->Ok_0;
    lemma_window(b, p, e, 0, 1);
    assert(b[p] == b.subrange(p, p + 1)[0]);
    lemma_window(b, p, e, 1, 5);
    if vs.len() == 0 {
        assert(e.subrange(1, 5) =~= be32_bytes(0));
        lemma_be32_read_written(0, b, p + 1);
        assert(parse_elems(b, b[p], 0, p + 5, (depth - 1) as nat) == Ok::<(Seq<Tree>, int), Error>(
            (Seq::empty(), p + 5),
        ));
        assert(Seq::<Tree>::empty() =~= vs);
    } else {
        let t0 = vs[0].tag();
        let eb = enc_elems(vs)->Ok_0;
        assert(e.subrange(1, 5) =~= be32_bytes(vs.len() as u32));
        lemma_be32_read_written(vs.len() as u32, b, p + 1);
        lemma_count_cast(vs.len() as int);
        lemma_mismatch_none(vs, t0, 0);
        lemma_window(b, p, e, 5, e.len() as int);
        assert(e.subrange(5, e.len() as int) =~= eb);
        lemma_elems_round(vs, t0, b, p + 5, (depth - 1) as nat);
        let ts2 = parse_elems(b, t0, vs.len() as int, p + 5, (depth - 1) as nat)->Ok_0.0;
        lemma_mismatch_none(ts2, t0, 0);
        assert(parse_list(b, p, (depth - 1) as nat) == parse_elems(
            b,
            t0,
            vs.len() as int,
            p + 5,
            (depth - 1) as nat,
        ));
    }
}

proof fn lemma_elems_round(vs: Seq<Tree>, et: u8, b: Seq<u8>, p: int, depth: nat)
    requires
        elems_fit(vs),
        forall|k: int| 0 <= k < vs.len() ==> #[trigger] vs[k].tag() == et,
        forall|k: int| 0 <= k < vs.len() ==> nested_within(#[trigger] vs[k], depth),
        enc_elems(vs) is Ok,
        0 <= p,
        p + enc_elems(vs)->Ok_0.len() <= b.len(),
        b.subrange(p, p + enc_elems(vs)->Ok_0.len()) == enc_elems(vs)->Ok_0,
    ensures
        (parse_elems(b, et, vs.len() as int, p, depth) matches Ok((ts2, q)) && q == p + enc_elems(
            vs,
        )->Ok_0.len() && ts2.len() == vs.len() && (forall|k: int|
            0 <= k < ts2.len() ==> #[trigger] ts2[k].tag() == et) && elems_fit(ts2) && enc_elems(
            ts2,
        ) == enc_elems(vs)),
    decreases vs, 0int,
{
    if vs.len() == 0 {
        assert(parse_elems(b, et, 0, p, depth) == Ok::<(Seq<Tree>, int), Error>((Seq::empty(), p)));
        assert(enc_elems(Seq::<Tree>::empty()) == Ok::<Seq<u8>, Error>(Seq::empty()));
        assert(Seq::<Tree>::empty() =~= vs);
    } else {
        let x = vs[0];
        let ys = vs.subrange(1, vs.len() as int);
        assert(vs =~= seq![x] + ys);
        lemma_enc_elems_cons(x, ys);
        let e = enc_elems(vs)->Ok_0;
        let a = enc_payload(x)->Ok_0;
        let c = enc_elems(ys)->Ok_0;
        assert(e == a + c);
        assert(fits(vs[0]));
        assert forall|k: int| 0 <= k < ys.len() implies fits(#[trigger] ys[k]) by {
            assert(ys[k] == vs[k + 1]);
        }
        assert forall|k: int| 0 <= k < ys.len() implies #[trigger] ys[k].tag() == et
            && nested_within(ys[k], depth) by {
            assert(ys[k] == vs[k + 1]);
        }
        lemma_window(b, p, e, 0, a.len() as int);
        assert(e.subrange(0, a.len() as int) =~= a);
        lemma_payload_round(x, b, p, depth);
        lemma_window(b, p, e, a.len() as int, e.len() as int);
        assert(e.subrange(a.len() as int, e.len() as int) =~= c);
        lemma_elems_round(ys, et, b, p + a.len(), depth);
        let x2 = parse_payload(b, et, p, depth)->Ok_0.0;
        let ys2 = parse_elems(b, et, vs.len() - 1, p + a.len(), depth)->Ok_0.0;
        let ts2 = seq![x2] + ys2;
        lemma_enc_elems_cons(x2, ys2);
        assert forall|k: int| 0 <= k < ts2.len() implies fits(#[trigger] ts2[k]) && ts2[k].tag()
            == et by {
            if k > 0 {
                assert(ts2[k] == ys2[k - 1]);
            }
        }
    }
}

proof fn lemma_entries_fit_cons(x: (Seq<char>, Tree), ys: Seq<(Seq<char>, Tree)>)
    ensures
        entries_fit(seq![x] + ys) <==> name_fits(x.0) && fits(x.1) && entries_fit(ys),
{
    let es = seq![x] + ys;
    if entries_fit(es) {
        assert(es[0] == x);
        assert forall|k: int| 0 <= k < ys.len() implies name_fits(#[trigger] ys[k].0) && fits(
            ys[k].1,
        ) by {
            assert(ys[k] == es[k + 1]);
        }
    }
    if name_fits(x.0) && fits(x.1) && entries_fit(ys) {
        assert forall|k: int| 0 <= k < es.len() implies name_fits(#[trigger] es[k].0) && fits(
            es[k].1,
        ) by {
            if k > 0 {
                assert(es[k] == ys[k - 1]);
            }
        }
    }
}

#[verifier::rlimit(30)]
proof fn lemma_entries_round(es: Seq<(Seq<char>, Tree)>, b: Seq<u8>, p: int, depth: nat)
    requires
        entries_fit(es),
        forall|k: int| 0 <= k < es.len() ==> nested_within(#[trigger] es[k].1, depth),
        enc_entries(es) is Ok,
        0 <= p,
        p + enc_entries(es)->Ok_0.len() + 1 <= b.len(),
        b.subrange(p, p + enc_entries(es)->Ok_0.len() + 1) == enc_entries(es)->Ok_0.push(TAG_END),
    ensures
        (parse_entries(b, p, depth) matches Ok((es2, q)) && q == p + enc_entries(es)->Ok_0.len() + 1
            && entries_fit(es2) && enc_entries(es2) == enc_entries(es)),
    decreases es, 0int,
{
    let e = enc_entries(es)->Ok_0;
    let full = e.push(TAG_END);
    if es.len() == 0 {
        assert(b.subrange(p, p + 1)[0] == b[p]);
        assert(Seq::<(Seq<char>, Tree)>::empty() =~= es);
    } else {
        let x = es[0];
        let ys = es.subrange(1, es.len() as int);
        assert(es =~= seq![x] + ys);
        lemma_enc_entries_cons(x, ys);
        let sb = string_bytes(x.0);
        let a = enc_payload(x.1)->Ok_0;
        let c = enc_entries(ys)->Ok_0;
        let h: int = 1 + sb.len() as int;
        let al: int = a.len() as int;
        assert(e == seq![x.1.tag()] + sb + a + c);
        lemma_entries_fit_cons(x, ys);
        assert(nested_within(es[0].1, depth));
        assert forall|k: int| 0 <= k < ys.len() implies nested_within(
            #[trigger] ys[k].1,
            depth,
        ) by {
            assert(ys[k] == es[k + 1]);
        }
        assert(b.subrange(p, p + full.len())[0] == b[p]);
        lemma_window(b, p, full, 1, h);
        assert(full.subrange(1, h) =~= sb);
        lemma_string_round(x.0, b, p + 1);
        lemma_window(b, p, full, h, h + al);
        assert(full.subrange(h, h + al) =~= a);
        lemma_payload_round(x.1, b, p + h, depth);
        lemma_window(b, p, full, h + al, full.len() as int);
        assert(full.subrange(h + al, full.len() as int) =~= c.push(TAG_END));
        lemma_entries_round(ys, b, p + h + al, depth);
        let v2 = parse_payload(b, x.1.tag(), p + h, depth)->Ok_0.0;
        let ys2 = parse_entries(b, p + h + al, depth)->Ok_0.0;
        let es2 = seq![(x.0, v2)] + ys2;
        lemma_enc_entries_cons((x.0, v2), ys2);
        lemma_entries_fit_cons((x.0, v2), ys2);
    }
}

#[verifier::rlimit(50)]
pub(crate) proof fn lemma_document_round(
    t: Tree,
    root_name: Option<Seq<char>>,
    d: Seq<u8>,
    depth: nat,
)
    requires
        fits(t),
        nested_within(t, depth),
        root_name matches Some(n) ==> name_fits(n),
        enc_document(t, root_name) == Ok::<Seq<u8>, Error>(d),
    ensures
        (parse_root(d, 0, root_name is Some, depth) matches Ok(t2) && fits(t2) && (t2 matches
            Tree::Compound(n2, _) && (root_name matches Some(n) ==> n2 == Some(n)))
            && enc_document(t2, root_name) == Ok::<Seq<u8>, Error>(d)),
        ({
            let h = 1 + match root_name {
                Some(n) => string_bytes(n).len() as int,
                None => 0,
            };
            &&& d.len() >= 1 && d[0] == TAG_COMPOUND
            &&& h < d.len()
            &&& root_name matches Some(n) ==> parse_string(d, 1) == Ok::<(Seq<char>, int), Error>(
                (n, h),
            )
            &&& depth > 0
            &&& parse_entries(d, h, (depth - 1) as nat) matches Ok((_, q)) && q == d.len()
        }),
{
    let es = t->Compound_1;
    let eb = enc_entries(es)->Ok_0;
    let nb = match root_name {
        Some(n) => string_bytes(n),
        None => Seq::empty(),
    };
    let h: int = 1 + nb.len() as int;
    assert(d == seq![TAG_COMPOUND] + nb + eb.push(TAG_END));
    assert(d[0] == TAG_COMPOUND);
    assert(d.subrange(0, d.len() as int) == d);
    if root_name is Some {
        let n = root_name->Some_0;
        lemma_window(d, 0, d, 1, h);
        assert(d.subrange(1, h) =~= nb);
        lemma_string_round(n, d, 1);
    }
    lemma_window(d, 0, d, h, d.len() as int);
    assert(d.subrange(h, d.len() as int) =~= eb.push(TAG_END));
    lemma_entries_round(es, d, h, (depth - 1) as nat);
}

pub(crate) proof fn lemma_mismatch_first(vs: Seq<Tree>, t: u8, i: int)
    requires
        0 <= i <= vs.len(),
        forall|k: int| 0 <= k < i ==> #[trigger] vs[k].tag() == t,
    ensures
        mismatch_from(vs, t, i) matches Some(m) ==> i <= m < vs.len() && vs[m].tag() != t && forall|
            k: int,
        | 0 <= k < m ==> #[trigger] vs[k].tag() == t,
    decreases vs.len() - i,
{
    if i < vs.len() && vs[i].tag() == t {
        lemma_mismatch_first(vs, t, i + 1);
    }
}

/// What parsing the first `k` bytes gives, against what parsing all of
/// them gave: the same where the parse ended within the prefix, else an
/// end-of-input error at an offset within it.
pub open spec fn agrees_on_prefix<T>(
    whole: Result<(T, int), Error>,
    prefix: Result<(T, int), Error>,
    k: int,
) -> bool {
    match whole {
        Ok((_, q)) => if q <= k {
            prefix == whole
        } else {
            prefix matches Err(Error::UnexpectedEndOfInput { offset }) && offset <= k
        },
        Err(_) => true,
    }
}

proof fn lemma_elems_advance(b: Seq<u8>, et: u8, n: int, p: int, depth: nat)
    ensures
        parse_elems(b, et, n, p, depth) matches Ok((_, q)) ==> q >= p,
    decreases b.len() - p,
{
    if n > 0 && parse_payload(b, et, p, depth) is Ok {
        let q = parse_payload(b, et, p, depth)->Ok_0.1;
        if p < q <= b.len() {
            lemma_elems_advance(b, et, n - 1, q, depth);
        }
    }
}

proof fn lemma_entries_advance(b: Seq<u8>, p: int, depth: nat)
    ensures
        parse_entries(b, p, depth) matches Ok((_, q)) ==> q > p,
    decreases b.len() - p,
{
    if p + 1 <= b.len() && parse_string(b, p + 1) is Ok {
        let q = parse_string(b, p + 1)->Ok_0.1;
        if parse_payload(b, b[p], q, depth) is Ok {
            let q1 = parse_payload(b, b[p], q, depth)->Ok_0.1;
            if q < q1 <= b.len() {
                lemma_entries_advance(b, q1, depth);
            }
        }
    }
}

pub(crate) proof fn lemma_prefix_string(b: Seq<u8>, p: int, k: int)
    requires
        0 <= p <= k <= b.len() <= usize::MAX,
    ensures
        agrees_on_prefix(parse_string(b, p), parse_string(b.subrange(0, k), p), k),
{
    let c = b.subrange(0, k);
    if p + 2 <= k {
        assert(c[p] == b[p] && c[p + 1] == b[p + 1]);
        let n = be16_at(b, p) as int;
        if p + 2 + n <= k {
            assert(c.subrange(p + 2, p + 2 + n) =~= b.subrange(p + 2, p + 2 + n));
        }
    }
}

proof fn lemma_prefix_count(b: Seq<u8>, p: int, k: int)
    requires
        0 <= p <= k <= b.len() <= usize::MAX,
    ensures
        parse_count(b, p) is Ok ==> if p + 4 <= k {
            parse_count(b.subrange(0, k), p) == parse_count(b, p)
        } else {
            parse_count(b.subrange(0, k), p) == Err::<int, Error>(
                Error::UnexpectedEndOfInput { offset: p as usize },
            )
        },
{
    let c = b.subrange(0, k);
    if p + 4 <= k {
        assert(c[p] == b[p] && c[p + 1] == b[p + 1] && c[p + 2] == b[p + 2] && c[p + 3] == b[p
            + 3]);
    }
}

proof fn lemma_prefix_scalar(b: Seq<u8>, tag: u8, p: int, k: int, depth: nat)
    requires
        0 <= p <= k <= b.len() <= usize::MAX,
        1 <= tag <= 6,
    ensures
        agrees_on_prefix(
            parse_payload(b, tag, p, depth),
            parse_payload(b.subrange(0, k), tag, p, depth),
            k,
        ),
{
    let c = b.subrange(0, k);
    if p + 8 <= k {
        assert(c[p] == b[p] && c[p + 1] == b[p + 1] && c[p + 2] == b[p + 2] && c[p + 3] == b[p
            + 3]);
        assert(c[p + 4] == b[p + 4] && c[p + 5] == b[p + 5] && c[p + 6] == b[p + 6] && c[p + 7]
            == b[p + 7]);
    } else if p + 4 <= k {
        assert(c[p] == b[p] && c[p + 1] == b[p + 1] && c[p + 2] == b[p + 2] && c[p + 3] == b[p
            + 3]);
    } else if p + 2 <= k {
        assert(c[p] == b[p] && c[p + 1] == b[p + 1]);
    } else if p + 1 <= k {
        assert(c[p] == b[p]);
    }
}

proof fn lemma_prefix_array(b: Seq<u8>, tag: u8, p: int, k: int, depth: nat)
    requires
        0 <= p <= k <= b.len() <= usize::MAX,
        tag == 7 || tag == 11 || tag == 12,
    ensures
        agrees_on_prefix(
            parse_payload(b, tag, p, depth),
            parse_payload(b.subrange(0, k), tag, p, depth),
            k,
        ),
{
    let c = b.subrange(0, k);
    lemma_prefix_count(b, p, k);
    if parse_count(b, p) is Ok && p + 4 <= k {
        let n = parse_count(b, p)->Ok_0;
        let q = p + 4;
        if tag == 7 && q + n <= k {
            assert(i8s_at(c, q, n as nat) =~= i8s_at(b, q, n as nat));
        } else if tag == 11 && q + 4 * n <= k {
            assert forall|i: int| 0 <= i < n implies #[trigger] i32s_at(c, q, n as nat)[i]
                == i32s_at(b, q, n as nat)[i] by {
                let r = q + 4 * i;
                assert(c[r] == b[r] && c[r + 1] == b[r + 1] && c[r + 2] == b[r + 2] && c[r + 3]
                    == b[r + 3]);
            }
            assert(i32s_at(c, q, n as nat) =~= i32s_at(b, q, n as nat));
        } else if tag == 12 && q + 8 * n <= k {
            assert forall|i: int| 0 <= i < n implies #[trigger] i64s_at(c, q, n as nat)[i]
                == i64s_at(b, q, n as nat)[i] by {
                let r = q + 8 * i;
                assert(c[r] == b[r] && c[r + 1] == b[r + 1] && c[r + 2] == b[r + 2] && c[r + 3]
                    == b[r + 3]);
                assert(c[r + 4] == b[r + 4] && c[r + 5] == b[r + 5] && c[r + 6] == b[r + 6] && c[r
                    + 7] == b[r + 7]);
            }
            assert(i64s_at(c, q, n as nat) =~= i64s_at(b, q, n as nat));
        }
    }
}

proof fn lemma_prefix_payload(b: Seq<u8>, tag: u8, p: int, k: int, depth: nat)
    requires
        0 <= p <= k <= b.len() <= usize::MAX,
    ensures
        agrees_on_prefix(
            parse_payload(b, tag, p, depth),
            parse_payload(b.subrange(0, k), tag, p, depth),
            k,
        ),
    decreases b.len() - p, 2int,
{
    if 1 <= tag <= 6 {
        lemma_prefix_scalar(b, tag, p, k, depth);
    } else if tag == 7 || tag == 11 || tag == 12 {
        lemma_prefix_array(b, tag, p, k, depth);
    } else if tag == 8 {
        lemma_prefix_string(b, p, k);
    } else if tag == 9 {
        if depth > 0 {
            lemma_prefix_list(b, p, k, (depth - 1) as nat);
        }
    } else if tag == 10 && depth > 0 {
        lemma_prefix_entries(b, p, k, (depth - 1) as nat);
    }
}

proof fn lemma_prefix_list(b: Seq<u8>, p: int, k: int, depth: nat)
    requires
        0 <= p <= k <= b.len() <= usize::MAX,
    ensures
        agrees_on_prefix(parse_list(b, p, depth), parse_list(b.subrange(0, k), p, depth), k),
    decreases b.len() - p, 1int,
{
    let c = b.subrange(0, k);
    if p + 1 <= b.len() && parse_count(b, p + 1) is Ok {
        lemma_elems_advance(b, b[p], parse_count(b, p + 1)->Ok_0, p + 5, depth);
    }
    if p + 1 <= k {
        assert(c[p] == b[p]);
        lemma_prefix_count(b, p + 1, k);
        if parse_count(b, p + 1) is Ok && p + 5 <= k {
            let n = parse_count(b, p + 1)->Ok_0;
            if !(n > 0 && !is_value_tag(b[p])) {
                lemma_prefix_elems(b, b[p], n, p + 5, k, depth);
            }
        }
    }
}

proof fn lemma_prefix_elems(b: Seq<u8>, et: u8, n: int, p: int, k: int, depth: nat)
    requires
        0 <= p <= k <= b.len() <= usize::MAX,
    ensures
        agrees_on_prefix(
            parse_elems(b, et, n, p, depth),
            parse_elems(b.subrange(0, k), et, n, p, depth),
            k,
        ),
    decreases b.len() - p, 3int,
{
    let c = b.subrange(0, k);
    if n > 0 {
        lemma_prefix_payload(b, et, p, k, depth);
        if parse_payload(b, et, p, depth) is Ok {
            let q = parse_payload(b, et, p, depth)->Ok_0.1;
            lemma_elems_advance(b, et, n - 1, q, depth);
            if p < q <= k {
                lemma_prefix_elems(b, et, n - 1, q, k, depth);
            }
        }
    }
}

pub(crate) proof fn lemma_prefix_entries(b: Seq<u8>, p: int, k: int, depth: nat)
    requires
        0 <= p <= k <= b.len() <= usize::MAX,
    ensures
        agrees_on_prefix(parse_entries(b, p, depth), parse_entries(b.subrange(0, k), p, depth), k),
    decreases b.len() - p, 1int,
{
    let c = b.subrange(0, k);
    lemma_entries_advance(b, p, depth);
    if p + 1 <= b.len() && parse_string(b, p + 1) is Ok {
        let q = parse_string(b, p + 1)->Ok_0.1;
        if parse_payload(b, b[p], q, depth) is Ok {
            lemma_entries_advance(b, parse_payload(b, b[p], q, depth)->Ok_0.1, depth);
        }
    }
    if p + 1 <= k {
        assert(c[p] == b[p]);
        let t = b[p];
        if t != TAG_END && is_value_tag(t) {
            lemma_prefix_string(b, p + 1, k);
            if parse_string(b, p + 1) is Ok {
                let q = parse_string(b, p + 1)->Ok_0.1;
                if q <= k {
                    lemma_prefix_payload(b, t, q, k, depth);
                    if parse_payload(b, t, q, depth) is Ok {
                        let q1 = parse_payload(b, t, q, depth)->Ok_0.1;
                        if q < q1 <= k {
                            lemma_prefix_entries(b, q1, k, depth);
                        }
                    }
                }
            }
        }
    }
}

} // verus!

verus! {

// ----- what the decoder gives fits the encoder -----

proof fn lemma_string_fits(b: Seq<u8>, p: int)
    requires
        0 <= p,
    ensures
        parse_string(b, p) matches Ok((s, _)) ==> name_fits(s),
{
    if parse_string(b, p) is Ok {
        let n = be16_at(b, p) as int;
        decode_utf8_encode_utf8(b.subrange(p + 2, p + 2 + n));
    }
}

proof fn lemma_payload_fits(b: Seq<u8>, tag: u8, p: int, depth: nat)
    requires
        0 <= p,
    ensures
        parse_payload(b, tag, p, depth) matches Ok((t, _)) ==> fits(t),
    decreases b.len() - p, 2int,
{
    if tag == 8 {
        lemma_string_fits(b, p);
    } else if tag == 9 && depth > 0 {
        lemma_list_fits(b, p, (depth - 1) as nat);
    } else if tag == 10 && depth > 0 {
        lemma_entries_fits(b, p, (depth - 1) as nat);
    }
}

proof fn lemma_list_fits(b: Seq<u8>, p: int, depth: nat)
    requires
        0 <= p,
    ensures
        parse_list(b, p, depth) matches Ok((ts, _)) ==> ts.len() <= i32::MAX && elems_fit(ts),
    decreases b.len() - p, 1int,
{
    if p + 1 <= b.len() && parse_count(b, p + 1) is Ok {
        lemma_elems_fits(b, b[p], parse_count(b, p + 1)->Ok_0, p + 5, depth);
    }
}

proof fn lemma_elems_fits(b: Seq<u8>, et: u8, n: int, p: int, depth: nat)
    requires
        0 <= p,
    ensures
        parse_elems(b, et, n, p, depth) matches Ok((ts, _)) ==> ts.len() == (if n > 0 {
            n
        } else {
            0
        }) && elems_fit(ts),
    decreases b.len() - p, 3int,
{
    if n > 0 {
        lemma_payload_fits(b, et, p, depth);
        if parse_payload(b, et, p, depth) is Ok {
            let (t, q) = parse_payload(b, et, p, depth)->Ok_0;
            if p < q <= b.len() {
                lemma_elems_fits(b, et, n - 1, q, depth);
                if parse_elems(b, et, n - 1, q, depth) is Ok {
                    let us = parse_elems(b, et, n - 1, q, depth)->Ok_0.0;
                    let ts = seq![t] + us;
                    assert forall|i: int| 0 <= i < ts.len() implies fits(#[trigger] ts[i]) by {
                        if i > 0 {
                            assert(ts[i] == us[i - 1]);
                        }
                    }
                }
            }
        }
    }
}

proof fn lemma_entries_fits(b: Seq<u8>, p: int, depth: nat)
    requires
        0 <= p,
    ensures
        parse_entries(b, p, depth) matches Ok((es, _)) ==> entries_fit(es),
    decreases b.len() - p, 1int,
{
    if p + 1 <= b.len() && b[p] != TAG_END && is_value_tag(b[p]) {
        lemma_string_fits(b, p + 1);
        if parse_string(b, p + 1) is Ok {
            let (name, q) = parse_string(b, p + 1)->Ok_0;
            lemma_payload_fits(b, b[p], q, depth);
            if parse_payload(b, b[p], q, depth) is Ok {
                let (v, q1) = parse_payload(b, b[p], q, depth)->Ok_0;
                if q < q1 <= b.len() {
                    lemma_entries_fits(b, q1, depth);
                    if parse_entries(b, q1, depth) is Ok {
                        let us = parse_entries(b, q1, depth)->Ok_0.0;
                        lemma_entries_fit_cons((name, v), us);
                    }
                }
            }
        }
    }
}

pub(crate) proof fn lemma_root_fits(b: Seq<u8>, p: int, named: bool, depth: nat)
    requires
        0 <= p,
    ensures
        parse_root(b, p, named, depth) matches Ok(t) ==> fits(t),
{
    if p + 1 <= b.len() && b[p] == TAG_COMPOUND && depth > 0 {
        if named {
            lemma_string_fits(b, p + 1);
            if parse_string(b, p + 1) is Ok {
                lemma_entries_fits(b, parse_string(b, p + 1)->Ok_0.1, (depth - 1) as nat);
            }
        } else {
            lemma_entries_fits(b, p + 1, (depth - 1) as nat);
        }
    }
}

} // verus!
