//! Properties of the format that relate its decoder and encoder, stated
//! over the spec functions of [`crate::format`] and proved.
use crate::error::Error;
use crate::format::{
    nested_within,
    enc_document, enc_payload, fits, mismatch_from, name_fits, parse_root, root_name_of,
};
use crate::value::{Tree, TAG_COMPOUND, TAG_END};
use crate::wire::{be32_bytes, string_bytes};
use crate::proofs::{
    lemma_root_fits,
    lemma_mismatch_none, lemma_document_round, lemma_mismatch_first, lemma_prefix_string,
    lemma_prefix_entries,
};
use vstd::prelude::*;
use vstd::utf8::encode_utf8;

verus! {

/// Round trip in the named-root framing. A well-formed document is one that
/// the encoder produced from a tree whose lengths fit their fields. Under a
/// depth limit that the tree's nesting keeps to, the decoder accepts it, and
/// encoding the decoded tree gives the document back byte for byte.
pub proof fn named_round_trip(t: Tree, d: Seq<u8>, depth: nat)
    requires
        fits(t),
        nested_within(t, depth),
        enc_document(t, Some(root_name_of(t))) == Ok::<Seq<u8>, Error>(d),
    ensures
        (parse_root(d, 0, true, depth) matches Ok(t2) && fits(t2) && enc_document(
            t2,
            Some(root_name_of(t2)),
        ) == Ok::<Seq<u8>, Error>(d)),
{
    if !(t->Compound_0 is Some) {
        assert(encode_utf8(Seq::<char>::empty()) =~= Seq::<u8>::empty());
    }
    lemma_document_round(t, Some(root_name_of(t)), d, depth);
}

/// Round trip in the anonymous-root framing. A well-formed document is one
/// that the encoder produced from a tree whose lengths fit their fields.
/// Under a depth limit that the tree's nesting keeps to, the decoder accepts
/// it, and encoding the decoded tree gives the document back byte for byte.
pub proof fn anonymous_round_trip(t: Tree, d: Seq<u8>, depth: nat)
    requires
        fits(t),
        nested_within(t, depth),
        enc_document(t, None) == Ok::<Seq<u8>, Error>(d),
    ensures
        (parse_root(d, 0, false, depth) matches Ok(t2) && fits(t2) && enc_document(t2, None)
            == Ok::<Seq<u8>, Error>(d)),
{
    lemma_document_round(t, None, d, depth);
}

/// What the decoder accepts, the encoder accepts: every length in a decoded
/// tree fits its field on the wire.
pub proof fn decoded_trees_fit(b: Seq<u8>, named: bool, depth: nat)
    ensures
        parse_root(b, 0, named, depth) matches Ok(t) ==> fits(t),
{
    lemma_root_fits(b, 0, named, depth);
}

/// Encoding a list fails with `HeterogeneousList` as soon as one element's
/// tag differs from the first element's; the error names the first such
/// element, its tag and the first element's tag.
pub proof fn heterogeneous_list_rejected(vs: Seq<Tree>, j: int)
    requires
        vs.len() <= i32::MAX,
        0 <= j < vs.len(),
        vs[j].tag() != vs[0].tag(),
    ensures
        (enc_payload(Tree::List(vs)) matches Err(
            Error::HeterogeneousList { expected, found, index },
        )
            && expected == vs[0].tag() && index <= j && found == vs[index as int].tag() && found
            != expected && forall|k: int| 0 <= k < index ==> #[trigger] vs[k].tag() == expected),
{
    let t = vs[0].tag();
    lemma_mismatch_none(vs, t, 0);
    lemma_mismatch_first(vs, t, 0);
    let m = mismatch_from(vs, t, 0)->Some_0;
    if m > j {
        assert(vs[j].tag() == t);
    }
    assert((m as usize) as int == m);
}

/// Encoding an empty list never fails: it is element tag 0 and count 0.
pub proof fn empty_list_encoding()
    ensures
        enc_payload(Tree::List(Seq::empty())) == Ok::<Seq<u8>, Error>(seq![0u8, 0, 0, 0, 0]),
{
    let z: u32 = 0;
    assert((z >> 24u32) as u8 == 0 && (z >> 16u32) as u8 == 0 && (z >> 8u32) as u8 == 0 && z as u8
        == 0) by (bit_vector)
        requires
            z == 0,
    ;
    assert(seq![TAG_END] + be32_bytes(0) =~= seq![0u8, 0, 0, 0, 0]);
}

/// Decoding a buffer whose first byte is not the compound tag fails with
/// `RootNotCompound` carrying that byte, in both framings.
pub proof fn decode_rejects_non_compound_root(b: Seq<u8>, named: bool, depth: nat)
    requires
        b.len() > 0,
        b[0] != TAG_COMPOUND,
    ensures
        parse_root(b, 0, named, depth) == Err::<Tree, Error>(Error::RootNotCompound { tag: b[0] }),
{
}

/// Encoding a root that is not a compound fails with `RootNotCompound`
/// carrying the root's tag, in both framings.
pub proof fn encode_rejects_non_compound_root(t: Tree, root_name: Option<Seq<char>>)
    requires
        !(t is Compound),
    ensures
        enc_document(t, root_name) == Err::<Seq<u8>, Error>(
            Error::RootNotCompound { tag: t.tag() },
        ),
{
}

/// The two framings encode a tree alike below the root: both fail with the
/// same error, or the named one is the anonymous one with the root name
/// inserted after the root tag.
pub proof fn framings_differ_only_in_root_name(t: Tree, n: Seq<char>)
    ensures
        match enc_document(t, None) {
            Ok(anon) => anon.len() >= 1 && anon[0] == TAG_COMPOUND && enc_document(t, Some(n))
                == Ok::<Seq<u8>, Error>(seq![TAG_COMPOUND] + string_bytes(n) + anon.subrange(
                1,
                anon.len() as int,
            )),
            Err(e) => enc_document(t, Some(n)) == Err::<Seq<u8>, Error>(e),
        },
{
    if enc_document(t, None) is Ok {
        let anon = enc_document(t, None)->Ok_0;
        let b = enc_payload(t)->Ok_0;
        assert(anon.subrange(1, anon.len() as int) =~= b);
    }
}

/// Truncation safety: decoding any proper prefix of a well-formed document
/// (one that the encoder produced from a tree whose lengths fit their
/// fields), under a depth limit that the tree's nesting keeps to, fails with
/// `UnexpectedEndOfInput` at the offset of a field that starts within the
/// prefix, in both framings.
pub proof fn truncated_document_fails(
    t: Tree,
    root_name: Option<Seq<char>>,
    d: Seq<u8>,
    k: int,
    depth: nat,
)
    requires
        fits(t),
        nested_within(t, depth),
        root_name matches Some(n) ==> name_fits(n),
        enc_document(t, root_name) == Ok::<Seq<u8>, Error>(d),
        d.len() <= usize::MAX,
        0 <= k < d.len(),
    ensures
        (parse_root(d.subrange(0, k), 0, root_name is Some, depth) matches Err(
            Error::UnexpectedEndOfInput { offset },
        ) && offset <= k),
{
    lemma_document_round(t, root_name, d, depth);
    let c = d.subrange(0, k);
    let h = 1 + match root_name {
        Some(n) => string_bytes(n).len() as int,
        None => 0,
    };
    if k >= 1 {
        assert(c[0] == d[0]);
        if root_name is Some {
            lemma_prefix_string(d, 1, k);
        }
        if h <= k {
            lemma_prefix_entries(d, h, k, (depth - 1) as nat);
        }
    }
}

} // verus!
