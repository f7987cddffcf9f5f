//! Round-trip laws of the record codec: decoding an encoded value, with
//! any bytes appended after it, yields exactly that value and consumes
//! exactly its encoding; and a proper prefix of an encoding is classified
//! as incomplete, never as corrupt.

use vstd::prelude::*;

use crate::codec::SpecElemsStep;
use crate::codec::SpecEntriesStep;
use crate::codec::SpecStep;
use crate::codec::be_bytes;
use crate::codec::decode_elems;
use crate::codec::decode_entries;
use crate::codec::encoding;
use crate::codec::encoding_of_elems;
use crate::codec::encoding_of_entries;
use crate::codec::lemma_be_round_trip;
use crate::codec::lemma_step_used;
use crate::codec::pow256;
use crate::codec::str_header;
use crate::codec::try_decode;
use crate::value::SpecVal;
use crate::value::encodable;

verus! {

/// The field widths used by the codec.
pub proof fn lemma_pow256_vals()
    ensures
        pow256(1) == 0x100,
        pow256(2) == 0x1_0000,
        pow256(4) == 0x1_0000_0000,
        pow256(8) == 0x1_0000_0000_0000_0000,
{
    reveal_with_fuel(pow256, 9);
}

/// Decoding an encoded string record gives the string back.
pub proof fn lemma_decode_str(kb: Seq<u8>, rest: Seq<u8>)
    requires
        kb.len() <= 0xffff_ffff,
    ensures
        try_decode(str_header(kb.len() as int) + kb + rest) == (SpecStep::Record {
            v: SpecVal::Str(kb),
            used: str_header(kb.len() as int).len() + kb.len() as int,
        }),
{
    lemma_pow256_vals();
    let len = kb.len() as int;
    let h = str_header(len);
    let u = h + kb + rest;
    if len <= 31 {
        assert(u[0] == (0xa0 + len) as u8);
        assert(u.subrange(1, 1 + len) =~= kb);
    } else if len <= 255 {
        assert(u[0] == 0xd9u8);
        assert(u[1] == len as u8);
        assert(u.subrange(2, 2 + len) =~= kb);
    } else if len <= 65535 {
        assert(u[0] == 0xdau8);
        lemma_be_round_trip(len, 2);
        assert(u.subrange(1, 3) =~= be_bytes(len, 2));
        assert(u.subrange(3, 3 + len) =~= kb);
    } else {
        assert(u[0] == 0xdbu8);
        lemma_be_round_trip(len, 4);
        assert(u.subrange(1, 5) =~= be_bytes(len, 4));
        assert(u.subrange(5, 5 + len) =~= kb);
    }
}

/// Decoding an encoded value, whatever follows it, gives the value back
/// and consumes exactly its encoding.
pub proof fn lemma_decode_encoding(v: SpecVal, rest: Seq<u8>)
    requires
        encodable(v),
    ensures
        try_decode(encoding(v) + rest) == (SpecStep::Record {
            v: v,
            used: encoding(v).len() as int,
        }),
    decreases v,
{
    lemma_pow256_vals();
    let e = encoding(v);
    let u = e + rest;
    match v {
        SpecVal::Null => {
            assert(u[0] == 0xc0u8);
        },
        SpecVal::Bool(b) => {
            assert(u[0] == if b { 0xc3u8 } else { 0xc2u8 });
        },
        SpecVal::Int(i) => {
            if 0 <= i <= 0x7f {
                assert(u[0] == i as u8);
            } else if 0x80 <= i <= 0xff {
                assert(u[0] == 0xccu8);
                assert(u[1] == i as u8);
            } else if 0x100 <= i <= 0xffff {
                assert(u[0] == 0xcdu8);
                lemma_be_round_trip(i, 2);
                assert(u.subrange(1, 3) =~= be_bytes(i, 2));
            } else if 0x1_0000 <= i <= 0xffff_ffff {
                assert(u[0] == 0xceu8);
                lemma_be_round_trip(i, 4);
                assert(u.subrange(1, 5) =~= be_bytes(i, 4));
            } else if i > 0xffff_ffff {
                assert(u[0] == 0xcfu8);
                lemma_be_round_trip(i, 8);
                assert(u.subrange(1, 9) =~= be_bytes(i, 8));
            } else if -32 <= i <= -1 {
                assert(u[0] == (i + 256) as u8);
                assert(u[0] as int >= 0xe0);
            } else if -0x80 <= i < -32 {
                assert(u[0] == 0xd0u8);
                assert(u[1] == (i + 256) as u8);
            } else if -0x8000 <= i < -0x80 {
                assert(u[0] == 0xd1u8);
                lemma_be_round_trip(i + 0x1_0000, 2);
                assert(u.subrange(1, 3) =~= be_bytes(i + 0x1_0000, 2));
            } else if -0x8000_0000 <= i < -0x8000 {
                assert(u[0] == 0xd2u8);
                lemma_be_round_trip(i + 0x1_0000_0000, 4);
                assert(u.subrange(1, 5) =~= be_bytes(i + 0x1_0000_0000, 4));
            } else {
                assert(u[0] == 0xd3u8);
                lemma_be_round_trip(i + 0x1_0000_0000_0000_0000, 8);
                assert(u.subrange(1, 9) =~= be_bytes(i + 0x1_0000_0000_0000_0000, 8));
            }
        },
        SpecVal::Float(bits) => {
            assert(u[0] == 0xcbu8);
            lemma_be_round_trip(bits as int, 8);
            assert(u.subrange(1, 9) =~= be_bytes(bits as int, 8));
        },
        SpecVal::Str(sb) => {
            assert(u =~= str_header(sb.len() as int) + sb + rest);
            lemma_decode_str(sb, rest);
        },
        SpecVal::Arr(elems) => {
            let n = elems.len() as int;
            let body = encoding_of_elems(elems);
            lemma_elems_round(elems, rest);
            if n <= 15 {
                assert(u[0] == (0x90 + n) as u8);
                assert(u.skip(1) =~= body + rest);
            } else if n <= 65535 {
                assert(u[0] == 0xdcu8);
                lemma_be_round_trip(n, 2);
                assert(u.subrange(1, 3) =~= be_bytes(n, 2));
                assert(u.skip(3) =~= body + rest);
            } else {
                assert(u[0] == 0xddu8);
                lemma_be_round_trip(n, 4);
                assert(u.subrange(1, 5) =~= be_bytes(n, 4));
                assert(u.skip(5) =~= body + rest);
            }
        },
        SpecVal::Dict(entries) => {
            let n = entries.len() as int;
            let body = encoding_of_entries(entries);
            lemma_entries_round(entries, rest);
            if n <= 15 {
                assert(u[0] == (0x80 + n) as u8);
                assert(u.skip(1) =~= body + rest);
            } else if n <= 65535 {
                assert(u[0] == 0xdeu8);
                lemma_be_round_trip(n, 2);
                assert(u.subrange(1, 3) =~= be_bytes(n, 2));
                assert(u.skip(3) =~= body + rest);
            } else {
                assert(u[0] == 0xdfu8);
                lemma_be_round_trip(n, 4);
                assert(u.subrange(1, 5) =~= be_bytes(n, 4));
                assert(u.skip(5) =~= body + rest);
            }
        },
    }
}

/// A proper prefix of an encoding is classified as incomplete, never as
/// corrupt and never as some other complete record.
pub proof fn lemma_prefix_incomplete(v: SpecVal, j: int)
    requires
        encodable(v),
        0 <= j < encoding(v).len(),
    ensures
        try_decode(encoding(v).subrange(0, j)) is NeedMore,
{
    let e = encoding(v);
    let p = e.subrange(0, j);
    if !(try_decode(p) is NeedMore) {
        crate::codec::lemma_step_stable(p, e.skip(j));
        assert(p + e.skip(j) =~= e);
        lemma_decode_encoding(v, Seq::empty());
        assert(e + Seq::empty() =~= e);
        lemma_step_used(p);
        assert(false);
    }
}

/// Decoding the concatenated encodings of `n` values gives the values
/// back, in order.
pub proof fn lemma_elems_round(vs: Seq<SpecVal>, rest: Seq<u8>)
    requires
        forall|i: int| 0 <= i < vs.len() ==> encodable(#[trigger] vs[i]),
    ensures
        decode_elems(encoding_of_elems(vs) + rest, vs.len()) == (SpecElemsStep::Done {
            vs: vs,
            used: encoding_of_elems(vs).len() as int,
        }),
    decreases vs,
{
    let body = encoding_of_elems(vs);
    let u = body + rest;
    if vs.len() == 0 {
        assert(u =~= rest);
        assert(vs =~= Seq::<SpecVal>::empty());
    } else {
        let e0 = encoding(vs[0]);
        let tail = encoding_of_elems(vs.drop_first());
        assert(u =~= e0 + (tail + rest));
        lemma_decode_encoding(vs[0], tail + rest);
        lemma_step_used(u);
        assert(u.skip(e0.len() as int) =~= tail + rest);
        assert(forall|i: int| 0 <= i < vs.drop_first().len()
            ==> encodable(#[trigger] vs.drop_first()[i]));
        lemma_elems_round(vs.drop_first(), rest);
        assert(seq![vs[0]] + vs.drop_first() =~= vs);
    }
}

/// Decoding the concatenated encodings of `n` key/value pairs gives the
/// pairs back, in order.
pub proof fn lemma_entries_round(es: Seq<(Seq<u8>, SpecVal)>, rest: Seq<u8>)
    requires
        forall|i: int| 0 <= i < es.len() ==> (#[trigger] es[i]).0.len() <= 0xffff_ffff
            && encodable(es[i].1),
    ensures
        decode_entries(encoding_of_entries(es) + rest, es.len()) == (SpecEntriesStep::Done {
            es: es,
            used: encoding_of_entries(es).len() as int,
        }),
    decreases es,
{
    let body = encoding_of_entries(es);
    let u = body + rest;
    if es.len() == 0 {
        assert(u =~= rest);
        assert(es =~= Seq::<(Seq<u8>, SpecVal)>::empty());
    } else {
        assert(decreases_to!(es => es[0]));
        assert(decreases_to!(es[0] => es[0].1));
        let kb = es[0].0;
        let kh = str_header(kb.len() as int);
        let ve = encoding(es[0].1);
        let tail = encoding_of_entries(es.drop_first());
        assert(u =~= kh + kb + (ve + (tail + rest)));
        lemma_decode_str(kb, ve + (tail + rest));
        lemma_step_used(u);
        let ku = kh.len() + kb.len();
        assert(u.skip(ku as int) =~= ve + (tail + rest));
        lemma_decode_encoding(es[0].1, tail + rest);
        lemma_step_used(u.skip(ku as int));
        assert(u.skip(ku as int).skip(ve.len() as int) =~= tail + rest);
        assert(u.skip(ku + ve.len() as int) =~= tail + rest);
        assert(forall|i: int| 0 <= i < es.drop_first().len()
            ==> (#[trigger] es.drop_first()[i]).0.len() <= 0xffff_ffff
                && encodable(es.drop_first()[i].1));
        lemma_entries_round(es.drop_first(), rest);
        assert(seq![(es[0].0, es[0].1)] + es.drop_first() =~= es);
    }
}

} // verus!
