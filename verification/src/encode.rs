//! The executable record encoder: serializes a structured value into the
//! self-delimiting wire form given by [`crate::codec::encoding`].

use vstd::prelude::*;

use crate::codec::arr_header;
use crate::codec::be_bytes;
use crate::codec::dict_header;
use crate::codec::encoding;
use crate::codec::encoding_of_elems;
use crate::codec::encoding_of_entries;
use crate::codec::int_bytes;
use crate::codec::str_header;
use crate::value::SpecVal;
use crate::value::StructuredValue;
use crate::value::encodable;
use crate::value::lemma_view_of_elems;
use crate::value::lemma_view_of_entries;
use crate::value::view_of;
use crate::value::view_of_elems;
use crate::value::view_of_entries;

verus! {

/// Appending one more value extends the encoding of a run of values.
proof fn lemma_elems_encoding_push(s: Seq<SpecVal>, x: SpecVal)
    ensures
        encoding_of_elems(s.push(x)) == encoding_of_elems(s) + encoding(x),
    decreases s.len(),
{
    if s.len() == 0 {
        assert(s.push(x).drop_first() =~= Seq::<SpecVal>::empty());
        assert(s.push(x)[0] == x);
        assert(encoding(x) + encoding_of_elems(Seq::<SpecVal>::empty()) =~= encoding(x));
        assert(encoding_of_elems(s) + encoding(x) =~= encoding(x));
    } else {
        assert(s.push(x).drop_first() =~= s.drop_first().push(x));
        assert(s.push(x)[0] == s[0]);
        lemma_elems_encoding_push(s.drop_first(), x);
        assert(encoding(s[0]) + (encoding_of_elems(s.drop_first()) + encoding(x))
            =~= (encoding(s[0]) + encoding_of_elems(s.drop_first())) + encoding(x));
    }
}

/// Appending one more pair extends the encoding of a run of entries.
proof fn lemma_entries_encoding_push(s: Seq<(Seq<u8>, SpecVal)>, x: (Seq<u8>, SpecVal))
    ensures
        encoding_of_entries(s.push(x)) == encoding_of_entries(s)
            + (str_header(x.0.len() as int) + x.0 + encoding(x.1)),
    decreases s.len(),
{
    let ex = str_header(x.0.len() as int) + x.0 + encoding(x.1);
    if s.len() == 0 {
        assert(s.push(x).drop_first() =~= Seq::<(Seq<u8>, SpecVal)>::empty());
        assert(s.push(x)[0] == x);
        assert(ex + encoding_of_entries(Seq::<(Seq<u8>, SpecVal)>::empty()) =~= ex);
        assert(encoding_of_entries(s) + ex =~= ex);
    } else {
        let e0 = str_header(s[0].0.len() as int) + s[0].0 + encoding(s[0].1);
        assert(s.push(x).drop_first() =~= s.drop_first().push(x));
        assert(s.push(x)[0] == s[0]);
        lemma_entries_encoding_push(s.drop_first(), x);
        assert(e0 + (encoding_of_entries(s.drop_first()) + ex)
            =~= (e0 + encoding_of_entries(s.drop_first())) + ex);
    }
}

/// Appends the `k`-byte big-endian form of `val`.
fn push_be(out: &mut Vec<u8>, val: u64, k: usize)
    requires
        k <= 8,
    ensures
        final(out)@ == old(out)@ + be_bytes(val as int, k as nat),
    decreases k,
{
    if k == 0 {
        proof {
            assert(out@ =~= old(out)@ + be_bytes(val as int, 0));
        }
    } else {
        push_be(out, val / 256, k - 1);
        out.push((val % 256) as u8);
        proof {
            assert(out@ =~= old(out)@ + be_bytes(val as int, k as nat));
        }
    }
}

/// Appends the most compact wire form of a non-negative integer.
fn push_uint(out: &mut Vec<u8>, n: u64)
    ensures
        final(out)@ == old(out)@ + int_bytes(n as int),
{
    if n <= 0x7f {
        out.push(n as u8);
        proof {
            assert(out@ =~= old(out)@ + int_bytes(n as int));
        }
    } else if n <= 0xff {
        out.push(0xcc);
        out.push(n as u8);
        proof {
            assert(out@ =~= old(out)@ + int_bytes(n as int));
        }
    } else if n <= 0xffff {
        out.push(0xcd);
        push_be(out, n, 2);
        proof {
            assert(out@ =~= old(out)@ + int_bytes(n as int));
        }
    } else if n <= 0xffff_ffff {
        out.push(0xce);
        push_be(out, n, 4);
        proof {
            assert(out@ =~= old(out)@ + int_bytes(n as int));
        }
    } else {
        out.push(0xcf);
        push_be(out, n, 8);
        proof {
            assert(out@ =~= old(out)@ + int_bytes(n as int));
        }
    }
}

/// Appends the most compact wire form of a negative integer.
fn push_sint(out: &mut Vec<u8>, n: i64)
    requires
        n < 0,
    ensures
        final(out)@ == old(out)@ + int_bytes(n as int),
{
    if n >= -32 {
        out.push((n + 256) as u8);
        proof {
            assert(out@ =~= old(out)@ + int_bytes(n as int));
        }
    } else if n >= -0x80 {
        out.push(0xd0);
        out.push((n + 256) as u8);
        proof {
            assert(out@ =~= old(out)@ + int_bytes(n as int));
        }
    } else if n >= -0x8000 {
        out.push(0xd1);
        push_be(out, (n + 0x1_0000) as u64, 2);
        proof {
            assert(out@ =~= old(out)@ + int_bytes(n as int));
        }
    } else if n >= -0x8000_0000 {
        out.push(0xd2);
        push_be(out, (n + 0x1_0000_0000) as u64, 4);
        proof {
            assert(out@ =~= old(out)@ + int_bytes(n as int));
        }
    } else {
        out.push(0xd3);
        // n + 2^64 lands in [2^63, 2^64); build it without leaving i64.
        let d: i64 = n - (-0x7fff_ffff_ffff_ffff - 1);
        let wide: u64 = d as u64 + 0x8000_0000_0000_0000;
        assert(wide as int == n + 0x1_0000_0000_0000_0000);
        push_be(out, wide, 8);
        proof {
            assert(out@ =~= old(out)@ + int_bytes(n as int));
        }
    }
}

/// Appends the bytes of `s`.
fn push_bytes(out: &mut Vec<u8>, s: &Vec<u8>)
    ensures
        final(out)@ == old(out)@ + s@,
{
    let mut i: usize = 0;
    while i < s.len()
        invariant
            i <= s@.len(),
            out@ == old(out)@ + s@.subrange(0, i as int),
        decreases s@.len() - i,
    {
        out.push(s[i]);
        proof {
            assert(out@ =~= old(out)@ + s@.subrange(0, i + 1));
        }
        i = i + 1;
    }
    proof {
        assert(out@ =~= old(out)@ + s@);
    }
}

/// Appends a string record: header then body.
fn push_str(out: &mut Vec<u8>, s: &Vec<u8>)
    requires
        s@.len() <= 0xffff_ffff,
    ensures
        final(out)@ == old(out)@ + str_header(s@.len() as int) + s@,
{
    let len = s.len();
    if len <= 31 {
        out.push((0xa0 + len) as u8);
        proof {
            assert(out@ =~= old(out)@ + str_header(s@.len() as int));
        }
    } else if len <= 255 {
        out.push(0xd9);
        out.push(len as u8);
        proof {
            assert(out@ =~= old(out)@ + str_header(s@.len() as int));
        }
    } else if len <= 65535 {
        out.push(0xda);
        push_be(out, len as u64, 2);
        proof {
            assert(out@ =~= old(out)@ + str_header(s@.len() as int));
        }
    } else {
        out.push(0xdb);
        push_be(out, len as u64, 4);
        proof {
            assert(out@ =~= old(out)@ + str_header(s@.len() as int));
        }
    }
    push_bytes(out, s);
}

/// Appends the record encoding of `v` to `out`.
#[verifier::loop_isolation(false)]
#[verifier::rlimit(60)]
pub fn encode_into(v: &StructuredValue, out: &mut Vec<u8>)
    requires
        encodable(view_of(*v)),
    ensures
        final(out)@ == old(out)@ + encoding(view_of(*v)),
    decreases v,
{
    match v {
        StructuredValue::Null => {
            out.push(0xc0);
            proof {
                assert(out@ =~= old(out)@ + encoding(view_of(*v)));
            }
        },
        StructuredValue::Bool(b) => {
            out.push(if *b { 0xc3 } else { 0xc2 });
            proof {
                assert(out@ =~= old(out)@ + encoding(view_of(*v)));
            }
        },
        StructuredValue::Uint(n) => {
            push_uint(out, *n);
        },
        StructuredValue::Sint(n) => {
            if *n >= 0 {
                push_uint(out, *n as u64);
            } else {
                push_sint(out, *n);
            }
        },
        StructuredValue::Float(bits) => {
            out.push(0xcb);
            push_be(out, *bits, 8);
            proof {
                assert(out@ =~= old(out)@ + encoding(view_of(*v)));
            }
        },
        StructuredValue::Str(s) => {
            push_str(out, s);
            proof {
                assert(out@ =~= old(out)@ + encoding(view_of(*v)));
            }
        },
        StructuredValue::Arr(elems) => {
            proof {
                lemma_view_of_elems(elems@);
            }
            let ghost w = view_of_elems(elems@);
            let n = elems.len();
            if n <= 15 {
                out.push((0x90 + n) as u8);
            } else if n <= 65535 {
                out.push(0xdc);
                push_be(out, n as u64, 2);
            } else {
                out.push(0xdd);
                push_be(out, n as u64, 4);
            }
            proof {
                assert(out@ =~= old(out)@ + arr_header(n as int));
            }
            let ghost mid = out@;
            let mut i: usize = 0;
            while i < elems.len()
                invariant
                    i <= elems@.len(),
                    elems@.len() == w.len(),
                    forall|j: int| 0 <= j < elems@.len()
                        ==> w[j] == view_of(#[trigger] elems@[j]),
                    forall|j: int| 0 <= j < w.len() ==> encodable(#[trigger] w[j]),
                    out@ == mid + encoding_of_elems(w.subrange(0, i as int)),
                decreases elems@.len() - i,
            {
                proof {
                    assert(decreases_to!(*v => (*v)->Arr_0));
                    assert(decreases_to!(*elems => elems@[i as int]));
                }
                encode_into(&elems[i], out);
                proof {
                    assert(w.subrange(0, i + 1) =~= w.subrange(0, i as int).push(w[i as int]));
                    lemma_elems_encoding_push(w.subrange(0, i as int), w[i as int]);
                }
                i = i + 1;
            }
            proof {
                assert(w.subrange(0, w.len() as int) =~= w);
            }
        },
        StructuredValue::Dict(entries) => {
            proof {
                lemma_view_of_entries(entries@);
            }
            let ghost w = view_of_entries(entries@);
            let n = entries.len();
            if n <= 15 {
                out.push((0x80 + n) as u8);
            } else if n <= 65535 {
                out.push(0xde);
                push_be(out, n as u64, 2);
            } else {
                out.push(0xdf);
                push_be(out, n as u64, 4);
            }
            proof {
                assert(out@ =~= old(out)@ + dict_header(n as int));
            }
            let ghost mid = out@;
            let mut i: usize = 0;
            while i < entries.len()
                invariant
                    i <= entries@.len(),
                    entries@.len() == w.len(),
                    forall|j: int| 0 <= j < entries@.len() ==> w[j]
                        == ((#[trigger] entries@[j]).0@, view_of(entries@[j].1)),
                    forall|j: int| 0 <= j < w.len() ==> (#[trigger] w[j]).0.len()
                        <= 0xffff_ffff && encodable(w[j].1),
                    out@ == mid + encoding_of_entries(w.subrange(0, i as int)),
                decreases entries@.len() - i,
            {
                let ghost pre = out@;
                push_str(out, &entries[i].0);
                proof {
                    assert(decreases_to!(*v => (*v)->Dict_0));
                    assert(decreases_to!(*entries => entries@[i as int]));
                    assert(decreases_to!(entries@[i as int] => entries@[i as int].1));
                }
                encode_into(&entries[i].1, out);
                proof {
                    assert(out@ =~= pre + (str_header(w[i as int].0.len() as int)
                        + w[i as int].0 + encoding(w[i as int].1)));
                    assert(w.subrange(0, i + 1) =~= w.subrange(0, i as int).push(w[i as int]));
                    lemma_entries_encoding_push(w.subrange(0, i as int), w[i as int]);
                }
                i = i + 1;
            }
            proof {
                assert(w.subrange(0, w.len() as int) =~= w);
            }
        },
    }
}

/// Serializes `v` into the byte record that [`crate::codec::try_decode`]
/// reads back as `v`.
pub fn encode_record(v: &StructuredValue) -> (out: Vec<u8>)
    requires
        encodable(view_of(*v)),
    ensures
        out@ == encoding(view_of(*v)),
{
    let mut out: Vec<u8> = Vec::new();
    encode_into(v, &mut out);
    proof {
        assert(out@ =~= encoding(view_of(*v)));
    }
    out
}

} // verus!
