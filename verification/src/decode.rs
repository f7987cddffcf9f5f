//! The executable record decoder: reads one self-delimiting record from a
//! byte buffer, reporting exactly the classification of the grammar
//! [`crate::codec::try_decode`] — a complete record with its byte count,
//! too-few-bytes, or corruption.

use vstd::prelude::*;

use crate::codec::SpecElemsStep;
use crate::codec::SpecEntriesStep;
use crate::codec::SpecStep;
use crate::codec::be_val;
use crate::codec::decode_elems;
use crate::codec::decode_entries;
use crate::codec::lemma_be_val_bound;
use crate::codec::lemma_step_used;
use crate::codec::pow256;
use crate::codec::try_decode;
use crate::value::StructuredValue;
use crate::value::SpecVal;
use crate::value::view_of;
use crate::value::view_of_elems;
use crate::value::view_of_entries;

verus! {

/// Field widths never shrink the range of a wider field.
proof fn lemma_pow256_mono(a: nat, b: nat)
    requires
        a <= b,
    ensures
        pow256(a) <= pow256(b),
    decreases b,
{
    if a < b {
        lemma_pow256_mono(a, (b - 1) as nat);
        lemma_be_val_bound(Seq::empty());
        assert(pow256((b - 1) as nat) >= 1) by {
            lemma_pow256_pos((b - 1) as nat);
        }
    }
}

proof fn lemma_pow256_pos(k: nat)
    ensures
        pow256(k) >= 1,
    decreases k,
{
    if k > 0 {
        lemma_pow256_pos((k - 1) as nat);
    }
}

/// The concrete widths the decoder reads.
proof fn lemma_pow256_widths()
    ensures
        pow256(1) == 0x100,
        pow256(2) == 0x1_0000,
        pow256(4) == 0x1_0000_0000,
        pow256(8) == 0x1_0000_0000_0000_0000,
{
    reveal_with_fuel(pow256, 9);
}

/// Reads a `k`-byte big-endian field at `pos`.
fn read_be(buf: &Vec<u8>, pos: usize, k: usize) -> (r: u64)
    requires
        k <= 8,
        pos + k <= buf@.len(),
    ensures
        r as int == be_val(buf@.subrange(pos as int, pos + k)),
{
    let total = buf.len();
    let mut acc: u64 = 0;
    let mut i: usize = 0;
    proof {
        assert(buf@.subrange(pos as int, pos as int) =~= Seq::<u8>::empty());
    }
    while i < k
        invariant
            i <= k,
            k <= 8,
            pos + k <= buf@.len(),
            total == buf@.len(),
            acc as int == be_val(buf@.subrange(pos as int, pos + i)),
            acc < pow256(i as nat),
        decreases k - i,
    {
        proof {
            lemma_pow256_mono(i as nat + 1, 8);
            lemma_pow256_widths();
            assert(buf@.subrange(pos as int, pos + i + 1).drop_last()
                =~= buf@.subrange(pos as int, pos + i));
        }
        acc = acc * 256 + buf[pos + i] as u64;
        i = i + 1;
    }
    acc
}

/// Copies `len` bytes starting at `start` into a fresh vector.
pub(crate) fn copy_range(buf: &Vec<u8>, start: usize, len: usize) -> (out: Vec<u8>)
    requires
        start + len <= buf@.len(),
    ensures
        out@ == buf@.subrange(start as int, start + len),
{
    let total = buf.len();
    let mut out: Vec<u8> = Vec::new();
    let mut i: usize = 0;
    while i < len
        invariant
            i <= len,
            start + len <= buf@.len(),
            total == buf@.len(),
            out@ == buf@.subrange(start as int, start + i),
        decreases len - i,
    {
        out.push(buf[start + i]);
        proof {
            assert(out@ =~= buf@.subrange(start as int, start + i + 1));
        }
        i = i + 1;
    }
    out
}

/// The outcome of attempting to read one record at an offset.
pub enum DecodeStep {
    /// A complete record: the decoded value and the bytes it occupied.
    Complete { value: StructuredValue, used: usize },
    /// The buffer ends before the record does; wait for more bytes.
    NeedMore,
    /// The bytes at the offset cannot begin a record.
    Corrupt,
}

/// The executable step reports exactly what the grammar says.
pub open spec fn step_matches(r: DecodeStep, s: SpecStep) -> bool {
    match r {
        DecodeStep::Complete { value, used } => s matches SpecStep::Record { v, used: su }
            && view_of(value) == v && used as int == su,
        DecodeStep::NeedMore => s is NeedMore,
        DecodeStep::Corrupt => s is Corrupt,
    }
}

/// The executable run of records reports exactly what the grammar says.
pub open spec fn elems_match(r: ElemsOut, s: SpecElemsStep) -> bool {
    match r {
        ElemsOut::Done { values, used } => s matches SpecElemsStep::Done { vs, used: su }
            && view_of_elems(values@) == vs && used as int == su,
        ElemsOut::NeedMore => s is NeedMore,
        ElemsOut::Corrupt => s is Corrupt,
    }
}

/// The executable run of pairs reports exactly what the grammar says.
pub open spec fn entries_match(r: EntriesOut, s: SpecEntriesStep) -> bool {
    match r {
        EntriesOut::Done { entries, used } => s matches SpecEntriesStep::Done { es, used: su }
            && view_of_entries(entries@) == es && used as int == su,
        EntriesOut::NeedMore => s is NeedMore,
        EntriesOut::Corrupt => s is Corrupt,
    }
}

/// The outcome of reading a run of records.
pub enum ElemsOut {
    Done { values: Vec<StructuredValue>, used: usize },
    NeedMore,
    Corrupt,
}

/// The outcome of reading a run of key/value pairs.
pub enum EntriesOut {
    Done { entries: Vec<(Vec<u8>, StructuredValue)>, used: usize },
    NeedMore,
    Corrupt,
}

/// Reads the string body of `len` bytes after a header of `h` bytes.
fn read_str_body(buf: &Vec<u8>, pos: usize, h: usize, len: u64) -> (r: DecodeStep)
    requires
        pos + h <= buf@.len(),
        crate::codec::str_step(buf@.skip(pos as int), h as int, len as int)
            == try_decode(buf@.skip(pos as int)),
    ensures
        step_matches(r, try_decode(buf@.skip(pos as int))),
{
    let ghost s = buf@.skip(pos as int);
    let avail = (buf.len() - pos - h) as u64;
    if avail < len {
        return DecodeStep::NeedMore;
    }
    let blen = len as usize;
    let body = copy_range(buf, pos + h, blen);
    proof {
        assert(body@ =~= s.subrange(h as int, h + len));
    }
    DecodeStep::Complete { value: StructuredValue::Str(body), used: h + blen }
}

/// Reads one record at `pos`, exactly as the grammar classifies the bytes
/// from `pos` on.
#[verifier::loop_isolation(false)]
#[verifier::rlimit(100)]
#[verifier::spinoff_prover]
pub fn decode_record(buf: &Vec<u8>, pos: usize) -> (r: DecodeStep)
    requires
        pos <= buf@.len(),
    ensures
        step_matches(r, try_decode(buf@.skip(pos as int))),
    decreases buf@.len() - pos, 1int, 0int,
{
    let ghost s = buf@.skip(pos as int);
    if pos == buf.len() {
        return DecodeStep::NeedMore;
    }
    let avail = buf.len() - pos;
    let m = buf[pos];
    proof {
        assert(s[0] == buf@[pos as int]);
    }
    if m <= 0x7f {
        DecodeStep::Complete { value: StructuredValue::Uint(m as u64), used: 1 }
    } else if m <= 0x8f {
        let r = decode_entries_list(buf, pos + 1, (m - 0x80) as u64);
        proof {
            assert(s.skip(1) =~= buf@.skip(pos + 1));
        }
        finish_dict(r, 1)
    } else if m <= 0x9f {
        let r = decode_elems_list(buf, pos + 1, (m - 0x90) as u64);
        proof {
            assert(s.skip(1) =~= buf@.skip(pos + 1));
        }
        finish_arr(r, 1)
    } else if m <= 0xbf {
        read_str_body(buf, pos, 1, (m - 0xa0) as u64)
    } else if m == 0xc0 {
        DecodeStep::Complete { value: StructuredValue::Null, used: 1 }
    } else if m == 0xc2 {
        DecodeStep::Complete { value: StructuredValue::Bool(false), used: 1 }
    } else if m == 0xc3 {
        DecodeStep::Complete { value: StructuredValue::Bool(true), used: 1 }
    } else if m == 0xcb {
        if avail < 9 {
            return DecodeStep::NeedMore;
        }
        let bits = read_be(buf, pos + 1, 8);
        proof {
            lemma_be_val_bound(s.subrange(1, 9));
            lemma_pow256_widths();
            assert(s.subrange(1, 9) =~= buf@.subrange(pos + 1, pos + 9));
        }
        DecodeStep::Complete { value: StructuredValue::Float(bits), used: 9 }
    } else if m == 0xcc || m == 0xcd || m == 0xce || m == 0xcf {
        let k: usize = if m == 0xcc {
            1
        } else if m == 0xcd {
            2
        } else if m == 0xce {
            4
        } else {
            8
        };
        if avail < 1 + k {
            return DecodeStep::NeedMore;
        }
        let raw = read_be(buf, pos + 1, k);
        proof {
            assert(s.subrange(1, 1 + k as int) =~= buf@.subrange(pos + 1, pos + 1 + k as int));
            if k == 1 {
                reveal_with_fuel(be_val, 3);
                assert(s.subrange(1, 2).drop_last() =~= Seq::<u8>::empty());
                assert(s.subrange(1, 2).last() == s[1]);
                assert(be_val(s.subrange(1, 2)) == s[1] as int);
            }
        }
        DecodeStep::Complete { value: StructuredValue::Uint(raw), used: 1 + k }
    } else if m == 0xd0 || m == 0xd1 || m == 0xd2 || m == 0xd3 {
        let k: usize = if m == 0xd0 {
            1
        } else if m == 0xd1 {
            2
        } else if m == 0xd2 {
            4
        } else {
            8
        };
        if avail < 1 + k {
            return DecodeStep::NeedMore;
        }
        let raw = read_be(buf, pos + 1, k);
        proof {
            lemma_be_val_bound(s.subrange(1, 1 + k as int));
            lemma_pow256_widths();
            assert(s.subrange(1, 1 + k as int) =~= buf@.subrange(pos + 1, pos + 1 + k as int));
            if k == 1 {
                reveal_with_fuel(be_val, 3);
                assert(s.subrange(1, 2).drop_last() =~= Seq::<u8>::empty());
                assert(s.subrange(1, 2).last() == s[1]);
                assert(be_val(s.subrange(1, 2)) == s[1] as int);
            }
        }
        let value = if k == 1 {
            if raw >= 0x80 {
                StructuredValue::Sint(raw as i64 - 0x100)
            } else {
                StructuredValue::Uint(raw)
            }
        } else if k == 2 {
            if raw >= 0x8000 {
                StructuredValue::Sint(raw as i64 - 0x1_0000)
            } else {
                StructuredValue::Uint(raw)
            }
        } else if k == 4 {
            if raw >= 0x8000_0000 {
                StructuredValue::Sint(raw as i64 - 0x1_0000_0000)
            } else {
                StructuredValue::Uint(raw)
            }
        } else {
            if raw >= 0x8000_0000_0000_0000 {
                let d = raw - 0x8000_0000_0000_0000;
                StructuredValue::Sint(d as i64 + (-0x7fff_ffff_ffff_ffff - 1))
            } else {
                StructuredValue::Uint(raw)
            }
        };
        DecodeStep::Complete { value, used: 1 + k }
    } else if m == 0xd9 {
        if avail < 2 {
            return DecodeStep::NeedMore;
        }
        proof {
            assert(s[1] == buf@[pos + 1]);
        }
        read_str_body(buf, pos, 2, buf[pos + 1] as u64)
    } else if m == 0xda {
        if avail < 3 {
            return DecodeStep::NeedMore;
        }
        let len = read_be(buf, pos + 1, 2);
        proof {
            assert(s.subrange(1, 3) =~= buf@.subrange(pos + 1, pos + 3));
        }
        read_str_body(buf, pos, 3, len)
    } else if m == 0xdb {
        if avail < 5 {
            return DecodeStep::NeedMore;
        }
        let len = read_be(buf, pos + 1, 4);
        proof {
            assert(s.subrange(1, 5) =~= buf@.subrange(pos + 1, pos + 5));
        }
        read_str_body(buf, pos, 5, len)
    } else if m == 0xdc || m == 0xdd {
        let hk: usize = if m == 0xdc {
            2
        } else {
            4
        };
        if avail < 1 + hk {
            return DecodeStep::NeedMore;
        }
        let n = read_be(buf, pos + 1, hk);
        proof {
            lemma_be_val_bound(s.subrange(1, 1 + hk as int));
            assert(s.subrange(1, 1 + hk as int) =~= buf@.subrange(pos + 1, pos + 1 + hk as int));
            assert(s.skip(1 + hk as int) =~= buf@.skip(pos + 1 + hk as int));
        }
        let r = decode_elems_list(buf, pos + 1 + hk, n);
        finish_arr(r, 1 + hk)
    } else if m == 0xde || m == 0xdf {
        let hk: usize = if m == 0xde {
            2
        } else {
            4
        };
        if avail < 1 + hk {
            return DecodeStep::NeedMore;
        }
        let n = read_be(buf, pos + 1, hk);
        proof {
            lemma_be_val_bound(s.subrange(1, 1 + hk as int));
            assert(s.subrange(1, 1 + hk as int) =~= buf@.subrange(pos + 1, pos + 1 + hk as int));
            assert(s.skip(1 + hk as int) =~= buf@.skip(pos + 1 + hk as int));
        }
        let r = decode_entries_list(buf, pos + 1 + hk, n);
        finish_dict(r, 1 + hk)
    } else if m >= 0xe0 {
        DecodeStep::Complete { value: StructuredValue::Sint(m as i64 - 0x100), used: 1 }
    } else {
        DecodeStep::Corrupt
    }
}

/// Wraps a decoded run of records as an array record of `h + used` bytes.
fn finish_arr(r: ElemsOut, h: usize) -> (out: DecodeStep)
    requires
        r matches ElemsOut::Done { used, .. } ==> used + h <= usize::MAX,
    ensures
        out matches DecodeStep::Complete { value, used } ==> r matches ElemsOut::Done {
            values,
            used: iu,
        } && value == StructuredValue::Arr(values) && used == h + iu,
        out is NeedMore <==> r is NeedMore,
        out is Corrupt <==> r is Corrupt,
{
    match r {
        ElemsOut::Done { values, used } => DecodeStep::Complete {
            value: StructuredValue::Arr(values),
            used: h + used,
        },
        ElemsOut::NeedMore => DecodeStep::NeedMore,
        ElemsOut::Corrupt => DecodeStep::Corrupt,
    }
}

/// Wraps a decoded run of pairs as a map record of `h + used` bytes.
fn finish_dict(r: EntriesOut, h: usize) -> (out: DecodeStep)
    requires
        r matches EntriesOut::Done { used, .. } ==> used + h <= usize::MAX,
    ensures
        out matches DecodeStep::Complete { value, used } ==> r matches EntriesOut::Done {
            entries,
            used: iu,
        } && value == StructuredValue::Dict(entries) && used == h + iu,
        out is NeedMore <==> r is NeedMore,
        out is Corrupt <==> r is Corrupt,
{
    match r {
        EntriesOut::Done { entries, used } => DecodeStep::Complete {
            value: StructuredValue::Dict(entries),
            used: h + used,
        },
        EntriesOut::NeedMore => DecodeStep::NeedMore,
        EntriesOut::Corrupt => DecodeStep::Corrupt,
    }
}

/// Reads `n` consecutive records starting at `pos`.
fn decode_elems_list(buf: &Vec<u8>, pos: usize, n: u64) -> (r: ElemsOut)
    requires
        pos <= buf@.len(),
    ensures
        elems_match(r, decode_elems(buf@.skip(pos as int), n as nat)),
        r matches ElemsOut::Done { used, .. } ==> pos + used <= buf@.len(),
    decreases buf@.len() - pos, 2int, n,
{
    let ghost s = buf@.skip(pos as int);
    let total = buf.len();
    proof {
        assert(total == buf@.len());
    }
    if n == 0 {
        proof {
            assert(view_of_elems(Seq::<StructuredValue>::empty()) =~= Seq::<SpecVal>::empty());
        }
        let values: Vec<StructuredValue> = Vec::new();
        return ElemsOut::Done { values, used: 0 };
    }
    let first = decode_record(buf, pos);
    match first {
        DecodeStep::Complete { value, used } => {
            proof {
                lemma_step_used(s);
                assert(1 <= used as int <= s.len());
                assert(s.skip(used as int) =~= buf@.skip(pos + used as int));
            }
            let rest_out = decode_elems_list(buf, pos + used, n - 1);
            match rest_out {
                ElemsOut::Done { values: rest, used: rest_used } => {
                    let mut values = rest;
                    let ghost old_values = values@;
                    values.insert(0, value);
                    proof {
                        assert(values@ =~= seq![value] + old_values);
                        assert(values@.drop_first() =~= old_values);
                        assert(view_of_elems(values@) =~= seq![view_of(value)]
                            + view_of_elems(old_values));
                    }
                    ElemsOut::Done { values, used: used + rest_used }
                },
                ElemsOut::NeedMore => ElemsOut::NeedMore,
                ElemsOut::Corrupt => ElemsOut::Corrupt,
            }
        },
        DecodeStep::NeedMore => ElemsOut::NeedMore,
        DecodeStep::Corrupt => ElemsOut::Corrupt,
    }
}

/// Reads `n` consecutive key/value pairs starting at `pos`.
fn decode_entries_list(buf: &Vec<u8>, pos: usize, n: u64) -> (r: EntriesOut)
    requires
        pos <= buf@.len(),
    ensures
        entries_match(r, decode_entries(buf@.skip(pos as int), n as nat)),
        r matches EntriesOut::Done { used, .. } ==> pos + used <= buf@.len(),
    decreases buf@.len() - pos, 2int, n,
{
    let ghost s = buf@.skip(pos as int);
    let total = buf.len();
    proof {
        assert(total == buf@.len());
    }
    if n == 0 {
        proof {
            assert(view_of_entries(Seq::<(Vec<u8>, StructuredValue)>::empty())
                =~= Seq::<(Seq<u8>, SpecVal)>::empty());
        }
        let entries: Vec<(Vec<u8>, StructuredValue)> = Vec::new();
        return EntriesOut::Done { entries, used: 0 };
    }
    let kfirst = decode_record(buf, pos);
    match kfirst {
        DecodeStep::Complete { value: key, used: ku } => {
            proof {
                lemma_step_used(s);
                assert(1 <= ku as int <= s.len());
            }
            match key {
                StructuredValue::Str(kb) => {
                    proof {
                        assert(s.skip(ku as int) =~= buf@.skip(pos + ku as int));
                    }
                    let vfirst = decode_record(buf, pos + ku);
                    match vfirst {
                        DecodeStep::Complete { value, used: vu } => {
                            proof {
                                lemma_step_used(s.skip(ku as int));
                                assert(1 <= vu as int <= s.len() - ku);
                                assert(s.skip(ku + vu as int)
                                    =~= buf@.skip(pos + ku + vu as int));
                                assert(s.skip(ku as int).skip(vu as int)
                                    =~= s.skip(ku + vu as int));
                            }
                            let rest_out = decode_entries_list(buf, pos + ku + vu, n - 1);
                            match rest_out {
                                EntriesOut::Done { entries: rest, used: rest_used } => {
                                    let mut entries = rest;
                                    let ghost old_entries = entries@;
                                    entries.insert(0, (kb, value));
                                    proof {
                                        assert(entries@ =~= seq![(kb, value)] + old_entries);
                                        assert(entries@.drop_first() =~= old_entries);
                                        assert(view_of_entries(entries@)
                                            =~= seq![(kb@, view_of(value))]
                                            + view_of_entries(old_entries));
                                    }
                                    EntriesOut::Done { entries, used: ku + vu + rest_used }
                                },
                                EntriesOut::NeedMore => EntriesOut::NeedMore,
                                EntriesOut::Corrupt => EntriesOut::Corrupt,
                            }
                        },
                        DecodeStep::NeedMore => EntriesOut::NeedMore,
                        DecodeStep::Corrupt => EntriesOut::Corrupt,
                    }
                },
                _ => EntriesOut::Corrupt,
            }
        },
        DecodeStep::NeedMore => EntriesOut::NeedMore,
        DecodeStep::Corrupt => EntriesOut::Corrupt,
    }
}

} // verus!
