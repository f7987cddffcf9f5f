//! The record wire format: one self-delimiting binary encoding per
//! structured value, written back-to-back with no separators. A value is a
//! one-byte marker followed by marker-specific payload: small integers live
//! in the marker itself, wider integers and the float bit pattern follow as
//! big-endian bytes, and strings, arrays and maps carry their length or
//! entry count in the header, so a reader finds each record's end purely by
//! decoding it.
//!
//! [`try_decode`] is the grammar: it classifies any byte sequence as a
//! complete record, as too short to tell ([`SpecStep::NeedMore`]), or as
//! structurally corrupt. Markers this codec never writes (raw binary,
//! extension and 32-bit float markers) decode as corrupt.

use vstd::prelude::*;

use crate::value::SpecVal;

verus! {

/// 256 to the power `k`: the number of values of a `k`-byte field.
pub open spec fn pow256(k: nat) -> int
    decreases k,
{
    if k == 0 {
        1
    } else {
        256 * pow256((k - 1) as nat)
    }
}

/// The integer held by a big-endian byte sequence.
pub open spec fn be_val(s: Seq<u8>) -> int
    decreases s.len(),
{
    if s.len() == 0 {
        0
    } else {
        256 * be_val(s.drop_last()) + s.last()
    }
}

/// The `k`-byte big-endian encoding of `n`.
pub open spec fn be_bytes(n: int, k: nat) -> Seq<u8>
    decreases k,
{
    if k == 0 {
        Seq::empty()
    } else {
        be_bytes(n / 256, (k - 1) as nat).push((n % 256) as u8)
    }
}

/// A big-endian field holds a value below `pow256` of its width.
pub proof fn lemma_be_val_bound(s: Seq<u8>)
    ensures
        0 <= be_val(s) < pow256(s.len()),
    decreases s.len(),
{
    if s.len() > 0 {
        lemma_be_val_bound(s.drop_last());
    }
}

/// Writing then reading a big-endian field gives the value back.
pub proof fn lemma_be_round_trip(n: int, k: nat)
    requires
        0 <= n < pow256(k),
    ensures
        be_bytes(n, k).len() == k,
        be_val(be_bytes(n, k)) == n,
    decreases k,
{
    if k > 0 {
        assert(0 <= n / 256 < pow256((k - 1) as nat)) by {
            assert(pow256(k) == 256 * pow256((k - 1) as nat));
            assert(n / 256 < pow256((k - 1) as nat)) by (nonlinear_arith)
                requires n < 256 * pow256((k - 1) as nat) && 0 <= n;
            assert(n / 256 >= 0) by (nonlinear_arith)
                requires n >= 0;
        }
        lemma_be_round_trip(n / 256, (k - 1) as nat);
        let b = be_bytes(n, k);
        assert(b.drop_last() =~= be_bytes(n / 256, (k - 1) as nat));
        assert(be_val(b) == 256 * (n / 256) + n % 256);
    }
}

/// The header that introduces a string of `len` bytes.
pub open spec fn str_header(len: int) -> Seq<u8> {
    if len <= 31 {
        seq![(0xa0 + len) as u8]
    } else if len <= 255 {
        seq![0xd9u8, len as u8]
    } else if len <= 65535 {
        seq![0xdau8] + be_bytes(len, 2)
    } else {
        seq![0xdbu8] + be_bytes(len, 4)
    }
}

/// The header that introduces an array of `n` elements.
pub open spec fn arr_header(n: int) -> Seq<u8> {
    if n <= 15 {
        seq![(0x90 + n) as u8]
    } else if n <= 65535 {
        seq![0xdcu8] + be_bytes(n, 2)
    } else {
        seq![0xddu8] + be_bytes(n, 4)
    }
}

/// The header that introduces a map of `n` key/value pairs.
pub open spec fn dict_header(n: int) -> Seq<u8> {
    if n <= 15 {
        seq![(0x80 + n) as u8]
    } else if n <= 65535 {
        seq![0xdeu8] + be_bytes(n, 2)
    } else {
        seq![0xdfu8] + be_bytes(n, 4)
    }
}

/// The most compact wire form of an integer.
pub open spec fn int_bytes(i: int) -> Seq<u8> {
    if 0 <= i <= 0x7f {
        seq![i as u8]
    } else if 0x80 <= i <= 0xff {
        seq![0xccu8, i as u8]
    } else if 0x100 <= i <= 0xffff {
        seq![0xcdu8] + be_bytes(i, 2)
    } else if 0x1_0000 <= i <= 0xffff_ffff {
        seq![0xceu8] + be_bytes(i, 4)
    } else if i > 0xffff_ffff {
        seq![0xcfu8] + be_bytes(i, 8)
    } else if -32 <= i <= -1 {
        seq![(i + 256) as u8]
    } else if -0x80 <= i < -32 {
        seq![0xd0u8, (i + 256) as u8]
    } else if -0x8000 <= i < -0x80 {
        seq![0xd1u8] + be_bytes(i + 0x1_0000, 2)
    } else if -0x8000_0000 <= i < -0x8000 {
        seq![0xd2u8] + be_bytes(i + 0x1_0000_0000, 4)
    } else {
        seq![0xd3u8] + be_bytes(i + 0x1_0000_0000_0000_0000, 8)
    }
}

/// The record encoding of a structured value.
pub open spec fn encoding(v: SpecVal) -> Seq<u8>
    decreases v,
{
    match v {
        SpecVal::Null => seq![0xc0u8],
        SpecVal::Bool(b) => if b { seq![0xc3u8] } else { seq![0xc2u8] },
        SpecVal::Int(i) => int_bytes(i),
        SpecVal::Float(bits) => seq![0xcbu8] + be_bytes(bits as int, 8),
        SpecVal::Str(s) => str_header(s.len() as int) + s,
        SpecVal::Arr(elems) => arr_header(elems.len() as int) + encoding_of_elems(elems),
        SpecVal::Dict(entries) => dict_header(entries.len() as int)
            + encoding_of_entries(entries),
    }
}

/// The concatenated encodings of an array's elements.
pub open spec fn encoding_of_elems(s: Seq<SpecVal>) -> Seq<u8>
    decreases s,
{
    if s.len() == 0 {
        Seq::empty()
    } else {
        encoding(s[0]) + encoding_of_elems(s.drop_first())
    }
}

/// The concatenated key/value encodings of a map's entries.
pub open spec fn encoding_of_entries(s: Seq<(Seq<u8>, SpecVal)>) -> Seq<u8>
    decreases s,
    via encoding_of_entries_decreases
{
    if s.len() == 0 {
        Seq::empty()
    } else {
        str_header(s[0].0.len() as int) + s[0].0 + encoding(s[0].1)
            + encoding_of_entries(s.drop_first())
    }
}

#[via_fn]
proof fn encoding_of_entries_decreases(s: Seq<(Seq<u8>, SpecVal)>) {
    if s.len() > 0 {
        assert(decreases_to!(s => s[0]));
        assert(decreases_to!(s[0] => s[0].1));
    }
}

/// The outcome of reading one record from the front of a byte sequence.
pub enum SpecStep {
    /// A complete record occupying the first `used` bytes.
    Record { v: SpecVal, used: int },
    /// The bytes end before the record does.
    NeedMore,
    /// The bytes cannot begin a record.
    Corrupt,
}

/// The outcome of reading `n` consecutive records.
pub enum SpecElemsStep {
    Done { vs: Seq<SpecVal>, used: int },
    NeedMore,
    Corrupt,
}

/// The outcome of reading `n` consecutive key/value pairs.
pub enum SpecEntriesStep {
    Done { es: Seq<(Seq<u8>, SpecVal)>, used: int },
    NeedMore,
    Corrupt,
}

/// Reading a string body of `len` bytes after a header of `h` bytes.
pub open spec fn str_step(s: Seq<u8>, h: int, len: int) -> SpecStep {
    if s.len() < h + len {
        SpecStep::NeedMore
    } else {
        SpecStep::Record { v: SpecVal::Str(s.subrange(h, h + len)), used: h + len }
    }
}

/// Reads one record from the front of `s`: the grammar of the log format.
pub open spec fn try_decode(s: Seq<u8>) -> SpecStep
    decreases s.len(), 0int, 0int,
{
    if s.len() == 0 {
        SpecStep::NeedMore
    } else {
        let m = s[0] as int;
        if m <= 0x7f {
            SpecStep::Record { v: SpecVal::Int(m), used: 1 }
        } else if m <= 0x8f {
            match decode_entries(s.skip(1), (m - 0x80) as nat) {
                SpecEntriesStep::Done { es, used } => SpecStep::Record {
                    v: SpecVal::Dict(es),
                    used: 1 + used,
                },
                SpecEntriesStep::NeedMore => SpecStep::NeedMore,
                SpecEntriesStep::Corrupt => SpecStep::Corrupt,
            }
        } else if m <= 0x9f {
            match decode_elems(s.skip(1), (m - 0x90) as nat) {
                SpecElemsStep::Done { vs, used } => SpecStep::Record {
                    v: SpecVal::Arr(vs),
                    used: 1 + used,
                },
                SpecElemsStep::NeedMore => SpecStep::NeedMore,
                SpecElemsStep::Corrupt => SpecStep::Corrupt,
            }
        } else if m <= 0xbf {
            str_step(s, 1, m - 0xa0)
        } else if m == 0xc0 {
            SpecStep::Record { v: SpecVal::Null, used: 1 }
        } else if m == 0xc2 {
            SpecStep::Record { v: SpecVal::Bool(false), used: 1 }
        } else if m == 0xc3 {
            SpecStep::Record { v: SpecVal::Bool(true), used: 1 }
        } else if m == 0xcb {
            if s.len() < 9 {
                SpecStep::NeedMore
            } else {
                SpecStep::Record {
                    v: SpecVal::Float(be_val(s.subrange(1, 9)) as u64),
                    used: 9,
                }
            }
        } else if m == 0xcc {
            if s.len() < 2 {
                SpecStep::NeedMore
            } else {
                SpecStep::Record { v: SpecVal::Int(s[1] as int), used: 2 }
            }
        } else if m == 0xcd {
            if s.len() < 3 {
                SpecStep::NeedMore
            } else {
                SpecStep::Record { v: SpecVal::Int(be_val(s.subrange(1, 3))), used: 3 }
            }
        } else if m == 0xce {
            if s.len() < 5 {
                SpecStep::NeedMore
            } else {
                SpecStep::Record { v: SpecVal::Int(be_val(s.subrange(1, 5))), used: 5 }
            }
        } else if m == 0xcf {
            if s.len() < 9 {
                SpecStep::NeedMore
            } else {
                SpecStep::Record { v: SpecVal::Int(be_val(s.subrange(1, 9))), used: 9 }
            }
        } else if m == 0xd0 {
            if s.len() < 2 {
                SpecStep::NeedMore
            } else {
                let r = s[1] as int;
                SpecStep::Record {
                    v: SpecVal::Int(if r >= 0x80 { r - 0x100 } else { r }),
                    used: 2,
                }
            }
        } else if m == 0xd1 {
            if s.len() < 3 {
                SpecStep::NeedMore
            } else {
                let r = be_val(s.subrange(1, 3));
                SpecStep::Record {
                    v: SpecVal::Int(if r >= 0x8000 { r - 0x1_0000 } else { r }),
                    used: 3,
                }
            }
        } else if m == 0xd2 {
            if s.len() < 5 {
                SpecStep::NeedMore
            } else {
                let r = be_val(s.subrange(1, 5));
                SpecStep::Record {
                    v: SpecVal::Int(if r >= 0x8000_0000 { r - 0x1_0000_0000 } else { r }),
                    used: 5,
                }
            }
        } else if m == 0xd3 {
            if s.len() < 9 {
                SpecStep::NeedMore
            } else {
                let r = be_val(s.subrange(1, 9));
                SpecStep::Record {
                    v: SpecVal::Int(
                        if r >= 0x8000_0000_0000_0000 {
                            r - 0x1_0000_0000_0000_0000
                        } else {
                            r
                        },
                    ),
                    used: 9,
                }
            }
        } else if m == 0xd9 {
            if s.len() < 2 {
                SpecStep::NeedMore
            } else {
                str_step(s, 2, s[1] as int)
            }
        } else if m == 0xda {
            if s.len() < 3 {
                SpecStep::NeedMore
            } else {
                str_step(s, 3, be_val(s.subrange(1, 3)))
            }
        } else if m == 0xdb {
            if s.len() < 5 {
                SpecStep::NeedMore
            } else {
                str_step(s, 5, be_val(s.subrange(1, 5)))
            }
        } else if m == 0xdc {
            if s.len() < 3 {
                SpecStep::NeedMore
            } else {
                match decode_elems(s.skip(3), be_val(s.subrange(1, 3)) as nat) {
                    SpecElemsStep::Done { vs, used } => SpecStep::Record {
                        v: SpecVal::Arr(vs),
                        used: 3 + used,
                    },
                    SpecElemsStep::NeedMore => SpecStep::NeedMore,
                    SpecElemsStep::Corrupt => SpecStep::Corrupt,
                }
            }
        } else if m == 0xdd {
            if s.len() < 5 {
                SpecStep::NeedMore
            } else {
                match decode_elems(s.skip(5), be_val(s.subrange(1, 5)) as nat) {
                    SpecElemsStep::Done { vs, used } => SpecStep::Record {
                        v: SpecVal::Arr(vs),
                        used: 5 + used,
                    },
                    SpecElemsStep::NeedMore => SpecStep::NeedMore,
                    SpecElemsStep::Corrupt => SpecStep::Corrupt,
                }
            }
        } else if m == 0xde {
            if s.len() < 3 {
                SpecStep::NeedMore
            } else {
                match decode_entries(s.skip(3), be_val(s.subrange(1, 3)) as nat) {
                    SpecEntriesStep::Done { es, used } => SpecStep::Record {
                        v: SpecVal::Dict(es),
                        used: 3 + used,
                    },
                    SpecEntriesStep::NeedMore => SpecStep::NeedMore,
                    SpecEntriesStep::Corrupt => SpecStep::Corrupt,
                }
            }
        } else if m == 0xdf {
            if s.len() < 5 {
                SpecStep::NeedMore
            } else {
                match decode_entries(s.skip(5), be_val(s.subrange(1, 5)) as nat) {
                    SpecEntriesStep::Done { es, used } => SpecStep::Record {
                        v: SpecVal::Dict(es),
                        used: 5 + used,
                    },
                    SpecEntriesStep::NeedMore => SpecStep::NeedMore,
                    SpecEntriesStep::Corrupt => SpecStep::Corrupt,
                }
            }
        } else if m >= 0xe0 {
            SpecStep::Record { v: SpecVal::Int(m - 0x100), used: 1 }
        } else {
            // 0xc1 and the raw binary, extension and 32-bit float markers.
            SpecStep::Corrupt
        }
    }
}

/// Reads `n` consecutive records from the front of `s`.
pub open spec fn decode_elems(s: Seq<u8>, n: nat) -> SpecElemsStep
    decreases s.len(), 1int, n,
{
    if n == 0 {
        SpecElemsStep::Done { vs: Seq::empty(), used: 0 }
    } else {
        match try_decode(s) {
            SpecStep::Record { v, used } => if 1 <= used <= s.len() {
                match decode_elems(s.skip(used), (n - 1) as nat) {
                    SpecElemsStep::Done { vs, used: rest } => SpecElemsStep::Done {
                        vs: seq![v] + vs,
                        used: used + rest,
                    },
                    SpecElemsStep::NeedMore => SpecElemsStep::NeedMore,
                    SpecElemsStep::Corrupt => SpecElemsStep::Corrupt,
                }
            } else {
                // a complete record always fits its input; see lemma_step_used
                SpecElemsStep::Corrupt
            },
            SpecStep::NeedMore => SpecElemsStep::NeedMore,
            SpecStep::Corrupt => SpecElemsStep::Corrupt,
        }
    }
}

/// Reads `n` consecutive key/value pairs from the front of `s`; every key
/// must be a string.
pub open spec fn decode_entries(s: Seq<u8>, n: nat) -> SpecEntriesStep
    decreases s.len(), 1int, n,
{
    if n == 0 {
        SpecEntriesStep::Done { es: Seq::empty(), used: 0 }
    } else {
        match try_decode(s) {
            SpecStep::Record { v: kv, used: ku } => if 1 <= ku <= s.len() {
                match kv {
                    SpecVal::Str(key) => match try_decode(s.skip(ku)) {
                        SpecStep::Record { v, used: vu } => if 1 <= vu <= s.len() - ku {
                            match decode_entries(s.skip(ku + vu), (n - 1) as nat) {
                                SpecEntriesStep::Done { es, used: rest } => SpecEntriesStep::Done {
                                    es: seq![(key, v)] + es,
                                    used: ku + vu + rest,
                                },
                                SpecEntriesStep::NeedMore => SpecEntriesStep::NeedMore,
                                SpecEntriesStep::Corrupt => SpecEntriesStep::Corrupt,
                            }
                        } else {
                            SpecEntriesStep::Corrupt
                        },
                        SpecStep::NeedMore => SpecEntriesStep::NeedMore,
                        SpecStep::Corrupt => SpecEntriesStep::Corrupt,
                    },
                    _ => SpecEntriesStep::Corrupt,
                }
            } else {
                SpecEntriesStep::Corrupt
            },
            SpecStep::NeedMore => SpecEntriesStep::NeedMore,
            SpecStep::Corrupt => SpecEntriesStep::Corrupt,
        }
    }
}

/// A complete record occupies at least its marker byte and at most the
/// bytes it was read from.
pub proof fn lemma_step_used(s: Seq<u8>)
    ensures
        try_decode(s) matches SpecStep::Record { used, .. } ==> 1 <= used <= s.len(),
    decreases s.len(), 0int, 0int,
{
    if s.len() > 0 {
        let m = s[0] as int;
        if 0x80 <= m <= 0x8f {
            lemma_entries_used(s.skip(1), (m - 0x80) as nat);
        } else if 0x90 <= m <= 0x9f {
            lemma_elems_used(s.skip(1), (m - 0x90) as nat);
        } else if m == 0xdc && s.len() >= 3 {
            lemma_elems_used(s.skip(3), be_val(s.subrange(1, 3)) as nat);
        } else if m == 0xdd && s.len() >= 5 {
            lemma_elems_used(s.skip(5), be_val(s.subrange(1, 5)) as nat);
        } else if m == 0xde && s.len() >= 3 {
            lemma_entries_used(s.skip(3), be_val(s.subrange(1, 3)) as nat);
        } else if m == 0xdf && s.len() >= 5 {
            lemma_entries_used(s.skip(5), be_val(s.subrange(1, 5)) as nat);
        } else if m == 0xda && s.len() >= 3 {
            lemma_be_val_bound(s.subrange(1, 3));
        } else if m == 0xdb && s.len() >= 5 {
            lemma_be_val_bound(s.subrange(1, 5));
        }
    }
}

/// `n` complete records occupy at most the bytes they were read from.
pub proof fn lemma_elems_used(s: Seq<u8>, n: nat)
    ensures
        decode_elems(s, n) matches SpecElemsStep::Done { used, .. } ==> 0 <= used <= s.len(),
    decreases s.len(), 1int, n,
{
    if n > 0 {
        lemma_step_used(s);
        match try_decode(s) {
            SpecStep::Record { v, used } => {
                if 1 <= used <= s.len() {
                    lemma_elems_used(s.skip(used), (n - 1) as nat);
                }
            },
            _ => {},
        }
    }
}

/// `n` complete key/value pairs occupy at most the bytes they were read
/// from.
pub proof fn lemma_entries_used(s: Seq<u8>, n: nat)
    ensures
        decode_entries(s, n) matches SpecEntriesStep::Done { used, .. } ==> 0 <= used
            <= s.len(),
    decreases s.len(), 1int, n,
{
    if n > 0 {
        lemma_step_used(s);
        match try_decode(s) {
            SpecStep::Record { v: kv, used: ku } => {
                if 1 <= ku <= s.len() {
                    lemma_step_used(s.skip(ku));
                    match try_decode(s.skip(ku)) {
                        SpecStep::Record { v, used: vu } => {
                            if 1 <= vu <= s.len() - ku {
                                lemma_entries_used(s.skip(ku + vu), (n - 1) as nat);
                            }
                        },
                        _ => {},
                    }
                }
            },
            _ => {},
        }
    }
}

/// Once a record parses completely, or is found corrupt, appending more
/// bytes does not change the outcome; only `NeedMore` can be revised.
#[verifier::rlimit(100)]
#[verifier::spinoff_prover]
pub proof fn lemma_step_stable(s: Seq<u8>, t: Seq<u8>)
    ensures
        !(try_decode(s) is NeedMore) ==> try_decode(s + t) == try_decode(s),
    decreases s.len(), 0int, 0int,
{
    if !(try_decode(s) is NeedMore) {
        let u = s + t;
        let m = s[0] as int;
        assert(u[0] == s[0]);
        if m <= 0x7f {
        } else if m <= 0x8f {
            assert(u.skip(1) =~= s.skip(1) + t);
            lemma_entries_stable(s.skip(1), t, (m - 0x80) as nat);
        } else if m <= 0x9f {
            assert(u.skip(1) =~= s.skip(1) + t);
            lemma_elems_stable(s.skip(1), t, (m - 0x90) as nat);
        } else if m <= 0xbf {
            let len = m - 0xa0;
            if s.len() >= 1 + len {
                assert(u.subrange(1, 1 + len) =~= s.subrange(1, 1 + len));
            }
        } else if m == 0xcb || m == 0xcf || m == 0xd3 {
            if s.len() >= 9 {
                assert(u.subrange(1, 9) =~= s.subrange(1, 9));
            }
        } else if m == 0xcd || m == 0xd1 {
            if s.len() >= 3 {
                assert(u.subrange(1, 3) =~= s.subrange(1, 3));
            }
        } else if m == 0xce || m == 0xd2 {
            if s.len() >= 5 {
                assert(u.subrange(1, 5) =~= s.subrange(1, 5));
            }
        } else if m == 0xcc || m == 0xd0 {
            if s.len() >= 2 {
                assert(u[1] == s[1]);
            }
        } else if m == 0xd9 {
            if s.len() >= 2 {
                assert(u[1] == s[1]);
                let len = s[1] as int;
                if s.len() >= 2 + len {
                    assert(u.subrange(2, 2 + len) =~= s.subrange(2, 2 + len));
                }
            }
        } else if m == 0xda {
            if s.len() >= 3 {
                assert(u.subrange(1, 3) =~= s.subrange(1, 3));
                let len = be_val(s.subrange(1, 3));
                lemma_be_val_bound(s.subrange(1, 3));
                if s.len() >= 3 + len {
                    assert(u.subrange(3, 3 + len) =~= s.subrange(3, 3 + len));
                }
            }
        } else if m == 0xdb {
            if s.len() >= 5 {
                assert(u.subrange(1, 5) =~= s.subrange(1, 5));
                let len = be_val(s.subrange(1, 5));
                lemma_be_val_bound(s.subrange(1, 5));
                if s.len() >= 5 + len {
                    assert(u.subrange(5, 5 + len) =~= s.subrange(5, 5 + len));
                }
            }
        } else if m == 0xdc {
            if s.len() >= 3 {
                assert(u.subrange(1, 3) =~= s.subrange(1, 3));
                assert(u.skip(3) =~= s.skip(3) + t);
                lemma_elems_stable(s.skip(3), t, be_val(s.subrange(1, 3)) as nat);
            }
        } else if m == 0xdd {
            if s.len() >= 5 {
                assert(u.subrange(1, 5) =~= s.subrange(1, 5));
                assert(u.skip(5) =~= s.skip(5) + t);
                lemma_elems_stable(s.skip(5), t, be_val(s.subrange(1, 5)) as nat);
            }
        } else if m == 0xde {
            if s.len() >= 3 {
                assert(u.subrange(1, 3) =~= s.subrange(1, 3));
                assert(u.skip(3) =~= s.skip(3) + t);
                lemma_entries_stable(s.skip(3), t, be_val(s.subrange(1, 3)) as nat);
            }
        } else if m == 0xdf {
            if s.len() >= 5 {
                assert(u.subrange(1, 5) =~= s.subrange(1, 5));
                assert(u.skip(5) =~= s.skip(5) + t);
                lemma_entries_stable(s.skip(5), t, be_val(s.subrange(1, 5)) as nat);
            }
        }
    }
}

/// Stability of a run of `n` records under appended bytes.
#[verifier::rlimit(100)]
#[verifier::spinoff_prover]
pub proof fn lemma_elems_stable(s: Seq<u8>, t: Seq<u8>, n: nat)
    ensures
        !(decode_elems(s, n) is NeedMore) ==> decode_elems(s + t, n) == decode_elems(s, n),
    decreases s.len(), 1int, n,
{
    if n > 0 && !(decode_elems(s, n) is NeedMore) {
        lemma_step_stable(s, t);
        lemma_step_used(s);
        match try_decode(s) {
            SpecStep::Record { v, used } => {
                assert((s + t).skip(used) =~= s.skip(used) + t);
                lemma_elems_stable(s.skip(used), t, (n - 1) as nat);
            },
            _ => {},
        }
    }
}

/// Stability of a run of `n` key/value pairs under appended bytes.
#[verifier::rlimit(100)]
#[verifier::spinoff_prover]
pub proof fn lemma_entries_stable(s: Seq<u8>, t: Seq<u8>, n: nat)
    ensures
        !(decode_entries(s, n) is NeedMore) ==> decode_entries(s + t, n)
            == decode_entries(s, n),
    decreases s.len(), 1int, n,
{
    if n > 0 && !(decode_entries(s, n) is NeedMore) {
        lemma_step_stable(s, t);
        lemma_step_used(s);
        match try_decode(s) {
            SpecStep::Record { v: kv, used: ku } => {
                assert((s + t).skip(ku) =~= s.skip(ku) + t);
                lemma_step_stable(s.skip(ku), t);
                lemma_step_used(s.skip(ku));
                match try_decode(s.skip(ku)) {
                    SpecStep::Record { v, used: vu } => {
                        if 1 <= vu <= s.len() - ku {
                            assert((s + t).skip(ku + vu) =~= s.skip(ku + vu) + t);
                            assert(s.skip(ku).skip(vu) =~= s.skip(ku + vu));
                            lemma_entries_stable(s.skip(ku + vu), t, (n - 1) as nat);
                        }
                    },
                    _ => {},
                }
            },
            _ => {},
        }
    }
}

} // verus!
