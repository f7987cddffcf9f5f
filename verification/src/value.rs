//! The structured payload value: a recursively defined tree of null,
//! booleans, integers, 64-bit float bit patterns, byte strings, arrays and
//! string-keyed maps. The framing and record layers treat it as opaque;
//! the record codec walks it.
//!
//! Floats are carried as their raw IEEE 754 bit pattern so that the codec
//! never performs floating-point arithmetic; callers convert at the edge.

use vstd::prelude::*;

verus! {

/// A structured value as held and produced by the library.
///
/// Non-negative integers use `Uint`; `Sint` is for negative integers only
/// (the encoder writes non-negative `Sint` in the unsigned wire forms).
/// Both project to `SpecVal::Int` in
/// specifications, so a decoded integer compares equal to the appended one
/// no matter which executable variant carries it.
#[derive(Debug, PartialEq, Eq)]
pub enum StructuredValue {
    Null,
    Bool(bool),
    Uint(u64),
    Sint(i64),
    /// IEEE 754 bit pattern of a 64-bit float.
    Float(u64),
    /// UTF-8 bytes of a string.
    Str(Vec<u8>),
    Arr(Vec<StructuredValue>),
    /// Ordered key/value pairs; keys are UTF-8 bytes.
    Dict(Vec<(Vec<u8>, StructuredValue)>),
}

/// The mathematical model of a structured value.
pub enum SpecVal {
    Null,
    Bool(bool),
    Int(int),
    Float(u64),
    Str(Seq<u8>),
    Arr(Seq<SpecVal>),
    Dict(Seq<(Seq<u8>, SpecVal)>),
}

/// The model of an executable structured value.
pub open spec fn view_of(v: StructuredValue) -> SpecVal
    decreases v,
    via view_of_decreases
{
    match v {
        StructuredValue::Null => SpecVal::Null,
        StructuredValue::Bool(b) => SpecVal::Bool(b),
        StructuredValue::Uint(n) => SpecVal::Int(n as int),
        StructuredValue::Sint(n) => SpecVal::Int(n as int),
        StructuredValue::Float(bits) => SpecVal::Float(bits),
        StructuredValue::Str(s) => SpecVal::Str(s@),
        StructuredValue::Arr(elems) => SpecVal::Arr(view_of_elems(elems@)),
        StructuredValue::Dict(entries) => SpecVal::Dict(view_of_entries(entries@)),
    }
}

/// Element-wise model of an array's contents.
pub open spec fn view_of_elems(s: Seq<StructuredValue>) -> Seq<SpecVal>
    decreases s,
{
    if s.len() == 0 {
        Seq::empty()
    } else {
        seq![view_of(s[0])] + view_of_elems(s.drop_first())
    }
}

/// Entry-wise model of a map's contents.
pub open spec fn view_of_entries(s: Seq<(Vec<u8>, StructuredValue)>) -> Seq<(Seq<u8>, SpecVal)>
    decreases s,
    via view_of_entries_decreases
{
    if s.len() == 0 {
        Seq::empty()
    } else {
        seq![(s[0].0@, view_of(s[0].1))] + view_of_entries(s.drop_first())
    }
}

#[via_fn]
proof fn view_of_decreases(v: StructuredValue) {
    match v {
        StructuredValue::Arr(elems) => {
            assert(decreases_to!(v => elems));
        },
        StructuredValue::Dict(entries) => {
            assert(decreases_to!(v => entries));
        },
        _ => {},
    }
}

#[via_fn]
proof fn view_of_entries_decreases(s: Seq<(Vec<u8>, StructuredValue)>) {
    if s.len() > 0 {
        assert(decreases_to!(s => s[0]));
        assert(decreases_to!(s[0] => s[0].1));
    }
}

/// How the model of a sequence of values lines up with the values.
pub proof fn lemma_view_of_elems(s: Seq<StructuredValue>)
    ensures
        view_of_elems(s).len() == s.len(),
        forall|i: int| 0 <= i < s.len() ==> view_of_elems(s)[i] == view_of(#[trigger] s[i]),
    decreases s.len(),
{
    if s.len() > 0 {
        lemma_view_of_elems(s.drop_first());
        assert forall|i: int| 0 <= i < s.len() implies view_of_elems(s)[i]
            == view_of(#[trigger] s[i]) by {
            if i > 0 {
                assert(s.drop_first()[i - 1] == s[i]);
                assert(view_of_elems(s)[i] == view_of_elems(s.drop_first())[i - 1]);
            }
        }
    }
}

/// How the model of a sequence of entries lines up with the entries.
pub proof fn lemma_view_of_entries(s: Seq<(Vec<u8>, StructuredValue)>)
    ensures
        view_of_entries(s).len() == s.len(),
        forall|i: int| 0 <= i < s.len() ==> view_of_entries(s)[i]
            == ((#[trigger] s[i]).0@, view_of(s[i].1)),
    decreases s.len(),
{
    if s.len() > 0 {
        lemma_view_of_entries(s.drop_first());
        assert forall|i: int| 0 <= i < s.len() implies view_of_entries(s)[i]
            == ((#[trigger] s[i]).0@, view_of(s[i].1)) by {
            if i > 0 {
                assert(s.drop_first()[i - 1] == s[i]);
                assert(view_of_entries(s)[i] == view_of_entries(s.drop_first())[i - 1]);
            }
        }
    }
}

impl View for StructuredValue {
    type V = SpecVal;

    open spec fn view(&self) -> SpecVal {
        view_of(*self)
    }
}

/// Whether a value can be written as a record: every integer fits the wire
/// widths, every string, array and map is short enough for its length field.
pub open spec fn encodable(v: SpecVal) -> bool
    decreases v,
{
    match v {
        SpecVal::Null => true,
        SpecVal::Bool(_) => true,
        SpecVal::Int(i) => -0x8000_0000_0000_0000 <= i <= 0xffff_ffff_ffff_ffff,
        SpecVal::Float(_) => true,
        SpecVal::Str(s) => s.len() <= 0xffff_ffff,
        SpecVal::Arr(elems) => elems.len() <= 0xffff_ffff && (forall|i: int|
            0 <= i < elems.len() ==> encodable(#[trigger] elems[i])),
        SpecVal::Dict(entries) => entries.len() <= 0xffff_ffff && (forall|i: int|
            0 <= i < entries.len() ==> (#[trigger] entries[i]).0.len() <= 0xffff_ffff
                && encodable(entries[i].1)),
    }
}

} // verus!
