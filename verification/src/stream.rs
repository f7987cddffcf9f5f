//! The stream decoder: a reader's private cursor state. Bytes pulled from
//! the growing log are fed into a buffer; [`StreamDecoder::drain`] then
//! decodes as many complete records as the buffer allows, skipping one
//! byte at a time past corruption, and evicts every consumed byte so the
//! buffer holds exactly the undecoded tail.

use vstd::prelude::*;
use vstd::seq_lib::lemma_concat_associative;

use crate::codec::SpecStep;
use crate::codec::encoding;
use crate::codec::lemma_step_stable;
use crate::codec::lemma_step_used;
use crate::codec::try_decode;
use crate::roundtrip::lemma_decode_encoding;
use crate::value::encodable;
use crate::decode::DecodeStep;
use crate::decode::copy_range;
use crate::decode::decode_record;
use crate::value::SpecVal;
use crate::value::StructuredValue;
use crate::value::lemma_view_of_elems;
use crate::value::view_of;
use crate::value::view_of_elems;

verus! {

/// What one pass over a buffer yields: the decoded values in order, the
/// absolute offsets of the bytes discarded during resynchronization, and
/// how many buffer bytes were consumed in all.
pub struct DrainSpec {
    pub vals: Seq<SpecVal>,
    pub skips: Seq<int>,
    pub used: int,
}

/// One pass of the drain loop over the bytes `s`, whose first byte sits at
/// absolute log offset `base`: decode a record and continue past it, or
/// discard one byte at corruption and continue, or stop when the bytes end
/// before a record does.
pub open spec fn spec_drain(s: Seq<u8>, base: int) -> DrainSpec
    decreases s.len(),
{
    match try_decode(s) {
        SpecStep::Record { v, used } => if 1 <= used <= s.len() {
            let rest = spec_drain(s.skip(used), base + used);
            DrainSpec {
                vals: seq![v] + rest.vals,
                skips: rest.skips,
                used: used + rest.used,
            }
        } else {
            // a complete record always fits its input; see lemma_step_used
            DrainSpec { vals: Seq::empty(), skips: Seq::empty(), used: 0 }
        },
        SpecStep::NeedMore => DrainSpec { vals: Seq::empty(), skips: Seq::empty(), used: 0 },
        SpecStep::Corrupt => {
            let rest = spec_drain(s.skip(1), base + 1);
            DrainSpec {
                vals: rest.vals,
                skips: seq![base] + rest.skips,
                used: 1 + rest.used,
            }
        },
    }
}

/// The offsets a vector of counters stands for.
pub open spec fn as_offsets(s: Seq<u64>) -> Seq<int>
    decreases s.len(),
{
    if s.len() == 0 {
        Seq::empty()
    } else {
        as_offsets(s.drop_last()).push(s.last() as int)
    }
}

/// How the offsets line up with the counters.
pub proof fn lemma_as_offsets(s: Seq<u64>)
    ensures
        as_offsets(s).len() == s.len(),
        forall|i: int| 0 <= i < s.len() ==> as_offsets(s)[i] == #[trigger] s[i] as int,
    decreases s.len(),
{
    if s.len() > 0 {
        lemma_as_offsets(s.drop_last());
        assert forall|i: int| 0 <= i < s.len() implies as_offsets(s)[i]
            == #[trigger] s[i] as int by {
            if i < s.len() - 1 {
                assert(s.drop_last()[i] == s[i]);
                assert(as_offsets(s)[i] == as_offsets(s.drop_last())[i]);
            }
        }
    }
}

/// A drain pass consumes between none and all of its bytes.
pub proof fn lemma_drain_used(s: Seq<u8>, base: int)
    ensures
        0 <= spec_drain(s, base).used <= s.len(),
    decreases s.len(),
{
    lemma_step_used(s);
    match try_decode(s) {
        SpecStep::Record { v, used } => {
            lemma_drain_used(s.skip(used), base + used);
        },
        SpecStep::NeedMore => {},
        SpecStep::Corrupt => {
            lemma_drain_used(s.skip(1), base + 1);
        },
    }
}

/// Chunking independence: feeding `s` and draining, then feeding `t` and
/// draining the leftover together with it, emits the same values and
/// consumes the same bytes in all as draining `s + t` in one pass. By
/// induction over the chunks, any chunking of the log's bytes across
/// refills yields the same output sequence.
#[verifier::rlimit(100)]
#[verifier::spinoff_prover]
pub proof fn lemma_drain_chunked(s: Seq<u8>, t: Seq<u8>, base: int)
    ensures
        ({
            let first = spec_drain(s, base);
            let second = spec_drain(s.skip(first.used) + t, base + first.used);
            let whole = spec_drain(s + t, base);
            whole.vals == first.vals + second.vals
                && whole.used == first.used + second.used
        }),
    decreases s.len(),
{
    let first = spec_drain(s, base);
    let second = spec_drain(s.skip(first.used) + t, base + first.used);
    let whole = spec_drain(s + t, base);
    lemma_step_used(s);
    lemma_step_stable(s, t);
    match try_decode(s) {
        SpecStep::Record { v, used } => {
            assert((s + t).skip(used) =~= s.skip(used) + t);
            lemma_drain_used(s.skip(used), base + used);
            let sub_first = spec_drain(s.skip(used), base + used);
            assert(s.skip(used).skip(sub_first.used) =~= s.skip(used + sub_first.used));
            lemma_drain_chunked(s.skip(used), t, base + used);
            lemma_concat_associative(seq![v], sub_first.vals, second.vals);
            assert(whole.vals == first.vals + second.vals);
        },
        SpecStep::NeedMore => {
            assert(s.skip(0) =~= s);
            assert(first.vals + second.vals =~= second.vals);
        },
        SpecStep::Corrupt => {
            assert((s + t).skip(1) =~= s.skip(1) + t);
            lemma_drain_used(s.skip(1), base + 1);
            let sub_first = spec_drain(s.skip(1), base + 1);
            assert(s.skip(1).skip(sub_first.used) =~= s.skip(1 + sub_first.used));
            lemma_drain_chunked(s.skip(1), t, base + 1);
            assert(whole.vals == first.vals + second.vals);
        },
    }
}

/// The diagnostics side of chunking independence: draining in two passes
/// reports the same corruption offsets as draining at once.
#[verifier::rlimit(100)]
#[verifier::spinoff_prover]
pub proof fn lemma_drain_chunked_skips(s: Seq<u8>, t: Seq<u8>, base: int)
    ensures
        ({
            let first = spec_drain(s, base);
            let second = spec_drain(s.skip(first.used) + t, base + first.used);
            spec_drain(s + t, base).skips == first.skips + second.skips
        }),
    decreases s.len(),
{
    let first = spec_drain(s, base);
    let second = spec_drain(s.skip(first.used) + t, base + first.used);
    let whole = spec_drain(s + t, base);
    lemma_step_used(s);
    lemma_step_stable(s, t);
    match try_decode(s) {
        SpecStep::Record { v, used } => {
            assert((s + t).skip(used) =~= s.skip(used) + t);
            lemma_drain_used(s.skip(used), base + used);
            let sub_first = spec_drain(s.skip(used), base + used);
            assert(s.skip(used).skip(sub_first.used) =~= s.skip(used + sub_first.used));
            lemma_drain_chunked_skips(s.skip(used), t, base + used);
        },
        SpecStep::NeedMore => {
            assert(s.skip(0) =~= s);
            assert(first.skips + second.skips =~= second.skips);
        },
        SpecStep::Corrupt => {
            assert((s + t).skip(1) =~= s.skip(1) + t);
            lemma_drain_used(s.skip(1), base + 1);
            let sub_first = spec_drain(s.skip(1), base + 1);
            assert(s.skip(1).skip(sub_first.used) =~= s.skip(1 + sub_first.used));
            lemma_drain_chunked_skips(s.skip(1), t, base + 1);
            lemma_concat_associative(seq![base], sub_first.skips, second.skips);
            assert(whole.skips == first.skips + second.skips);
        },
    }
}

/// Skipping past garbage: when every byte position inside `g` fails to
/// begin a record (given what follows), the drain discards `g` one byte at
/// a time, reporting each offset, and then decodes the record behind it
/// intact. The one-byte skip is best-effort: garbage whose bytes can begin
/// a record is not covered and may consume part of what follows.
pub proof fn lemma_skip_garbage(g: Seq<u8>, v2: SpecVal, base: int)
    requires
        encodable(v2),
        forall|i: int| 0 <= i < g.len()
            ==> #[trigger] try_decode((g + encoding(v2)).skip(i)) is Corrupt,
    ensures
        spec_drain(g + encoding(v2), base).vals == seq![v2],
        spec_drain(g + encoding(v2), base).skips.len() == g.len(),
        forall|i: int| 0 <= i < g.len()
            ==> #[trigger] spec_drain(g + encoding(v2), base).skips[i] == base + i,
        spec_drain(g + encoding(v2), base).used == g.len() + encoding(v2).len() as int,
    decreases g.len(),
{
    let e2 = encoding(v2);
    if g.len() == 0 {
        reveal_with_fuel(spec_drain, 3);
        assert(g + e2 =~= e2);
        lemma_decode_encoding(v2, Seq::empty());
        assert(e2 + Seq::empty() =~= e2);
        lemma_step_used(e2);
        assert(e2.skip(e2.len() as int) =~= Seq::<u8>::empty());
        assert(seq![v2] + Seq::<SpecVal>::empty() =~= seq![v2]);
    } else {
        assert((g + e2).skip(0) =~= g + e2);
        assert(try_decode(g + e2) is Corrupt);
        assert((g + e2).skip(1) =~= g.skip(1) + e2);
        assert forall|i: int| 0 <= i < g.skip(1).len()
            implies #[trigger] try_decode((g.skip(1) + e2).skip(i)) is Corrupt by {
            assert((g.skip(1) + e2).skip(i) =~= (g + e2).skip(i + 1));
        }
        lemma_skip_garbage(g.skip(1), v2, base + 1);
        let rest = spec_drain(g.skip(1) + e2, base + 1);
        assert(Seq::<SpecVal>::empty() + rest.vals =~= rest.vals);
        assert forall|i: int| 0 <= i < g.len()
            implies #[trigger] spec_drain(g + e2, base).skips[i] == base + i by {
            if i > 0 {
                assert(spec_drain(g + e2, base).skips[i] == rest.skips[i - 1]);
            }
        }
    }
}

/// Corruption resynchronization: a log holding a valid record, then
/// garbage none of whose positions can begin a record, then another valid
/// record drains to exactly the two records, with one diagnostic per
/// garbage byte, at the garbage bytes' offsets.
pub proof fn lemma_resync(v1: SpecVal, g: Seq<u8>, v2: SpecVal, base: int)
    requires
        encodable(v1),
        encodable(v2),
        forall|i: int| 0 <= i < g.len()
            ==> #[trigger] try_decode((g + encoding(v2)).skip(i)) is Corrupt,
    ensures
        spec_drain(encoding(v1) + g + encoding(v2), base).vals == seq![v1, v2],
        spec_drain(encoding(v1) + g + encoding(v2), base).skips.len() == g.len(),
        forall|i: int| 0 <= i < g.len()
            ==> #[trigger] spec_drain(encoding(v1) + g + encoding(v2), base).skips[i]
                == base + encoding(v1).len() + i,
        spec_drain(encoding(v1) + g + encoding(v2), base).used
            == encoding(v1).len() + g.len() + encoding(v2).len() as int,
{
    let e1 = encoding(v1);
    let e2 = encoding(v2);
    let s = e1 + g + e2;
    assert(s =~= e1 + (g + e2));
    lemma_decode_encoding(v1, g + e2);
    lemma_step_used(s);
    assert(s.skip(e1.len() as int) =~= g + e2);
    lemma_skip_garbage(g, v2, base + e1.len());
    assert(seq![v1] + seq![v2] =~= seq![v1, v2]);
}

/// A reader's cursor: the bytes read from the log but not yet decoded,
/// and the absolute log offset of the first of them.
pub struct StreamDecoder {
    buf: Vec<u8>,
    base: u64,
}

impl StreamDecoder {
    /// The undecoded bytes currently held.
    pub closed spec fn buffered(self) -> Seq<u8> {
        self.buf@
    }

    /// The absolute log offset of the first buffered byte.
    pub closed spec fn base_offset(self) -> int {
        self.base as int
    }

    /// The cursor can still count bytes without overflowing.
    pub closed spec fn wf(self) -> bool {
        self.base + self.buf@.len() <= u64::MAX
    }

    /// A fresh cursor at absolute offset `start` with nothing buffered.
    pub fn new(start: u64) -> (d: StreamDecoder)
        ensures
            d.wf(),
            d.buffered() == Seq::<u8>::empty(),
            d.base_offset() == start as int,
    {
        let d = StreamDecoder { buf: Vec::new(), base: start };
        proof {
            assert(d.buffered() =~= Seq::<u8>::empty());
        }
        d
    }

    /// How many bytes are buffered and not yet decoded.
    pub fn buffered_len(&self) -> (n: usize)
        ensures
            n == self.buffered().len(),
    {
        self.buf.len()
    }

    /// The absolute log offset up to which the log has been consumed or
    /// buffered; the next pull from the log starts here.
    pub fn read_offset(&self) -> (n: u64)
        requires
            self.wf(),
        ensures
            n as int == self.base_offset() + self.buffered().len(),
    {
        self.base + self.buf.len() as u64
    }

    /// Appends newly pulled log bytes to the buffer. Reading zero bytes is
    /// not an error; the writer simply has not produced new data yet.
    pub fn feed(&mut self, chunk: &Vec<u8>)
        requires
            old(self).wf(),
            old(self).base_offset() + old(self).buffered().len() + chunk@.len() <= u64::MAX,
        ensures
            final(self).wf(),
            final(self).buffered() == old(self).buffered() + chunk@,
            final(self).base_offset() == old(self).base_offset(),
    {
        let mut i: usize = 0;
        let ghost orig = self.buf@;
        while i < chunk.len()
            invariant
                i <= chunk@.len(),
                self.buf@ == orig + chunk@.subrange(0, i as int),
                self.base == old(self).base,
            decreases chunk@.len() - i,
        {
            self.buf.push(chunk[i]);
            proof {
                assert(self.buf@ =~= orig + chunk@.subrange(0, i + 1));
            }
            i = i + 1;
        }
        proof {
            assert(self.buf@ =~= orig + chunk@);
        }
    }

    /// Decodes every complete record available, in order. Returns the
    /// decoded values and the absolute offsets of the bytes discarded as
    /// corrupt. Afterwards the buffer holds exactly the undecoded trailing
    /// bytes — the bytes on which decoding stopped for want of input —
    /// however many bytes were ever processed before.
    #[verifier::rlimit(100)]
    pub fn drain(&mut self) -> (out: (Vec<StructuredValue>, Vec<u64>))
        requires
            old(self).wf(),
        ensures
            final(self).wf(),
            view_of_elems(out.0@) == spec_drain(old(self).buffered(), old(self).base_offset()).vals,
            as_offsets(out.1@) == spec_drain(old(self).buffered(), old(self).base_offset()).skips,
            final(self).buffered() == old(self).buffered().skip(
                spec_drain(old(self).buffered(), old(self).base_offset()).used,
            ),
            final(self).base_offset() == old(self).base_offset()
                + spec_drain(old(self).buffered(), old(self).base_offset()).used,
            try_decode(final(self).buffered()) is NeedMore,
    {
        let ghost s = self.buf@;
        let ghost base0 = self.base as int;
        let ghost whole = spec_drain(s, base0);
        let total = self.buf.len();
        let mut pos: usize = 0;
        let mut vals: Vec<StructuredValue> = Vec::new();
        let mut skips: Vec<u64> = Vec::new();
        proof {
            assert(s.skip(0) =~= s);
            assert(view_of_elems(vals@) =~= Seq::<SpecVal>::empty());
            assert(as_offsets(skips@) =~= Seq::<int>::empty());
        }
        loop
            invariant_except_break
                pos <= total,
                total == self.buf@.len(),
                self.buf@ == s,
                self.base == old(self).base,
                self.base + total <= u64::MAX,
                base0 == old(self).base as int,
                whole == spec_drain(s, base0),
                whole.vals =~= view_of_elems(vals@)
                    + spec_drain(s.skip(pos as int), base0 + pos).vals,
                whole.skips =~= as_offsets(skips@)
                    + spec_drain(s.skip(pos as int), base0 + pos).skips,
                whole.used == pos + spec_drain(s.skip(pos as int), base0 + pos).used,
            ensures
                pos <= total,
                self.buf@ == s,
                self.base == old(self).base,
                self.base + total <= u64::MAX,
                base0 == old(self).base as int,
                try_decode(s.skip(pos as int)) is NeedMore,
                whole.vals =~= view_of_elems(vals@)
                    + spec_drain(s.skip(pos as int), base0 + pos).vals,
                whole.skips =~= as_offsets(skips@)
                    + spec_drain(s.skip(pos as int), base0 + pos).skips,
                whole.used == pos + spec_drain(s.skip(pos as int), base0 + pos).used,
            decreases total - pos,
        {
            let step = decode_record(&self.buf, pos);
            let ghost tail = s.skip(pos as int);
            match step {
                DecodeStep::Complete { value, used } => {
                    proof {
                        lemma_step_used(tail);
                        assert(1 <= used as int <= tail.len());
                        assert(tail.skip(used as int) =~= s.skip(pos + used as int));
                        let ghost prev = vals@;
                        lemma_view_of_elems(prev.push(value));
                        lemma_view_of_elems(prev);
                        assert forall|j: int| 0 <= j < prev.push(value).len()
                            implies view_of_elems(prev.push(value))[j]
                                == (view_of_elems(prev) + seq![view_of(value)])[j] by {
                            assert(view_of_elems(prev.push(value))[j]
                                == view_of(prev.push(value)[j]));
                            if j < prev.len() {
                                assert(prev.push(value)[j] == prev[j]);
                            } else {
                                assert(prev.push(value)[j] == value);
                            }
                        }
                        assert(view_of_elems(prev.push(value))
                            =~= view_of_elems(prev) + seq![view_of(value)]);
                    }
                    vals.push(value);
                    pos = pos + used;
                    proof {
                        assert(whole.vals =~= view_of_elems(vals@)
                            + spec_drain(s.skip(pos as int), base0 + pos).vals);
                    }
                },
                DecodeStep::NeedMore => {
                    break;
                },
                DecodeStep::Corrupt => {
                    proof {
                        assert(tail.skip(1) =~= s.skip(pos + 1));
                    }
                    proof {
                        assert(tail.len() > 0);
                    }
                    let ghost prev_skips = skips@;
                    skips.push(self.base + pos as u64);
                    pos = pos + 1;
                    proof {
                        assert(skips@ =~= prev_skips.push(((old(self).base + pos - 1) as u64)));
                        assert(0 <= old(self).base + pos - 1 <= u64::MAX);
                        assert(spec_drain(s.skip(pos - 1), base0 + pos - 1).skips
                            =~= seq![base0 + pos - 1]
                            + spec_drain(s.skip(pos as int), base0 + pos).skips);
                        assert(skips@.drop_last() =~= prev_skips);
                        assert(skips@.len() == prev_skips.len() + 1);
                        assert(skips@.last() == ((old(self).base + pos - 1) as u64));
                        assert(as_offsets(skips@)
                            == as_offsets(skips@.drop_last()).push(skips@.last() as int));
                        assert(as_offsets(skips@)
                            =~= as_offsets(prev_skips).push(base0 + pos - 1));
                        assert(whole.skips =~= as_offsets(skips@)
                            + spec_drain(s.skip(pos as int), base0 + pos).skips);
                    }
                },
            }
        }
        let tail_vec = copy_range(&self.buf, pos, total - pos);
        proof {
            assert(tail_vec@ =~= s.skip(pos as int));
            assert(spec_drain(s.skip(pos as int), base0 + pos).used == 0);
            assert(whole.vals =~= view_of_elems(vals@));
            assert(whole.skips =~= as_offsets(skips@));
        }
        self.buf = tail_vec;
        self.base = self.base + pos as u64;
        (vals, skips)
    }
}

} // verus!
