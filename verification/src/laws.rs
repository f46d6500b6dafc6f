//! The laws the codec keeps, stated over the same models its contracts
//! use and proved once for every input.

use vstd::prelude::*;
use crate::codec::{encode_spec, to3_spec, RespFrameV};
use crate::decode::{
    lemma_parse2_bounds, lemma_parse2_mono, lemma_rt2, lemma_rt3, parse2, parse3,
};
use crate::encode::{enc2, enc3, wf3s, wire_header, LEN_CAP, M_ARRAY};
use crate::error::RedisError;
use crate::frame::{Frame2V, Frame3V, RespVersion, upgrade2};
use crate::stats::{lemma_sum_concat, sum_of};
use crate::streaming::{dec3_step, pump, StreamKind, StreamV};

verus! {

/// Round trip: decoding what the encoder wrote under a version yields the
/// frame back — exactly under the newer generation, and up to the lossless
/// upgrade under the older one — and consumes exactly the written bytes.
pub proof fn lemma_round_trip(fv: RespFrameV, version: RespVersion)
    requires
        encode_spec(fv, version) is Ok,
    ensures
        ({
            let bytes = encode_spec(fv, version)->Ok_0;
            match version {
                RespVersion::Resp2 => parse2(bytes) matches Ok(Some((f2, k))) && upgrade2(f2)
                    == to3_spec(fv) && k == bytes.len(),
                RespVersion::Resp3 => parse3(bytes) == Ok::<
                    Option<(Frame3V, int)>,
                    RedisError,
                >(Some((to3_spec(fv), bytes.len() as int))),
            }
        }),
{
    match version {
        RespVersion::Resp2 => {
            match fv {
                RespFrameV::Resp2(f) => {
                    lemma_rt2(f, Seq::empty());
                    assert(enc2(f) + Seq::<u8>::empty() =~= enc2(f));
                },
                RespFrameV::Resp3(_) => {},
            }
        },
        RespVersion::Resp3 => {
            lemma_rt3(to3_spec(fv), Seq::empty());
            assert(enc3(to3_spec(fv)) + Seq::<u8>::empty() =~= enc3(to3_spec(fv)));
        },
    }
}

/// All frames standing complete at the front of a buffer, with the byte
/// count they occupy.
pub open spec fn drain2(b: Seq<u8>) -> (Seq<Frame2V>, int)
    decreases b.len(),
{
    match parse2(b) {
        Ok(Some((f, k))) => if 0 < k <= b.len() {
            let r = drain2(b.skip(k));
            (seq![f] + r.0, k + r.1)
        } else {
            (Seq::empty(), 0)
        },
        _ => (Seq::empty(), 0),
    }
}

pub proof fn lemma_drain2_bounds(b: Seq<u8>)
    ensures
        0 <= drain2(b).1 <= b.len(),
    decreases b.len(),
{
    match parse2(b) {
        Ok(Some((f, k))) => {
            if 0 < k <= b.len() {
                lemma_drain2_bounds(b.skip(k));
            }
        },
        _ => {},
    }
}

/// Draining a buffer, then draining its residue with more bytes appended,
/// produces the same frames as draining the whole.
pub proof fn lemma_drain2_compose(a: Seq<u8>, ext: Seq<u8>)
    ensures
        drain2(a + ext).0 == drain2(a).0 + drain2(a.skip(drain2(a).1) + ext).0,
    decreases a.len(),
{
    lemma_parse2_bounds(a);
    lemma_parse2_mono(a, ext);
    match parse2(a) {
        Ok(Some((f, k))) => {
            assert((a + ext).skip(k) =~= a.skip(k) + ext);
            lemma_drain2_bounds(a.skip(k));
            lemma_drain2_compose(a.skip(k), ext);
            let c2 = drain2(a.skip(k)).1;
            assert(a.skip(k).skip(c2) =~= a.skip(k + c2));
            assert(drain2(a + ext).0 =~= drain2(a).0 + drain2(a.skip(drain2(a).1) + ext).0);
        },
        _ => {
            assert(a.skip(0) =~= a);
            assert(drain2(a + ext).0 =~= drain2(a).0 + drain2(a.skip(drain2(a).1) + ext).0);
        },
    }
}

/// The bytes of a chunked delivery, in order.
pub open spec fn concat_chunks(cs: Seq<Seq<u8>>) -> Seq<u8>
    decreases cs.len(),
{
    if cs.len() == 0 {
        Seq::empty()
    } else {
        cs[0] + concat_chunks(cs.drop_first())
    }
}

/// The frames produced by appending one chunk at a time to the undecoded
/// residue and draining after each arrival.
pub open spec fn feed2(rem: Seq<u8>, cs: Seq<Seq<u8>>) -> Seq<Frame2V>
    decreases cs.len(),
{
    if cs.len() == 0 {
        drain2(rem).0
    } else {
        let nb = rem + cs[0];
        let d = drain2(nb);
        d.0 + feed2(nb.skip(d.1), cs.drop_first())
    }
}

pub proof fn lemma_feed2(rem: Seq<u8>, cs: Seq<Seq<u8>>)
    ensures
        feed2(rem, cs) == drain2(rem + concat_chunks(cs)).0,
    decreases cs.len(),
{
    if cs.len() == 0 {
        assert(rem + concat_chunks(cs) =~= rem);
    } else {
        let nb = rem + cs[0];
        let d = drain2(nb);
        lemma_drain2_bounds(nb);
        lemma_drain2_compose(nb, concat_chunks(cs.drop_first()));
        lemma_feed2(nb.skip(d.1), cs.drop_first());
        assert(rem + concat_chunks(cs) =~= nb + concat_chunks(cs.drop_first()));
    }
}

/// Fragmentation invariance: splitting a valid byte stream into arbitrary
/// chunks and feeding them one at a time yields the same frames, in the
/// same order, as feeding the whole stream at once.
pub proof fn lemma_fragmentation_invariance(cs: Seq<Seq<u8>>)
    ensures
        feed2(Seq::empty(), cs) == drain2(concat_chunks(cs)).0,
{
    lemma_feed2(Seq::empty(), cs);
    assert(Seq::<u8>::empty() + concat_chunks(cs) =~= concat_chunks(cs));
}

/// The reassembly state after a streaming-array header declaring
/// `elems.len()` elements has arrived and the first `j` elements have been
/// fed.
pub open spec fn array_stream_state(elems: Seq<Frame3V>, j: int) -> StreamV {
    StreamV {
        kind: StreamKind::Array,
        expected: Some(elems.len() as int),
        elems: elems.take(j),
        chunk: Seq::empty(),
        complete: false,
    }
}

/// Streaming reassembly, header step: an array header declaring `n`
/// elements, arriving alone, installs an in-flight array expecting `n` and
/// consumes exactly the header.
pub proof fn lemma_streaming_header(elems: Seq<Frame3V>)
    requires
        1 <= elems.len() <= LEN_CAP,
    ensures
        dec3_step(None, wire_header(M_ARRAY, elems.len())) == Ok::<
            (Option<StreamV>, int, Option<Frame3V>),
            RedisError,
        >((Some(array_stream_state(elems, 0)), wire_header(M_ARRAY, elems.len()).len() as int, None)),
{
    let n = elems.len();
    let b = wire_header(M_ARRAY, n);
    crate::decode::lemma_rt3_agg_header(M_ARRAY, n, Seq::empty(), Seq::empty());
    let i = crate::text::dec_u(n).len() as int;
    assert(b =~= wire_header(M_ARRAY, n) + Seq::<u8>::empty() + Seq::<u8>::empty());
    assert(b.skip(3 + i) =~= Seq::<u8>::empty());
    assert(b[1] == crate::text::dec_u(n)[0]);
    assert(crate::text::is_digit(b[1]));
    assert(elems.take(0) =~= Seq::<Frame3V>::empty());
}

/// Streaming reassembly, element step: with `j` of the declared elements
/// gathered, the encoding of the next element consumes exactly its bytes;
/// it completes the array — all elements in order, no state left in flight
/// — exactly when it is the last one.
pub proof fn lemma_streaming_element(elems: Seq<Frame3V>, j: int)
    requires
        wf3s(elems),
        1 <= elems.len() <= LEN_CAP,
        0 <= j < elems.len(),
    ensures
        dec3_step(Some(array_stream_state(elems, j)), enc3(elems[j])) == (
        if j + 1 == elems.len() {
            Ok::<(Option<StreamV>, int, Option<Frame3V>), RedisError>(
                (None, enc3(elems[j]).len() as int, Some(Frame3V::Array(elems))),
            )
        } else {
            Ok::<(Option<StreamV>, int, Option<Frame3V>), RedisError>(
                (Some(array_stream_state(elems, j + 1)), enc3(elems[j]).len() as int, None),
            )
        }),
{
    reveal_with_fuel(pump, 2);
    let st = array_stream_state(elems, j);
    let b = enc3(elems[j]);
    crate::encode::lemma_wf3s_index(elems, j);
    lemma_rt3(elems[j], Seq::empty());
    crate::decode::lemma_parse3_bounds(b);
    assert(b + Seq::<u8>::empty() =~= b);
    assert(st.elems.len() == j);
    let st2 = StreamV { elems: st.elems.push(elems[j]), ..st };
    assert(st2.elems =~= elems.take(j + 1));
    if j + 1 == elems.len() {
        assert(elems.take(j + 1) =~= elems);
    } else {
        assert(b.skip(b.len() as int) =~= Seq::<u8>::empty());
    }
}

/// Version isolation: newer-generation-only content — a map — cannot be
/// written under the older generation and fails rather than silently
/// degrading; and the same logical frame takes different wire bytes under
/// the two generations, shown on the null frame.
pub proof fn lemma_version_isolation(pairs: Seq<(Frame3V, Frame3V)>)
    ensures
        encode_spec(RespFrameV::Resp3(Frame3V::MapFrame(pairs)), RespVersion::Resp2) == Err::<
            Seq<u8>,
            RedisError,
        >(RedisError::Encode),
        encode_spec(RespFrameV::Resp2(Frame2V::Null), RespVersion::Resp2) matches Ok(b2)
            && encode_spec(RespFrameV::Resp2(Frame2V::Null), RespVersion::Resp3) matches Ok(b3)
            && b2 != b3,
{
    let b2 = enc2(Frame2V::Null);
    let b3 = enc3(Frame3V::Null);
    assert(b2[0] == 36);
    assert(b3[0] == 95);
}

/// Byte accounting: each decode call pushes the byte count it consumed
/// onto the statistic's history, so over any run of calls the history's
/// sum grows by exactly the total number of consumed bytes.
pub proof fn lemma_byte_accounting(history: Seq<int>, consumed: Seq<int>)
    ensures
        sum_of(history + consumed) == sum_of(history) + sum_of(consumed),
{
    lemma_sum_concat(history, consumed);
}

} // verus!
