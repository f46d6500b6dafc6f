//! Streaming reassembly: transient state for a RESP3 aggregate whose
//! elements arrive incrementally across decode calls. At most one streamed
//! frame is in flight per codec; nested streaming aggregates are not part
//! of the protocol.

use vstd::prelude::*;
use crate::error::RedisError;
use crate::frame::{Frame3V, Resp3Frame, lemma_v3ps_push, lemma_v3s, v3, v3ps, v3s};
use crate::text::{CR, LF, all_digits, lemma_scan_line, scan_line, scan_line_exec, val_of};
use crate::encode::{LEN_CAP, M_ARRAY, M_BULK, M_CHUNK, M_END, M_MAP, M_QUERY, M_SET};
use crate::decode::{copy_range, lemma_parse3_bounds, parse3, parse3_at};
use crate::text::{DigitsVal, parse_u64_digits};

verus! {

broadcast use {
    vstd::seq::axiom_seq_index_decreases,
    vstd::std_specs::vec::axiom_vec_index_decreases,
    vstd::std_specs::vec::axiom_vec_decreases_to_view,
};

/// Which aggregate a streamed frame reassembles.
#[derive(Clone, Copy, PartialEq, Eq, Structural, Debug)]
pub enum StreamKind {
    Array,
    SetFrame,
    MapFrame,
    Blob,
}

/// Reassembly state of one in-flight streamed aggregate: its kind, the
/// declared element count if one was declared, the elements gathered so far
/// (keys and values alternating, for a map), the bytes gathered so far (for
/// a chunked blob string), and whether the end has been reached.
pub struct StreamedFrame {
    pub kind: StreamKind,
    pub expected: Option<usize>,
    pub elems: Vec<Resp3Frame>,
    pub chunk: Vec<u8>,
    pub complete: bool,
}

/// Mathematical model of the reassembly state.
pub ghost struct StreamV {
    pub kind: StreamKind,
    pub expected: Option<int>,
    pub elems: Seq<Frame3V>,
    pub chunk: Seq<u8>,
    pub complete: bool,
}

impl StreamedFrame {
    pub open spec fn view(&self) -> StreamV {
        StreamV {
            kind: self.kind,
            expected: match self.expected {
                Some(n) => Some(n as int),
                None => None,
            },
            elems: v3s(self.elems@),
            chunk: self.chunk@,
            complete: self.complete,
        }
    }
}

/// The number of element frames still owed, where one is declared: a map
/// declares pairs, so it owes twice its declared count.
pub open spec fn goal_of(st: StreamV) -> Option<int> {
    match st.expected {
        Some(n) => Some(
            if st.kind == StreamKind::MapFrame {
                2 * n
            } else {
                n
            },
        ),
        None => None,
    }
}

/// Gather an alternating element run into key-value pairs.
pub open spec fn pair_up(s: Seq<Frame3V>) -> Seq<(Frame3V, Frame3V)>
    decreases s.len(),
{
    if s.len() < 2 {
        Seq::empty()
    } else {
        seq![(s[0], s[1])] + pair_up(s.skip(2))
    }
}

/// Turn a finished reassembly state into its completed frame. A map whose
/// element run ended at an odd length is a protocol violation.
pub open spec fn finalize(st: StreamV) -> Result<Frame3V, RedisError> {
    match st.kind {
        StreamKind::Array => Ok(Frame3V::Array(st.elems)),
        StreamKind::SetFrame => Ok(Frame3V::SetFrame(st.elems)),
        StreamKind::MapFrame => if st.elems.len() % 2 == 0 {
            Ok(Frame3V::MapFrame(pair_up(st.elems)))
        } else {
            Err(RedisError::Decode)
        },
        StreamKind::Blob => Ok(Frame3V::BlobString(st.chunk)),
    }
}

/// Feed bytes to an in-flight aggregate: parse as many complete elements as
/// stand in `b`, and finish when the declared count is reached or the end
/// marker arrives. The result names the surviving state (none if a frame
/// was produced), the consumed byte count, and the produced frame if any.
pub open spec fn pump(st: StreamV, b: Seq<u8>) -> Result<
    (Option<StreamV>, int, Option<Frame3V>),
    RedisError,
>
    decreases b.len(), 1int,
{
    if st.kind == StreamKind::Blob {
        pump_blob(st, b)
    } else if goal_of(st) matches Some(g) && st.elems.len() >= g {
        match finalize(st) {
            Ok(f) => Ok((None, 0, Some(f))),
            Err(e) => Err(e),
        }
    } else if goal_of(st) is None && b.len() >= 1 && b[0] == M_END {
        if b.len() >= 2 && b[1] != CR {
            Err(RedisError::Decode)
        } else if b.len() >= 3 && b[1] == CR && b[2] == LF {
            match finalize(st) {
                Ok(f) => Ok((None, 3, Some(f))),
                Err(e) => Err(e),
            }
        } else if b.len() >= 3 {
            Err(RedisError::Decode)
        } else {
            Ok((Some(st), 0, None))
        }
    } else {
        match parse3(b) {
            Ok(None) => Ok((Some(st), 0, None)),
            Err(e) => Err(e),
            Ok(Some((f, k))) => {
                if k < 1 || k > b.len() {
                    Err(RedisError::Decode)
                } else {
                    let st2 = StreamV { elems: st.elems.push(f), ..st };
                    if goal_of(st) matches Some(g) && st2.elems.len() >= g {
                        match finalize(st2) {
                            Ok(ff) => Ok((None, k, Some(ff))),
                            Err(e) => Err(e),
                        }
                    } else {
                        match pump(st2, b.skip(k)) {
                            Err(e) => Err(e),
                            Ok((st3, k2, out)) => Ok((st3, k + k2, out)),
                        }
                    }
                }
            },
        }
    }
}

/// Feed bytes to an in-flight chunked blob string: each chunk is a count
/// line and its payload; a zero count ends the string.
pub open spec fn pump_blob(st: StreamV, b: Seq<u8>) -> Result<
    (Option<StreamV>, int, Option<Frame3V>),
    RedisError,
>
    decreases b.len(), 0int,
{
    if b.len() == 0 {
        Ok((Some(st), 0, None))
    } else if b[0] != M_CHUNK {
        Err(RedisError::Decode)
    } else {
        match scan_line(b.drop_first()) {
            Ok(None) => Ok((Some(st), 0, None)),
            Err(e) => Err(e),
            Ok(Some(i)) => {
                let lt = b.subrange(1, 1 + i);
                if all_digits(lt) && lt.len() >= 1 && 0 <= val_of(lt) && val_of(lt) <= LEN_CAP
                    && 0 <= i {
                    let len = val_of(lt);
                    if len == 0 {
                        match finalize(st) {
                            Ok(f) => Ok((None, 3 + i, Some(f))),
                            Err(e) => Err(e),
                        }
                    } else if b.len() < 3 + i + len + 2 {
                        Ok((Some(st), 0, None))
                    } else if b[3 + i + len] == CR && b[3 + i + len + 1] == LF {
                        let st2 = StreamV {
                            chunk: st.chunk + b.subrange(3 + i, 3 + i + len),
                            ..st
                        };
                        match pump_blob(st2, b.skip(3 + i + len + 2)) {
                            Err(e) => Err(e),
                            Ok((st3, k2, out)) => Ok((st3, 3 + i + len + 2 + k2, out)),
                        }
                    } else {
                        Err(RedisError::Decode)
                    }
                } else {
                    Err(RedisError::Decode)
                }
            },
        }
    }
}

/// Feeding bytes consumes no more than the buffer.
pub proof fn lemma_pump_bounds(st: StreamV, b: Seq<u8>)
    ensures
        pump(st, b) matches Ok((s2, k, out)) ==> 0 <= k <= b.len(),
    decreases b.len(), 1int,
{
    if st.kind == StreamKind::Blob {
        lemma_pump_blob_bounds(st, b);
    } else {
        lemma_parse3_bounds(b);
        match parse3(b) {
            Ok(Some((f, k))) => {
                if 1 <= k <= b.len() {
                    let st2 = StreamV { elems: st.elems.push(f), ..st };
                    lemma_pump_bounds(st2, b.skip(k));
                }
            },
            _ => {},
        }
    }
}

pub proof fn lemma_pump_blob_bounds(st: StreamV, b: Seq<u8>)
    ensures
        pump_blob(st, b) matches Ok((s2, k, out)) ==> 0 <= k <= b.len(),
    decreases b.len(), 0int,
{
    if b.len() > 0 && b[0] == M_CHUNK {
        lemma_scan_line(b.drop_first());
        match scan_line(b.drop_first()) {
            Ok(Some(i)) => {
                let lt = b.subrange(1, 1 + i);
                if all_digits(lt) && lt.len() >= 1 && 0 <= val_of(lt) && val_of(lt) <= LEN_CAP
                    && 0 <= i {
                    let len = val_of(lt);
                    if len != 0 && b.len() >= 3 + i + len + 2 && b[3 + i + len] == CR && b[3 + i
                        + len + 1] == LF {
                        let st2 = StreamV {
                            chunk: st.chunk + b.subrange(3 + i, 3 + i + len),
                            ..st
                        };
                        lemma_pump_blob_bounds(st2, b.skip(3 + i + len + 2));
                    }
                }
            },
            _ => {},
        }
    }
}

/// A decode step consumes no more than the buffer.
pub proof fn lemma_dec3_step_bounds(st: Option<StreamV>, b: Seq<u8>)
    ensures
        dec3_step(st, b) matches Ok((s2, k, out)) ==> 0 <= k <= b.len(),
{
    match st {
        Some(s) => lemma_pump_bounds(s, b),
        None => {
            lemma_parse3_bounds(b);
            if b.len() >= 1 {
                if (b[0] == M_ARRAY || b[0] == M_SET || b[0] == M_MAP || b[0] == M_BULK)
                    && b.len() >= 2 && b[1] == M_QUERY {
                    if b.len() >= 4 && b[2] == CR && b[3] == LF {
                        let kind = if b[0] == M_ARRAY {
                            StreamKind::Array
                        } else if b[0] == M_SET {
                            StreamKind::SetFrame
                        } else if b[0] == M_MAP {
                            StreamKind::MapFrame
                        } else {
                            StreamKind::Blob
                        };
                        let st0 = StreamV {
                            kind,
                            expected: None,
                            elems: Seq::empty(),
                            chunk: Seq::empty(),
                            complete: false,
                        };
                        lemma_pump_bounds(st0, b.skip(4));
                    }
                } else if b[0] == M_ARRAY || b[0] == M_SET || b[0] == M_MAP {
                    if parse3(b) is Ok {
                        lemma_scan_line(b.drop_first());
                        match scan_line(b.drop_first()) {
                            Ok(Some(i)) => {
                                let lt = b.subrange(1, 1 + i);
                                if all_digits(lt) && lt.len() >= 1 && 0 <= val_of(lt) && val_of(
                                    lt,
                                ) <= LEN_CAP && 0 <= i && 3 + i <= b.len() {
                                    let kind = if b[0] == M_ARRAY {
                                        StreamKind::Array
                                    } else if b[0] == M_SET {
                                        StreamKind::SetFrame
                                    } else {
                                        StreamKind::MapFrame
                                    };
                                    let st0 = StreamV {
                                        kind,
                                        expected: Some(val_of(lt)),
                                        elems: Seq::empty(),
                                        chunk: Seq::empty(),
                                        complete: false,
                                    };
                                    lemma_pump_bounds(st0, b.skip(3 + i));
                                }
                            },
                            _ => {},
                        }
                    }
                }
            }
        },
    }
}

/// Model of an optional in-flight state.
pub open spec fn view_opt(st: Option<StreamedFrame>) -> Option<StreamV> {
    match st {
        Some(s) => Some(s@),
        None => None,
    }
}

/// One RESP3 decode step of the codec: with a streamed frame in flight the
/// bytes feed it; otherwise a streaming header installs one, and any other
/// bytes must form one complete frame.
pub open spec fn dec3_step(st: Option<StreamV>, b: Seq<u8>) -> Result<
    (Option<StreamV>, int, Option<Frame3V>),
    RedisError,
> {
    match st {
        Some(s) => pump(s, b),
        None => {
            if b.len() == 0 {
                Ok((None, 0, None))
            } else if (b[0] == M_ARRAY || b[0] == M_SET || b[0] == M_MAP || b[0] == M_BULK)
                && b.len() >= 2 && b[1] == M_QUERY {
                if b.len() >= 3 && b[2] != CR {
                    Err(RedisError::Decode)
                } else if b.len() >= 4 && b[2] == CR && b[3] == LF {
                    let kind = if b[0] == M_ARRAY {
                        StreamKind::Array
                    } else if b[0] == M_SET {
                        StreamKind::SetFrame
                    } else if b[0] == M_MAP {
                        StreamKind::MapFrame
                    } else {
                        StreamKind::Blob
                    };
                    let st0 = StreamV {
                        kind,
                        expected: None,
                        elems: Seq::empty(),
                        chunk: Seq::empty(),
                        complete: false,
                    };
                    match pump(st0, b.skip(4)) {
                        Err(e) => Err(e),
                        Ok((st2, k, out)) => Ok((st2, 4 + k, out)),
                    }
                } else if b.len() >= 4 {
                    Err(RedisError::Decode)
                } else {
                    Ok((None, 0, None))
                }
            } else if b[0] == M_ARRAY || b[0] == M_SET || b[0] == M_MAP {
                match parse3(b) {
                    Err(e) => Err(e),
                    Ok(Some((f, k))) => Ok((None, k, Some(f))),
                    Ok(None) => {
                        match scan_line(b.drop_first()) {
                            Ok(None) => Ok((None, 0, None)),
                            Err(e) => Err(e),
                            Ok(Some(i)) => {
                                let lt = b.subrange(1, 1 + i);
                                if all_digits(lt) && lt.len() >= 1 && 0 <= val_of(lt) && val_of(
                                    lt,
                                ) <= LEN_CAP && 0 <= i && 3 + i <= b.len() {
                                    let kind = if b[0] == M_ARRAY {
                                        StreamKind::Array
                                    } else if b[0] == M_SET {
                                        StreamKind::SetFrame
                                    } else {
                                        StreamKind::MapFrame
                                    };
                                    let st0 = StreamV {
                                        kind,
                                        expected: Some(val_of(lt)),
                                        elems: Seq::empty(),
                                        chunk: Seq::empty(),
                                        complete: false,
                                    };
                                    match pump(st0, b.skip(3 + i)) {
                                        Err(e) => Err(e),
                                        Ok((st2, k, out)) => Ok((st2, 3 + i + k, out)),
                                    }
                                } else {
                                    Ok((None, 0, None))
                                }
                            },
                        }
                    },
                }
            } else {
                match parse3(b) {
                    Err(e) => Err(e),
                    Ok(Some((f, k))) => Ok((None, k, Some(f))),
                    Ok(None) => Ok((None, 0, None)),
                }
            }
        },
    }
}

/// How an executable step result corresponds to a model step result.
pub open spec fn step_matches(
    r: Result<(Option<StreamedFrame>, usize, Option<Resp3Frame>), RedisError>,
    s: Result<(Option<StreamV>, int, Option<Frame3V>), RedisError>,
) -> bool {
    match (r, s) {
        (Ok((rs, rk, rf)), Ok((ss, sk, sf))) => {
            &&& view_opt(rs) == ss
            &&& rk as int == sk
            &&& (match (rf, sf) {
                (None, None) => true,
                (Some(f), Some(fv)) => v3(f) == fv,
                _ => false,
            })
        },
        (Err(a), Err(e)) => a == e,
        _ => false,
    }
}

/// Turn a finished reassembly state into its completed frame.
fn finalize_exec(st: StreamedFrame) -> (r: Result<Resp3Frame, RedisError>)
    ensures
        match (r, finalize(st@)) {
            (Ok(f), Ok(fv)) => v3(f) == fv,
            (Err(a), Err(e)) => a == e,
            _ => false,
        },
{
    match st.kind {
        StreamKind::Array => Ok(Resp3Frame::Array(st.elems)),
        StreamKind::SetFrame => Ok(Resp3Frame::SetFrame(st.elems)),
        StreamKind::Blob => Ok(Resp3Frame::BlobString(st.chunk)),
        StreamKind::MapFrame => {
            let ghost gs = v3s(st.elems@);
            proof {
                lemma_v3s(st.elems@);
            }
            if st.elems.len() % 2 != 0 {
                Err(RedisError::Decode)
            } else {
                let mut it = st.elems;
                let mut pairs: Vec<(Resp3Frame, Resp3Frame)> = Vec::new();
                proof {
                    assert(v3ps(pairs@) =~= Seq::<(Frame3V, Frame3V)>::empty());
                    assert(pair_up(gs) =~= v3ps(pairs@) + pair_up(v3s(it@)));
                }
                while it.len() >= 2
                    invariant
                        it@.len() % 2 == 0,
                        pair_up(gs) == v3ps(pairs@) + pair_up(v3s(it@)),
                    decreases it@.len(),
                {
                    let ghost it0 = it@;
                    let ghost pairs0 = pairs@;
                    let k = it.remove(0);
                    let v = it.remove(0);
                    pairs.push((k, v));
                    proof {
                        lemma_v3s(it0);
                        assert(k == it0[0]);
                        assert(v == it0.remove(0)[0]);
                        assert(it0.remove(0)[0] == it0[1]);
                        assert(it@ =~= it0.skip(2));
                        lemma_v3s(it@);
                        assert(v3s(it0).skip(2) =~= v3s(it0.skip(2))) by {
                            lemma_v3s(it0);
                            lemma_v3s(it0.skip(2));
                            assert forall|j: int| 0 <= j < it0.skip(2).len() implies v3s(
                                it0,
                            ).skip(2)[j] == v3s(it0.skip(2))[j] by {
                                assert(it0.skip(2)[j] == it0[j + 2]);
                                assert(v3s(it0)[j + 2] == v3(it0[j + 2]));
                                assert(v3s(it0.skip(2))[j] == v3(it0.skip(2)[j]));
                            }
                        }
                        assert(pair_up(v3s(it0)) == seq![(v3(k), v3(v))] + pair_up(v3s(it@)));
                        lemma_v3ps_push(pairs0, (k, v));
                        assert(v3ps(pairs@) + pair_up(v3s(it@)) =~= v3ps(pairs0) + (seq![
                            (v3(k), v3(v)),
                        ] + pair_up(v3s(it@))));
                    }
                }
                proof {
                    assert(it@.len() == 0);
                    assert(v3s(it@) =~= Seq::<Frame3V>::empty());
                    assert(pair_up(v3s(it@)) =~= Seq::<(Frame3V, Frame3V)>::empty());
                    assert(pair_up(gs) =~= v3ps(pairs@));
                }
                Ok(Resp3Frame::MapFrame(pairs))
            }
        },
    }
}

/// Feed bytes to an in-flight aggregate, executably.
#[verifier::rlimit(100)]
pub fn pump_exec(st: StreamedFrame, buf: &Vec<u8>, pos: usize) -> (r: Result<
    (Option<StreamedFrame>, usize, Option<Resp3Frame>),
    RedisError,
>)
    requires
        pos <= buf@.len(),
    ensures
        step_matches(r, pump(st@, buf@.skip(pos as int))),
    decreases buf@.len() - pos, 1int,
{
    let ghost b = buf@.skip(pos as int);
    let total: usize = buf.len();
    proof {
        lemma_v3s(st.elems@);
    }
    if st.kind == StreamKind::Blob {
        return pump_blob_exec(st, buf, pos);
    }
    let goal_reached: bool = match st.expected {
        Some(n) => {
            let g: u128 = if st.kind == StreamKind::MapFrame {
                2 * (n as u128)
            } else {
                n as u128
            };
            (st.elems.len() as u128) >= g
        },
        None => false,
    };
    if goal_reached {
        match finalize_exec(st) {
            Ok(f) => Ok((None, 0, Some(f))),
            Err(e) => Err(e),
        }
    } else if st.expected.is_none() && pos < total && buf[pos] == M_END {
        proof {
            assert(b[0] == buf@[pos as int]);
        }
        if pos + 1 < total && buf[pos + 1] != CR {
            proof {
                assert(b[1] == buf@[pos + 1 as int]);
            }
            Err(RedisError::Decode)
        } else if total - pos > 2 && buf[pos + 1] == CR && buf[pos + 2] == LF {
            proof {
                assert(b[1] == buf@[pos + 1 as int]);
                assert(b[2] == buf@[pos + 2 as int]);
            }
            match finalize_exec(st) {
                Ok(f) => Ok((None, 3, Some(f))),
                Err(e) => Err(e),
            }
        } else if total - pos > 2 {
            proof {
                assert(b[1] == buf@[pos + 1 as int]);
                assert(b[2] == buf@[pos + 2 as int]);
            }
            Err(RedisError::Decode)
        } else {
            Ok((Some(st), 0, None))
        }
    } else {
        match parse3_at(buf, pos) {
            Ok(None) => Ok((Some(st), 0, None)),
            Err(e) => Err(e),
            Ok(Some((f, k))) => {
                proof {
                    lemma_parse3_bounds(b);
                    assert(1 <= k as int <= b.len());
                    assert(b.len() == buf@.len() - pos);
                    assert(b.skip(k as int) =~= buf@.skip(pos + k as int));
                }
                let mut st2 = st;
                let ghost elems0 = st2.elems@;
                st2.elems.push(f);
                proof {
                    crate::frame::lemma_v3s_push(elems0, f);
                    lemma_v3s(st2.elems@);
                }
                let goal_now: bool = match st2.expected {
                    Some(n) => {
                        let g: u128 = if st2.kind == StreamKind::MapFrame {
                            2 * (n as u128)
                        } else {
                            n as u128
                        };
                        (st2.elems.len() as u128) >= g
                    },
                    None => false,
                };
                if goal_now {
                    match finalize_exec(st2) {
                        Ok(ff) => Ok((None, k, Some(ff))),
                        Err(e) => Err(e),
                    }
                } else {
                    match pump_exec(st2, buf, pos + k) {
                        Err(e) => Err(e),
                        Ok((st3, k2, out)) => {
                            proof {
                                lemma_pump_bounds(st2@, b.skip(k as int));
                                assert(k2 as int <= b.skip(k as int).len());
                            }
                            Ok((st3, k + k2, out))
                        },
                    }
                }
            },
        }
    }
}

/// Feed bytes to an in-flight chunked blob string, executably.
#[verifier::rlimit(100)]
pub fn pump_blob_exec(st: StreamedFrame, buf: &Vec<u8>, pos: usize) -> (r: Result<
    (Option<StreamedFrame>, usize, Option<Resp3Frame>),
    RedisError,
>)
    requires
        pos <= buf@.len(),
        st.kind == StreamKind::Blob,
    ensures
        step_matches(r, pump_blob(st@, buf@.skip(pos as int))),
    decreases buf@.len() - pos, 0int,
{
    let ghost b = buf@.skip(pos as int);
    let total: usize = buf.len();
    if pos == total {
        return Ok((Some(st), 0, None));
    }
    proof {
        assert(b[0] == buf@[pos as int]);
        assert(b.drop_first() =~= buf@.skip(pos + 1 as int));
    }
    if buf[pos] != M_CHUNK {
        return Err(RedisError::Decode);
    }
    match scan_line_exec(buf, pos + 1) {
        Err(e) => Err(e),
        Ok(None) => Ok((Some(st), 0, None)),
        Ok(Some(i)) => {
            proof {
                lemma_scan_line(b.drop_first());
                assert(b.subrange(1, 1 + i as int) =~= buf@.subrange(
                    pos + 1 as int,
                    pos + 1 + i as int,
                ));
            }
            let ghost lt = b.subrange(1, 1 + i as int);
            match parse_u64_digits(buf, pos + 1, pos + 1 + i) {
                DigitsVal::NotDigits => Err(RedisError::Decode),
                DigitsVal::TooBig => {
                    proof {
                        crate::text::lemma_val_nonneg(lt);
                    }
                    Err(RedisError::Decode)
                },
                DigitsVal::Val(len64) => {
                    proof {
                        crate::text::lemma_val_nonneg(lt);
                    }
                    if len64 > LEN_CAP {
                        Err(RedisError::Decode)
                    } else if len64 == 0 {
                        match finalize_exec(st) {
                            Ok(f) => Ok((None, i + 3, Some(f))),
                            Err(e) => Err(e),
                        }
                    } else {
                        let need: u128 = pos as u128 + 3 + i as u128 + len64 as u128 + 2;
                        if (total as u128) < need {
                            Ok((Some(st), 0, None))
                        } else {
                            let len = len64 as usize;
                            let p2 = pos + 3 + i + len;
                            proof {
                                assert(b[3 + i + len as int] == buf@[p2 as int]);
                                assert(b[3 + i + len as int + 1] == buf@[p2 + 1 as int]);
                            }
                            if buf[p2] == CR && buf[p2 + 1] == LF {
                                proof {
                                    assert(b.subrange(3 + i as int, 3 + i + len as int)
                                        =~= buf@.subrange(pos + 3 + i as int, p2 as int));
                                }
                                let mut piece = copy_range(buf, pos + 3 + i, p2);
                                let mut st2 = st;
                                st2.chunk.append(&mut piece);
                                proof {
                                    assert(b.skip(3 + i + len as int + 2) =~= buf@.skip(
                                        p2 + 2 as int,
                                    ));
                                    lemma_v3s(st2.elems@);
                                }
                                match pump_blob_exec(st2, buf, p2 + 2) {
                                    Err(e) => Err(e),
                                    Ok((st3, k2, out)) => {
                                        proof {
                                            lemma_pump_blob_bounds(
                                                st2@,
                                                b.skip(3 + i + len as int + 2),
                                            );
                                            assert(k2 as int <= b.skip(
                                                3 + i + len as int + 2,
                                            ).len());
                                        }
                                        Ok((st3, i + 3 + len + 2 + k2, out))
                                    },
                                }
                            } else {
                                Err(RedisError::Decode)
                            }
                        }
                    }
                },
            }
        },
    }
}

/// One executable RESP3 decode step over an optional in-flight state.
#[verifier::rlimit(100)]
pub fn dec3_step_exec(st: Option<StreamedFrame>, buf: &Vec<u8>, pos: usize) -> (r: Result<
    (Option<StreamedFrame>, usize, Option<Resp3Frame>),
    RedisError,
>)
    requires
        pos <= buf@.len(),
    ensures
        step_matches(r, dec3_step(view_opt(st), buf@.skip(pos as int))),
{
    let ghost b = buf@.skip(pos as int);
    let total: usize = buf.len();
    match st {
        Some(s) => pump_exec(s, buf, pos),
        None => {
            if pos == total {
                return Ok((None, 0, None));
            }
            let m = buf[pos];
            proof {
                assert(b[0] == buf@[pos as int]);
                assert(b.drop_first() =~= buf@.skip(pos + 1 as int));
            }
            if (m == M_ARRAY || m == M_SET || m == M_MAP || m == M_BULK) && pos + 1 < total && buf[
                pos + 1] == M_QUERY {
                proof {
                    assert(b[1] == buf@[pos + 1 as int]);
                }
                if pos + 2 < total && buf[pos + 2] != CR {
                    proof {
                        assert(b[2] == buf@[pos + 2 as int]);
                    }
                    Err(RedisError::Decode)
                } else if total - pos > 3 && buf[pos + 2] == CR && buf[pos + 3] == LF {
                    proof {
                        assert(b[2] == buf@[pos + 2 as int]);
                        assert(b[3] == buf@[pos + 3 as int]);
                        assert(b.skip(4) =~= buf@.skip(pos + 4 as int));
                    }
                    let kind = if m == M_ARRAY {
                        StreamKind::Array
                    } else if m == M_SET {
                        StreamKind::SetFrame
                    } else if m == M_MAP {
                        StreamKind::MapFrame
                    } else {
                        StreamKind::Blob
                    };
                    let st0 = StreamedFrame {
                        kind,
                        expected: None,
                        elems: Vec::new(),
                        chunk: Vec::new(),
                        complete: false,
                    };
                    proof {
                        assert(v3s(st0.elems@) =~= Seq::<Frame3V>::empty());
                        assert(st0.chunk@ =~= Seq::<u8>::empty());
                    }
                    let r0 = if kind == StreamKind::Blob {
                        pump_blob_exec(st0, buf, pos + 4)
                    } else {
                        pump_exec(st0, buf, pos + 4)
                    };
                    match r0 {
                        Err(e) => Err(e),
                        Ok((st2, k, out)) => {
                            proof {
                                lemma_pump_bounds(
                                    StreamV {
                                        kind,
                                        expected: None,
                                        elems: Seq::empty(),
                                        chunk: Seq::empty(),
                                        complete: false,
                                    },
                                    b.skip(4),
                                );
                                lemma_pump_blob_bounds(
                                    StreamV {
                                        kind,
                                        expected: None,
                                        elems: Seq::empty(),
                                        chunk: Seq::empty(),
                                        complete: false,
                                    },
                                    b.skip(4),
                                );
                                assert(k as int <= b.skip(4).len());
                            }
                            Ok((st2, 4 + k, out))
                        },
                    }
                } else if total - pos > 3 {
                    proof {
                        assert(b[2] == buf@[pos + 2 as int]);
                        assert(b[3] == buf@[pos + 3 as int]);
                    }
                    Err(RedisError::Decode)
                } else {
                    Ok((None, 0, None))
                }
            } else if m == M_ARRAY || m == M_SET || m == M_MAP {
                match parse3_at(buf, pos) {
                    Err(e) => Err(e),
                    Ok(Some((f, k))) => Ok((None, k, Some(f))),
                    Ok(None) => {
                        match scan_line_exec(buf, pos + 1) {
                            Err(e) => Err(e),
                            Ok(None) => Ok((None, 0, None)),
                            Ok(Some(i)) => {
                                proof {
                                    lemma_scan_line(b.drop_first());
                                    assert(b.subrange(1, 1 + i as int) =~= buf@.subrange(
                                        pos + 1 as int,
                                        pos + 1 + i as int,
                                    ));
                                }
                                let ghost lt = b.subrange(1, 1 + i as int);
                                match parse_u64_digits(buf, pos + 1, pos + 1 + i) {
                                    DigitsVal::NotDigits => Ok((None, 0, None)),
                                    DigitsVal::TooBig => {
                                        proof {
                                            crate::text::lemma_val_nonneg(lt);
                                        }
                                        Ok((None, 0, None))
                                    },
                                    DigitsVal::Val(n64) => {
                                        proof {
                                            crate::text::lemma_val_nonneg(lt);
                                        }
                                        if n64 > LEN_CAP {
                                            Ok((None, 0, None))
                                        } else {
                                            proof {
                                                assert(b.skip(3 + i as int) =~= buf@.skip(
                                                    pos + 3 + i as int,
                                                ));
                                            }
                                            let kind = if m == M_ARRAY {
                                                StreamKind::Array
                                            } else if m == M_SET {
                                                StreamKind::SetFrame
                                            } else {
                                                StreamKind::MapFrame
                                            };
                                            let st0 = StreamedFrame {
                                                kind,
                                                expected: Some(n64 as usize),
                                                elems: Vec::new(),
                                                chunk: Vec::new(),
                                                complete: false,
                                            };
                                            proof {
                                                assert(v3s(st0.elems@) =~= Seq::<
                                                    Frame3V,
                                                >::empty());
                                                assert(st0.chunk@ =~= Seq::<u8>::empty());
                                            }
                                            let ghost st0v = st0@;
                                            match pump_exec(st0, buf, pos + 3 + i) {
                                                Err(e) => Err(e),
                                                Ok((st2, k, out)) => {
                                                    proof {
                                                        lemma_pump_bounds(
                                                            st0v,
                                                            b.skip(3 + i as int),
                                                        );
                                                        assert(k as int <= b.skip(
                                                            3 + i as int,
                                                        ).len());
                                                    }
                                                    Ok((st2, i + 3 + k, out))
                                                },
                                            }
                                        }
                                    },
                                }
                            },
                        }
                    },
                }
            } else {
                match parse3_at(buf, pos) {
                    Err(e) => Err(e),
                    Ok(Some((f, k))) => Ok((None, k, Some(f))),
                    Ok(None) => Ok((None, 0, None)),
                }
            }
        },
    }
}

} // verus!
