//! The decoder: parses an incoming byte buffer into zero or one frame, for
//! either protocol generation. A parse consumes exactly the bytes of one
//! complete frame and leaves the remainder untouched; a buffer holding only
//! a prefix of a frame yields no frame and no consumption.

use vstd::prelude::*;
use crate::error::RedisError;
use crate::frame::{Frame2V, Frame3V, Resp2Frame, Resp3Frame, v2, v3};
use crate::text::{
    CR, LF, DigitsVal, all_digits, dec_u, lemma_scan_line, lemma_scan_line_found, parse_int_text,
    parse_u64_digits, scan_line, scan_line_exec, val_of,
};
use crate::encode::{
    LEN_CAP, M_ARRAY, M_BIGNUM, M_BLOBERR, M_BOOL, M_BULK, M_CHUNK, M_DOUBLE, M_END, M_ERR, M_INT,
    M_MAP, M_NULL, M_PUSH, M_QUERY, M_SET, M_SIMPLE, M_VERBATIM,
};

verus! {

broadcast use {
    vstd::seq::axiom_seq_index_decreases,
    vstd::std_specs::vec::axiom_vec_index_decreases,
    vstd::std_specs::vec::axiom_vec_decreases_to_view,
};

/// Parse one complete RESP2 frame from the front of `b`. `Ok(None)` means
/// the buffer holds only a prefix of a frame; `Ok(Some((f, k)))` means the
/// first `k` bytes form exactly the frame `f`; `Err` means the bytes cannot
/// begin any frame.
pub open spec fn parse2(b: Seq<u8>) -> Result<Option<(Frame2V, int)>, RedisError>
    decreases b.len(), 0int, 0int,
{
    if b.len() == 0 {
        Ok(None)
    } else {
        let m = b[0];
        if m == M_SIMPLE || m == M_ERR {
            match scan_line(b.drop_first()) {
                Ok(None) => Ok(None),
                Err(e) => Err(e),
                Ok(Some(i)) => {
                    let content = b.subrange(1, 1 + i);
                    if m == M_SIMPLE {
                        Ok(Some((Frame2V::SimpleString(content), 3 + i)))
                    } else {
                        Ok(Some((Frame2V::Error(content), 3 + i)))
                    }
                },
            }
        } else if m == M_INT {
            match scan_line(b.drop_first()) {
                Ok(None) => Ok(None),
                Err(e) => Err(e),
                Ok(Some(i)) => {
                    match parse_int_text(b.subrange(1, 1 + i)) {
                        Some(v) => if i64::MIN <= v <= i64::MAX {
                            Ok(Some((Frame2V::Integer(v), 3 + i)))
                        } else {
                            Err(RedisError::Decode)
                        },
                        None => Err(RedisError::Decode),
                    }
                },
            }
        } else if m == M_BULK {
            match scan_line(b.drop_first()) {
                Ok(None) => Ok(None),
                Err(e) => Err(e),
                Ok(Some(i)) => {
                    let lt = b.subrange(1, 1 + i);
                    if lt == seq![M_ERR, 49u8] {
                        Ok(Some((Frame2V::Null, 3 + i)))
                    } else if all_digits(lt) && lt.len() >= 1 && val_of(lt) <= LEN_CAP {
                        let len = val_of(lt);
                        if b.len() < 3 + i + len + 2 {
                            Ok(None)
                        } else if b[3 + i + len] == CR && b[3 + i + len + 1] == LF {
                            Ok(
                                Some(
                                    (
                                        Frame2V::BulkString(b.subrange(3 + i, 3 + i + len)),
                                        3 + i + len + 2,
                                    ),
                                ),
                            )
                        } else {
                            Err(RedisError::Decode)
                        }
                    } else {
                        Err(RedisError::Decode)
                    }
                },
            }
        } else if m == M_ARRAY {
            match scan_line(b.drop_first()) {
                Ok(None) => Ok(None),
                Err(e) => Err(e),
                Ok(Some(i)) => {
                    let lt = b.subrange(1, 1 + i);
                    if lt == seq![M_ERR, 49u8] {
                        Ok(Some((Frame2V::Null, 3 + i)))
                    } else if all_digits(lt) && lt.len() >= 1 && val_of(lt) <= LEN_CAP && 0 <= i
                        && 3 + i <= b.len() {
                        match parse2_elems(b.skip(3 + i), val_of(lt)) {
                            Ok(None) => Ok(None),
                            Err(e) => Err(e),
                            Ok(Some((elems, k))) => Ok(
                                Some((Frame2V::Array(elems), 3 + i + k)),
                            ),
                        }
                    } else {
                        Err(RedisError::Decode)
                    }
                },
            }
        } else if m == M_DOUBLE || m == M_BOOL || m == M_BIGNUM || m == M_BLOBERR || m
            == M_VERBATIM || m == M_NULL || m == M_SET || m == M_MAP || m == M_PUSH {
            Err(RedisError::ProtocolMismatch)
        } else {
            Err(RedisError::Decode)
        }
    }
}

/// Parse `n` complete RESP2 frames from the front of `b`.
pub open spec fn parse2_elems(b: Seq<u8>, n: int) -> Result<
    Option<(Seq<Frame2V>, int)>,
    RedisError,
>
    decreases b.len(), 1int, n,
{
    if n <= 0 {
        Ok(Some((Seq::empty(), 0)))
    } else {
        match parse2(b) {
            Ok(None) => Ok(None),
            Err(e) => Err(e),
            Ok(Some((f, k))) => {
                if k < 1 || k > b.len() {
                    Err(RedisError::Decode)
                } else {
                    match parse2_elems(b.skip(k), n - 1) {
                        Ok(None) => Ok(None),
                        Err(e) => Err(e),
                        Ok(Some((rest, k2))) => Ok(Some((seq![f] + rest, k + k2))),
                    }
                }
            },
        }
    }
}

/// A successful parse consumes at least one byte and no more than the buffer.
pub proof fn lemma_parse2_bounds(b: Seq<u8>)
    ensures
        parse2(b) matches Ok(Some((f, k))) ==> 1 <= k <= b.len(),
    decreases b.len(), 0int, 0int,
{
    if b.len() > 0 {
        lemma_scan_line(b.drop_first());
        match scan_line(b.drop_first()) {
            Ok(Some(i)) => {
                let lt = b.subrange(1, 1 + i);
                if all_digits(lt) {
                    crate::text::lemma_val_nonneg(lt);
                }
                if b[0] == M_ARRAY && lt != seq![M_ERR, 49u8] && all_digits(lt) && lt.len() >= 1
                    && val_of(lt) <= LEN_CAP && 0 <= i && 3 + i <= b.len() {
                    lemma_parse2_elems_bounds(b.skip(3 + i), val_of(lt));
                }
            },
            _ => {},
        }
    }
}

/// Parse one complete RESP3 frame from the front of `b`. Streaming headers
/// are not part of a complete frame and are rejected here; the codec treats
/// them before calling this parser.
pub open spec fn parse3(b: Seq<u8>) -> Result<Option<(Frame3V, int)>, RedisError>
    decreases b.len(), 0int, 0int,
{
    if b.len() == 0 {
        Ok(None)
    } else {
        let m = b[0];
        if m == M_SIMPLE || m == M_ERR || m == M_DOUBLE || m == M_BIGNUM || m == M_BOOL || m
            == M_NULL {
            match scan_line(b.drop_first()) {
                Ok(None) => Ok(None),
                Err(e) => Err(e),
                Ok(Some(i)) => {
                    let content = b.subrange(1, 1 + i);
                    if m == M_SIMPLE {
                        Ok(Some((Frame3V::SimpleString(content), 3 + i)))
                    } else if m == M_ERR {
                        Ok(Some((Frame3V::SimpleError(content), 3 + i)))
                    } else if m == M_DOUBLE {
                        if content.len() >= 1 {
                            Ok(Some((Frame3V::Double(content), 3 + i)))
                        } else {
                            Err(RedisError::Decode)
                        }
                    } else if m == M_BIGNUM {
                        if content.len() >= 1 {
                            Ok(Some((Frame3V::BigNumber(content), 3 + i)))
                        } else {
                            Err(RedisError::Decode)
                        }
                    } else if m == M_BOOL {
                        if content == seq![116u8] {
                            Ok(Some((Frame3V::Boolean(true), 3 + i)))
                        } else if content == seq![102u8] {
                            Ok(Some((Frame3V::Boolean(false), 3 + i)))
                        } else {
                            Err(RedisError::Decode)
                        }
                    } else {
                        if content.len() == 0 {
                            Ok(Some((Frame3V::Null, 3 + i)))
                        } else {
                            Err(RedisError::Decode)
                        }
                    }
                },
            }
        } else if m == M_INT {
            match scan_line(b.drop_first()) {
                Ok(None) => Ok(None),
                Err(e) => Err(e),
                Ok(Some(i)) => {
                    match parse_int_text(b.subrange(1, 1 + i)) {
                        Some(v) => if i64::MIN <= v <= i64::MAX {
                            Ok(Some((Frame3V::Number(v), 3 + i)))
                        } else {
                            Err(RedisError::Decode)
                        },
                        None => Err(RedisError::Decode),
                    }
                },
            }
        } else if m == M_BULK || m == M_BLOBERR || m == M_VERBATIM {
            match scan_line(b.drop_first()) {
                Ok(None) => Ok(None),
                Err(e) => Err(e),
                Ok(Some(i)) => {
                    let lt = b.subrange(1, 1 + i);
                    if all_digits(lt) && lt.len() >= 1 && val_of(lt) <= LEN_CAP {
                        let len = val_of(lt);
                        if b.len() < 3 + i + len + 2 {
                            Ok(None)
                        } else if b[3 + i + len] == CR && b[3 + i + len + 1] == LF {
                            let payload = b.subrange(3 + i, 3 + i + len);
                            if m == M_BULK {
                                Ok(Some((Frame3V::BlobString(payload), 3 + i + len + 2)))
                            } else if m == M_BLOBERR {
                                Ok(Some((Frame3V::BlobError(payload), 3 + i + len + 2)))
                            } else {
                                Ok(Some((Frame3V::VerbatimString(payload), 3 + i + len + 2)))
                            }
                        } else {
                            Err(RedisError::Decode)
                        }
                    } else {
                        Err(RedisError::Decode)
                    }
                },
            }
        } else if m == M_ARRAY || m == M_SET || m == M_PUSH {
            match scan_line(b.drop_first()) {
                Ok(None) => Ok(None),
                Err(e) => Err(e),
                Ok(Some(i)) => {
                    let lt = b.subrange(1, 1 + i);
                    if all_digits(lt) && lt.len() >= 1 && val_of(lt) <= LEN_CAP && 0 <= i && 3 + i
                        <= b.len() {
                        match parse3_elems(b.skip(3 + i), val_of(lt)) {
                            Ok(None) => Ok(None),
                            Err(e) => Err(e),
                            Ok(Some((elems, k))) => if m == M_ARRAY {
                                Ok(Some((Frame3V::Array(elems), 3 + i + k)))
                            } else if m == M_SET {
                                Ok(Some((Frame3V::SetFrame(elems), 3 + i + k)))
                            } else {
                                Ok(Some((Frame3V::Push(elems), 3 + i + k)))
                            },
                        }
                    } else {
                        Err(RedisError::Decode)
                    }
                },
            }
        } else if m == M_MAP {
            match scan_line(b.drop_first()) {
                Ok(None) => Ok(None),
                Err(e) => Err(e),
                Ok(Some(i)) => {
                    let lt = b.subrange(1, 1 + i);
                    if all_digits(lt) && lt.len() >= 1 && val_of(lt) <= LEN_CAP && 0 <= i && 3 + i
                        <= b.len() {
                        match parse3_pairs(b.skip(3 + i), val_of(lt)) {
                            Ok(None) => Ok(None),
                            Err(e) => Err(e),
                            Ok(Some((pairs, k))) => Ok(
                                Some((Frame3V::MapFrame(pairs), 3 + i + k)),
                            ),
                        }
                    } else {
                        Err(RedisError::Decode)
                    }
                },
            }
        } else {
            Err(RedisError::Decode)
        }
    }
}

/// Parse `n` complete RESP3 frames from the front of `b`.
pub open spec fn parse3_elems(b: Seq<u8>, n: int) -> Result<
    Option<(Seq<Frame3V>, int)>,
    RedisError,
>
    decreases b.len(), 1int, n,
{
    if n <= 0 {
        Ok(Some((Seq::empty(), 0)))
    } else {
        match parse3(b) {
            Ok(None) => Ok(None),
            Err(e) => Err(e),
            Ok(Some((f, k))) => {
                if k < 1 || k > b.len() {
                    Err(RedisError::Decode)
                } else {
                    match parse3_elems(b.skip(k), n - 1) {
                        Ok(None) => Ok(None),
                        Err(e) => Err(e),
                        Ok(Some((rest, k2))) => Ok(Some((seq![f] + rest, k + k2))),
                    }
                }
            },
        }
    }
}

/// Parse `n` complete key-value pairs of RESP3 frames from the front of `b`.
pub open spec fn parse3_pairs(b: Seq<u8>, n: int) -> Result<
    Option<(Seq<(Frame3V, Frame3V)>, int)>,
    RedisError,
>
    decreases b.len(), 2int, n,
{
    if n <= 0 {
        Ok(Some((Seq::empty(), 0)))
    } else {
        match parse3(b) {
            Ok(None) => Ok(None),
            Err(e) => Err(e),
            Ok(Some((key, k1))) => {
                if k1 < 1 || k1 > b.len() {
                    Err(RedisError::Decode)
                } else {
                    match parse3(b.skip(k1)) {
                        Ok(None) => Ok(None),
                        Err(e) => Err(e),
                        Ok(Some((value, k2))) => {
                            if k2 < 1 || k1 + k2 > b.len() {
                                Err(RedisError::Decode)
                            } else {
                                match parse3_pairs(b.skip(k1 + k2), n - 1) {
                                    Ok(None) => Ok(None),
                                    Err(e) => Err(e),
                                    Ok(Some((rest, k3))) => Ok(
                                        Some((seq![(key, value)] + rest, k1 + k2 + k3)),
                                    ),
                                }
                            }
                        },
                    }
                }
            },
        }
    }
}

/// A successful RESP3 parse consumes at least one byte and no more than the
/// buffer.
pub proof fn lemma_parse3_bounds(b: Seq<u8>)
    ensures
        parse3(b) matches Ok(Some((f, k))) ==> 1 <= k <= b.len(),
    decreases b.len(), 0int, 0int,
{
    if b.len() > 0 {
        lemma_scan_line(b.drop_first());
        match scan_line(b.drop_first()) {
            Ok(Some(i)) => {
                let lt = b.subrange(1, 1 + i);
                if all_digits(lt) {
                    crate::text::lemma_val_nonneg(lt);
                }
                if (b[0] == M_ARRAY || b[0] == M_SET || b[0] == M_PUSH) && all_digits(lt)
                    && lt.len() >= 1 && val_of(lt) <= LEN_CAP && 0 <= i && 3 + i <= b.len() {
                    lemma_parse3_elems_bounds(b.skip(3 + i), val_of(lt));
                }
                if b[0] == M_MAP && all_digits(lt) && lt.len() >= 1 && val_of(lt) <= LEN_CAP && 0
                    <= i && 3 + i <= b.len() {
                    lemma_parse3_pairs_bounds(b.skip(3 + i), val_of(lt));
                }
            },
            _ => {},
        }
    }
}

pub proof fn lemma_parse3_elems_bounds(b: Seq<u8>, n: int)
    ensures
        parse3_elems(b, n) matches Ok(Some((s, k))) ==> 0 <= k <= b.len() && s.len() == (
        if n >= 0 {
            n
        } else {
            0
        }),
    decreases b.len(), 1int, n,
{
    if n > 0 {
        lemma_parse3_bounds(b);
        match parse3(b) {
            Ok(Some((f, k))) => {
                if 1 <= k <= b.len() {
                    lemma_parse3_elems_bounds(b.skip(k), n - 1);
                }
            },
            _ => {},
        }
    }
}

pub proof fn lemma_parse3_pairs_bounds(b: Seq<u8>, n: int)
    ensures
        parse3_pairs(b, n) matches Ok(Some((s, k))) ==> 0 <= k <= b.len() && s.len() == (
        if n >= 0 {
            n
        } else {
            0
        }),
    decreases b.len(), 2int, n,
{
    if n > 0 {
        lemma_parse3_bounds(b);
        match parse3(b) {
            Ok(Some((key, k1))) => {
                if 1 <= k1 <= b.len() {
                    lemma_parse3_bounds(b.skip(k1));
                    match parse3(b.skip(k1)) {
                        Ok(Some((value, k2))) => {
                            if k2 >= 1 && k1 + k2 <= b.len() {
                                assert(b.skip(k1).skip(k2) =~= b.skip(k1 + k2));
                                lemma_parse3_pairs_bounds(b.skip(k1 + k2), n - 1);
                            }
                        },
                        _ => {},
                    }
                }
            },
            _ => {},
        }
    }
}

/// Parsing a run of frames consumes no more than the buffer, and yields
/// exactly the requested number of frames.
pub proof fn lemma_parse2_elems_bounds(b: Seq<u8>, n: int)
    ensures
        parse2_elems(b, n) matches Ok(Some((s, k))) ==> 0 <= k <= b.len() && s.len() == (
        if n >= 0 {
            n
        } else {
            0
        }),
    decreases b.len(), 1int, n,
{
    if n > 0 {
        lemma_parse2_bounds(b);
        match parse2(b) {
            Ok(Some((f, k))) => {
                if 1 <= k <= b.len() {
                    lemma_parse2_elems_bounds(b.skip(k), n - 1);
                }
            },
            _ => {},
        }
    }
}

/// A parse that produced a frame, or failed, keeps its answer when more
/// bytes arrive: only an incomplete parse can change.
#[verifier::rlimit(100)]
pub proof fn lemma_parse2_mono(b: Seq<u8>, ext: Seq<u8>)
    ensures
        parse2(b) matches Ok(Some(p)) ==> parse2(b + ext) == Ok::<
            Option<(Frame2V, int)>,
            RedisError,
        >(Some(p)),
        parse2(b) is Err ==> parse2(b + ext) == parse2(b),
    decreases b.len(), 0int, 0int,
{
    if b.len() > 0 {
        let c = b + ext;
        assert(c[0] == b[0]);
        assert(c.drop_first() =~= b.drop_first() + ext);
        crate::text::lemma_scan_line_mono(b.drop_first(), ext);
        lemma_scan_line(b.drop_first());
        match scan_line(b.drop_first()) {
            Ok(Some(i)) => {
                assert(c.subrange(1, 1 + i) =~= b.subrange(1, 1 + i));
                let lt = b.subrange(1, 1 + i);
                if all_digits(lt) {
                    crate::text::lemma_val_nonneg(lt);
                }
                if b[0] == M_BULK {
                    if lt != seq![M_ERR, 49u8] && all_digits(lt) && lt.len() >= 1 && val_of(lt)
                        <= LEN_CAP {
                        let len = val_of(lt);
                        if b.len() >= 3 + i + len + 2 {
                            assert(c[3 + i + len] == b[3 + i + len]);
                            assert(c[3 + i + len + 1] == b[3 + i + len + 1]);
                            assert(c.subrange(3 + i, 3 + i + len) =~= b.subrange(
                                3 + i,
                                3 + i + len,
                            ));
                        }
                    }
                }
                if b[0] == M_ARRAY {
                    if lt != seq![M_ERR, 49u8] && all_digits(lt) && lt.len() >= 1 && val_of(lt)
                        <= LEN_CAP && 0 <= i && 3 + i <= b.len() {
                        assert(c.skip(3 + i) =~= b.skip(3 + i) + ext);
                        lemma_parse2_elems_mono(b.skip(3 + i), ext, val_of(lt));
                    }
                }
            },
            _ => {},
        }
    }
}

pub proof fn lemma_parse2_elems_mono(b: Seq<u8>, ext: Seq<u8>, n: int)
    ensures
        parse2_elems(b, n) matches Ok(Some(p)) ==> parse2_elems(b + ext, n) == Ok::<
            Option<(Seq<Frame2V>, int)>,
            RedisError,
        >(Some(p)),
        parse2_elems(b, n) is Err ==> parse2_elems(b + ext, n) == parse2_elems(b, n),
    decreases b.len(), 1int, n,
{
    if n > 0 {
        lemma_parse2_mono(b, ext);
        lemma_parse2_bounds(b);
        match parse2(b) {
            Ok(Some((f, k))) => {
                assert((b + ext).skip(k) =~= b.skip(k) + ext);
                lemma_parse2_elems_mono(b.skip(k), ext, n - 1);
            },
            _ => {},
        }
    }
}

/// The RESP3 analogue: only an incomplete parse can change when bytes arrive.
#[verifier::rlimit(100)]
pub proof fn lemma_parse3_mono(b: Seq<u8>, ext: Seq<u8>)
    ensures
        parse3(b) matches Ok(Some(p)) ==> parse3(b + ext) == Ok::<
            Option<(Frame3V, int)>,
            RedisError,
        >(Some(p)),
        parse3(b) is Err ==> parse3(b + ext) == parse3(b),
    decreases b.len(), 0int, 0int,
{
    if b.len() > 0 {
        let c = b + ext;
        assert(c[0] == b[0]);
        assert(c.drop_first() =~= b.drop_first() + ext);
        crate::text::lemma_scan_line_mono(b.drop_first(), ext);
        lemma_scan_line(b.drop_first());
        match scan_line(b.drop_first()) {
            Ok(Some(i)) => {
                assert(c.subrange(1, 1 + i) =~= b.subrange(1, 1 + i));
                let lt = b.subrange(1, 1 + i);
                if all_digits(lt) {
                    crate::text::lemma_val_nonneg(lt);
                }
                if b[0] == M_BULK || b[0] == M_BLOBERR || b[0] == M_VERBATIM {
                    if all_digits(lt) && lt.len() >= 1 && val_of(lt) <= LEN_CAP {
                        let len = val_of(lt);
                        if b.len() >= 3 + i + len + 2 {
                            assert(c[3 + i + len] == b[3 + i + len]);
                            assert(c[3 + i + len + 1] == b[3 + i + len + 1]);
                            assert(c.subrange(3 + i, 3 + i + len) =~= b.subrange(
                                3 + i,
                                3 + i + len,
                            ));
                        }
                    }
                }
                if b[0] == M_ARRAY || b[0] == M_SET || b[0] == M_PUSH {
                    if all_digits(lt) && lt.len() >= 1 && val_of(lt) <= LEN_CAP && 0 <= i && 3 + i
                        <= b.len() {
                        assert(c.skip(3 + i) =~= b.skip(3 + i) + ext);
                        lemma_parse3_elems_mono(b.skip(3 + i), ext, val_of(lt));
                    }
                }
                if b[0] == M_MAP {
                    if all_digits(lt) && lt.len() >= 1 && val_of(lt) <= LEN_CAP && 0 <= i && 3 + i
                        <= b.len() {
                        assert(c.skip(3 + i) =~= b.skip(3 + i) + ext);
                        lemma_parse3_pairs_mono(b.skip(3 + i), ext, val_of(lt));
                    }
                }
            },
            _ => {},
        }
    }
}

pub proof fn lemma_parse3_elems_mono(b: Seq<u8>, ext: Seq<u8>, n: int)
    ensures
        parse3_elems(b, n) matches Ok(Some(p)) ==> parse3_elems(b + ext, n) == Ok::<
            Option<(Seq<Frame3V>, int)>,
            RedisError,
        >(Some(p)),
        parse3_elems(b, n) is Err ==> parse3_elems(b + ext, n) == parse3_elems(b, n),
    decreases b.len(), 1int, n,
{
    if n > 0 {
        lemma_parse3_mono(b, ext);
        lemma_parse3_bounds(b);
        match parse3(b) {
            Ok(Some((f, k))) => {
                assert((b + ext).skip(k) =~= b.skip(k) + ext);
                lemma_parse3_elems_mono(b.skip(k), ext, n - 1);
            },
            _ => {},
        }
    }
}

pub proof fn lemma_parse3_pairs_mono(b: Seq<u8>, ext: Seq<u8>, n: int)
    ensures
        parse3_pairs(b, n) matches Ok(Some(p)) ==> parse3_pairs(b + ext, n) == Ok::<
            Option<(Seq<(Frame3V, Frame3V)>, int)>,
            RedisError,
        >(Some(p)),
        parse3_pairs(b, n) is Err ==> parse3_pairs(b + ext, n) == parse3_pairs(b, n),
    decreases b.len(), 2int, n,
{
    if n > 0 {
        lemma_parse3_mono(b, ext);
        lemma_parse3_bounds(b);
        match parse3(b) {
            Ok(Some((key, k1))) => {
                assert((b + ext).skip(k1) =~= b.skip(k1) + ext);
                lemma_parse3_mono(b.skip(k1), ext);
                lemma_parse3_bounds(b.skip(k1));
                match parse3(b.skip(k1)) {
                    Ok(Some((value, k2))) => {
                        if k2 >= 1 && k1 + k2 <= b.len() {
                            assert(b.skip(k1).skip(k2) =~= b.skip(k1 + k2));
                            assert((b + ext).skip(k1 + k2) =~= b.skip(k1 + k2) + ext);
                            lemma_parse3_pairs_mono(b.skip(k1 + k2), ext, n - 1);
                        }
                    },
                    _ => {},
                }
            },
            _ => {},
        }
    }
}

/// Round trip: the decoder reads back exactly the frame the encoder wrote,
/// consuming exactly its bytes, whatever bytes follow.
pub proof fn lemma_rt2(f: Frame2V, rest: Seq<u8>)
    requires
        crate::encode::wf2(f),
    ensures
        parse2(crate::encode::enc2(f) + rest) == Ok::<Option<(Frame2V, int)>, RedisError>(
            Some((f, crate::encode::enc2(f).len() as int)),
        ),
    decreases f,
{
    let e = crate::encode::enc2(f);
    let b = e + rest;
    let bd = b.drop_first();
    match f {
        Frame2V::SimpleString(sv) => {
            assert(bd =~= sv + crate::encode::crlf() + rest);
            assert(b[0] == M_SIMPLE);
            lemma_scan_line_found(bd, sv.len() as int);
            assert(b.subrange(1, 1 + sv.len() as int) =~= sv);
        },
        Frame2V::Error(sv) => {
            assert(bd =~= sv + crate::encode::crlf() + rest);
            assert(b[0] == M_ERR);
            lemma_scan_line_found(bd, sv.len() as int);
            assert(b.subrange(1, 1 + sv.len() as int) =~= sv);
        },
        Frame2V::Integer(v) => {
            let t = crate::text::int_text(v);
            crate::text::lemma_int_text_roundtrip(v);
            assert(bd =~= t + crate::encode::crlf() + rest);
            assert(b[0] == M_INT);
            lemma_scan_line_found(bd, t.len() as int);
            assert(b.subrange(1, 1 + t.len() as int) =~= t);
        },
        Frame2V::BulkString(sv) => {
            let lt = dec_u(sv.len());
            crate::text::lemma_dec_u(sv.len());
            let i = lt.len() as int;
            assert(bd =~= lt + crate::encode::crlf() + sv + crate::encode::crlf() + rest);
            assert(b[0] == M_BULK);
            assert(forall|k: int| 0 <= k < i ==> bd[k] == #[trigger] lt[k]);
            lemma_scan_line_found(bd, i);
            assert(b.subrange(1, 1 + i) =~= lt);
            assert(lt[0] != M_ERR);
            assert(b.subrange(1, 1 + i) != seq![M_ERR, 49u8]);
            let len = sv.len() as int;
            assert(b.len() >= 3 + i + len + 2);
            assert(b[3 + i + len] == CR && b[3 + i + len + 1] == LF);
            assert(b.subrange(3 + i, 3 + i + len) =~= sv);
            assert(e.len() == 3 + i + len + 2);
        },
        Frame2V::Null => {
            assert(bd =~= seq![M_ERR, 49u8, CR, LF] + rest);
            assert(b[0] == M_BULK);
            lemma_scan_line_found(bd, 2);
            assert(b.subrange(1, 3) =~= seq![M_ERR, 49u8]);
            assert(e.len() == 5);
        },
        Frame2V::Array(v) => {
            let lt = dec_u(v.len());
            crate::text::lemma_dec_u(v.len());
            let i = lt.len() as int;
            assert(bd =~= lt + crate::encode::crlf() + crate::encode::enc2s(v) + rest);
            assert(b[0] == M_ARRAY);
            assert(forall|k: int| 0 <= k < i ==> bd[k] == #[trigger] lt[k]);
            lemma_scan_line_found(bd, i);
            assert(b.subrange(1, 1 + i) =~= lt);
            assert(lt[0] != M_ERR);
            assert(b.subrange(1, 1 + i) != seq![M_ERR, 49u8]);
            assert(b.skip(3 + i) =~= crate::encode::enc2s(v) + rest);
            lemma_rt2s(v, rest);
            assert(e.len() == 3 + i + crate::encode::enc2s(v).len());
        },
    }
}

/// Round trip for a run of frames, element by element.
pub proof fn lemma_rt2s(s: Seq<Frame2V>, rest: Seq<u8>)
    requires
        crate::encode::wf2s(s),
    ensures
        parse2_elems(crate::encode::enc2s(s) + rest, s.len() as int) == Ok::<
            Option<(Seq<Frame2V>, int)>,
            RedisError,
        >(Some((s, crate::encode::enc2s(s).len() as int))),
    decreases s,
{
    let e = crate::encode::enc2s(s);
    let b = e + rest;
    if s.len() == 0 {
        assert(parse2_elems(b, 0) == Ok::<Option<(Seq<Frame2V>, int)>, RedisError>(
            Some((Seq::empty(), 0)),
        ));
        assert(s =~= Seq::<Frame2V>::empty());
        assert(e =~= Seq::<u8>::empty());
    } else {
        let h = s[0];
        let t = s.drop_first();
        let eh = crate::encode::enc2(h);
        assert(b =~= eh + (crate::encode::enc2s(t) + rest));
        lemma_rt2(h, crate::encode::enc2s(t) + rest);
        lemma_parse2_bounds(b);
        let k0 = eh.len() as int;
        assert(b.skip(k0) =~= crate::encode::enc2s(t) + rest);
        lemma_rt2s(t, rest);
        assert(seq![h] + t =~= s);
        assert(e.len() == k0 + crate::encode::enc2s(t).len());
    }
}

/// Round trip: the RESP3 decoder reads back exactly the frame the RESP3
/// encoder wrote, consuming exactly its bytes, whatever bytes follow.
pub proof fn lemma_rt3(f: Frame3V, rest: Seq<u8>)
    requires
        crate::encode::wf3(f),
    ensures
        parse3(crate::encode::enc3(f) + rest) == Ok::<Option<(Frame3V, int)>, RedisError>(
            Some((f, crate::encode::enc3(f).len() as int)),
        ),
    decreases f,
{
    let e = crate::encode::enc3(f);
    let b = e + rest;
    let bd = b.drop_first();
    match f {
        Frame3V::SimpleString(sv) => {
            assert(bd =~= sv + crate::encode::crlf() + rest);
            assert(b[0] == M_SIMPLE);
            lemma_scan_line_found(bd, sv.len() as int);
            assert(b.subrange(1, 1 + sv.len() as int) =~= sv);
        },
        Frame3V::SimpleError(sv) => {
            assert(bd =~= sv + crate::encode::crlf() + rest);
            assert(b[0] == M_ERR);
            lemma_scan_line_found(bd, sv.len() as int);
            assert(b.subrange(1, 1 + sv.len() as int) =~= sv);
        },
        Frame3V::Number(v) => {
            let t = crate::text::int_text(v);
            crate::text::lemma_int_text_roundtrip(v);
            assert(bd =~= t + crate::encode::crlf() + rest);
            assert(b[0] == M_INT);
            lemma_scan_line_found(bd, t.len() as int);
            assert(b.subrange(1, 1 + t.len() as int) =~= t);
        },
        Frame3V::Double(sv) => {
            assert(bd =~= sv + crate::encode::crlf() + rest);
            assert(b[0] == M_DOUBLE);
            lemma_scan_line_found(bd, sv.len() as int);
            assert(b.subrange(1, 1 + sv.len() as int) =~= sv);
        },
        Frame3V::Boolean(tv) => {
            let c: u8 = if tv {
                116
            } else {
                102
            };
            assert(bd =~= seq![c, CR, LF] + rest);
            assert(b[0] == M_BOOL);
            lemma_scan_line_found(bd, 1);
            assert(b.subrange(1, 2) =~= seq![c]);
            assert(e.len() == 4);
        },
        Frame3V::BigNumber(sv) => {
            assert(bd =~= sv + crate::encode::crlf() + rest);
            assert(b[0] == M_BIGNUM);
            lemma_scan_line_found(bd, sv.len() as int);
            assert(b.subrange(1, 1 + sv.len() as int) =~= sv);
        },
        Frame3V::BlobString(sv) => {
            lemma_rt3_blob(M_BULK, sv, rest);
        },
        Frame3V::BlobError(sv) => {
            lemma_rt3_blob(M_BLOBERR, sv, rest);
        },
        Frame3V::VerbatimString(sv) => {
            lemma_rt3_blob(M_VERBATIM, sv, rest);
        },
        Frame3V::Null => {
            assert(bd =~= seq![CR, LF] + rest);
            assert(b[0] == M_NULL);
            lemma_scan_line_found(bd, 0);
            assert(b.subrange(1, 1).len() == 0);
            assert(e.len() == 3);
        },
        Frame3V::Array(v) => {
            lemma_rt3_agg_header(M_ARRAY, v.len(), crate::encode::enc3s(v), rest);
            lemma_rt3s(v, rest);
        },
        Frame3V::SetFrame(v) => {
            lemma_rt3_agg_header(M_SET, v.len(), crate::encode::enc3s(v), rest);
            lemma_rt3s(v, rest);
        },
        Frame3V::Push(v) => {
            lemma_rt3_agg_header(M_PUSH, v.len(), crate::encode::enc3s(v), rest);
            lemma_rt3s(v, rest);
        },
        Frame3V::MapFrame(v) => {
            lemma_rt3_agg_header(M_MAP, v.len(), crate::encode::enc3ps(v), rest);
            lemma_rt3ps(v, rest);
        },
    }
}

/// Facts about an aggregate header followed by a body: the scan finds the
/// count line, the count reads back, and the remainder after the header is
/// the body.
pub proof fn lemma_rt3_agg_header(m: u8, n: nat, body: Seq<u8>, rest: Seq<u8>)
    ensures
        ({
            let b = crate::encode::wire_header(m, n) + body + rest;
            let i = dec_u(n).len() as int;
            &&& scan_line(b.drop_first()) == Ok::<Option<int>, RedisError>(Some(i))
            &&& b.subrange(1, 1 + i) == dec_u(n)
            &&& all_digits(dec_u(n))
            &&& dec_u(n).len() >= 1
            &&& val_of(dec_u(n)) == n
            &&& b.subrange(1, 1 + i) != seq![M_ERR, 49u8]
            &&& b[0] == m
            &&& 3 + i <= b.len()
            &&& b.skip(3 + i) == body + rest
            &&& b.len() == 3 + i + body.len() + rest.len()
        }),
{
    let b = crate::encode::wire_header(m, n) + body + rest;
    let bd = b.drop_first();
    let lt = dec_u(n);
    crate::text::lemma_dec_u(n);
    let i = lt.len() as int;
    assert(bd =~= lt + crate::encode::crlf() + body + rest);
    assert(forall|k: int| 0 <= k < i ==> bd[k] == #[trigger] lt[k]);
    lemma_scan_line_found(bd, i);
    assert(b.subrange(1, 1 + i) =~= lt);
    assert(lt[0] != M_ERR);
    assert(b.subrange(1, 1 + i) != seq![M_ERR, 49u8]);
    assert(b.skip(3 + i) =~= body + rest);
}

/// Round trip for one blob-shaped RESP3 frame.
proof fn lemma_rt3_blob(m: u8, sv: Seq<u8>, rest: Seq<u8>)
    requires
        m == M_BULK || m == M_BLOBERR || m == M_VERBATIM,
        sv.len() <= crate::encode::LEN_CAP,
    ensures
        ({
            let f = if m == M_BULK {
                Frame3V::BlobString(sv)
            } else if m == M_BLOBERR {
                Frame3V::BlobError(sv)
            } else {
                Frame3V::VerbatimString(sv)
            };
            parse3(crate::encode::wire_blob(m, sv) + rest) == Ok::<
                Option<(Frame3V, int)>,
                RedisError,
            >(Some((f, crate::encode::wire_blob(m, sv).len() as int)))
        }),
{
    let e = crate::encode::wire_blob(m, sv);
    let b = e + rest;
    let bd = b.drop_first();
    let lt = dec_u(sv.len());
    crate::text::lemma_dec_u(sv.len());
    let i = lt.len() as int;
    assert(bd =~= lt + crate::encode::crlf() + sv + crate::encode::crlf() + rest);
    assert(b[0] == m);
    assert(forall|k: int| 0 <= k < i ==> bd[k] == #[trigger] lt[k]);
    lemma_scan_line_found(bd, i);
    assert(b.subrange(1, 1 + i) =~= lt);
    let len = sv.len() as int;
    assert(b.len() >= 3 + i + len + 2);
    assert(b[3 + i + len] == CR && b[3 + i + len + 1] == LF);
    assert(b.subrange(3 + i, 3 + i + len) =~= sv);
    assert(e.len() == 3 + i + len + 2);
}

/// Round trip for a run of RESP3 frames, element by element.
pub proof fn lemma_rt3s(s: Seq<Frame3V>, rest: Seq<u8>)
    requires
        crate::encode::wf3s(s),
    ensures
        parse3_elems(crate::encode::enc3s(s) + rest, s.len() as int) == Ok::<
            Option<(Seq<Frame3V>, int)>,
            RedisError,
        >(Some((s, crate::encode::enc3s(s).len() as int))),
    decreases s,
{
    let e = crate::encode::enc3s(s);
    let b = e + rest;
    if s.len() == 0 {
        assert(s =~= Seq::<Frame3V>::empty());
        assert(e =~= Seq::<u8>::empty());
    } else {
        let h = s[0];
        let t = s.drop_first();
        let eh = crate::encode::enc3(h);
        assert(b =~= eh + (crate::encode::enc3s(t) + rest));
        lemma_rt3(h, crate::encode::enc3s(t) + rest);
        lemma_parse3_bounds(b);
        let k0 = eh.len() as int;
        assert(b.skip(k0) =~= crate::encode::enc3s(t) + rest);
        lemma_rt3s(t, rest);
        assert(seq![h] + t =~= s);
        assert(e.len() == k0 + crate::encode::enc3s(t).len());
    }
}

/// Round trip for a run of RESP3 key-value pairs.
pub proof fn lemma_rt3ps(s: Seq<(Frame3V, Frame3V)>, rest: Seq<u8>)
    requires
        crate::encode::wf3ps(s),
    ensures
        parse3_pairs(crate::encode::enc3ps(s) + rest, s.len() as int) == Ok::<
            Option<(Seq<(Frame3V, Frame3V)>, int)>,
            RedisError,
        >(Some((s, crate::encode::enc3ps(s).len() as int))),
    decreases s,
{
    let e = crate::encode::enc3ps(s);
    let b = e + rest;
    if s.len() == 0 {
        assert(s =~= Seq::<(Frame3V, Frame3V)>::empty());
        assert(e =~= Seq::<u8>::empty());
    } else {
        let h = s[0];
        let t = s.drop_first();
        let ek = crate::encode::enc3(h.0);
        let ev = crate::encode::enc3(h.1);
        assert(b =~= ek + (ev + (crate::encode::enc3ps(t) + rest)));
        lemma_rt3(h.0, ev + (crate::encode::enc3ps(t) + rest));
        lemma_parse3_bounds(b);
        let k1 = ek.len() as int;
        assert(b.skip(k1) =~= ev + (crate::encode::enc3ps(t) + rest));
        lemma_rt3(h.1, crate::encode::enc3ps(t) + rest);
        lemma_parse3_bounds(b.skip(k1));
        let k2 = ev.len() as int;
        assert(b.skip(k1 + k2) =~= crate::encode::enc3ps(t) + rest) by {
            assert(b.skip(k1).skip(k2) =~= b.skip(k1 + k2));
            assert(b.skip(k1).skip(k2) =~= crate::encode::enc3ps(t) + rest);
        }
        lemma_rt3ps(t, rest);
        assert(seq![(h.0, h.1)] + t =~= s);
        assert(e.len() == k1 + k2 + crate::encode::enc3ps(t).len());
    }
}

/// How an executable parse result corresponds to the parse of a byte model.
pub open spec fn p2_matches(
    r: Result<Option<(Resp2Frame, usize)>, RedisError>,
    s: Result<Option<(Frame2V, int)>, RedisError>,
) -> bool {
    match (r, s) {
        (Ok(None), Ok(None)) => true,
        (Ok(Some((f, k))), Ok(Some((fv, kv)))) => v2(f) == fv && k as int == kv,
        (Err(a), Err(e)) => a == e,
        _ => false,
    }
}

pub open spec fn p2s_matches(
    r: Result<Option<(Vec<Resp2Frame>, usize)>, RedisError>,
    s: Result<Option<(Seq<Frame2V>, int)>, RedisError>,
) -> bool {
    match (r, s) {
        (Ok(None), Ok(None)) => true,
        (Ok(Some((v, k))), Ok(Some((sv, kv)))) => crate::frame::v2s(v@) == sv && k as int == kv,
        (Err(a), Err(e)) => a == e,
        _ => false,
    }
}

pub open spec fn p3_matches(
    r: Result<Option<(Resp3Frame, usize)>, RedisError>,
    s: Result<Option<(Frame3V, int)>, RedisError>,
) -> bool {
    match (r, s) {
        (Ok(None), Ok(None)) => true,
        (Ok(Some((f, k))), Ok(Some((fv, kv)))) => v3(f) == fv && k as int == kv,
        (Err(a), Err(e)) => a == e,
        _ => false,
    }
}

pub open spec fn p3s_matches(
    r: Result<Option<(Vec<Resp3Frame>, usize)>, RedisError>,
    s: Result<Option<(Seq<Frame3V>, int)>, RedisError>,
) -> bool {
    match (r, s) {
        (Ok(None), Ok(None)) => true,
        (Ok(Some((v, k))), Ok(Some((sv, kv)))) => crate::frame::v3s(v@) == sv && k as int == kv,
        (Err(a), Err(e)) => a == e,
        _ => false,
    }
}

pub open spec fn p3ps_matches(
    r: Result<Option<(Vec<(Resp3Frame, Resp3Frame)>, usize)>, RedisError>,
    s: Result<Option<(Seq<(Frame3V, Frame3V)>, int)>, RedisError>,
) -> bool {
    match (r, s) {
        (Ok(None), Ok(None)) => true,
        (Ok(Some((v, k))), Ok(Some((sv, kv)))) => crate::frame::v3ps(v@) == sv && k as int == kv,
        (Err(a), Err(e)) => a == e,
        _ => false,
    }
}

/// Copy the bytes of `buf` between `start` and `end` into a fresh buffer.
pub fn copy_range(buf: &Vec<u8>, start: usize, end: usize) -> (r: Vec<u8>)
    requires
        start <= end <= buf@.len(),
    ensures
        r@ == buf@.subrange(start as int, end as int),
{
    let mut out: Vec<u8> = Vec::new();
    let mut j: usize = start;
    while j < end
        invariant
            start <= j <= end <= buf@.len(),
            out@ == buf@.subrange(start as int, j as int),
        decreases end - j,
    {
        out.push(buf[j]);
        proof {
            assert(buf@.subrange(start as int, j + 1 as int) =~= buf@.subrange(
                start as int,
                j as int,
            ).push(buf@[j as int]));
        }
        j = j + 1;
    }
    out
}

/// Read the signed decimal text between `start` and `end` as a wire integer.
fn parse_i64_at(buf: &Vec<u8>, start: usize, end: usize) -> (r: Result<i64, RedisError>)
    requires
        start <= end <= buf@.len(),
    ensures
        ({
            let s = buf@.subrange(start as int, end as int);
            match r {
                Ok(v) => parse_int_text(s) == Some(v as int),
                Err(e) => e == RedisError::Decode && (match parse_int_text(s) {
                    Some(w) => w < i64::MIN || w > i64::MAX,
                    None => true,
                }),
            }
        }),
{
    let ghost s = buf@.subrange(start as int, end as int);
    if start == end {
        return Err(RedisError::Decode);
    }
    if buf[start] == 45 {
        proof {
            assert(s[0] == buf@[start as int]);
            assert(s.drop_first() =~= buf@.subrange(start + 1 as int, end as int));
        }
        match parse_u64_digits(buf, start + 1, end) {
            DigitsVal::NotDigits => Err(RedisError::Decode),
            DigitsVal::TooBig => {
                proof {
                    crate::text::lemma_val_nonneg(s.drop_first());
                }
                Err(RedisError::Decode)
            },
            DigitsVal::Val(mag) => {
                if mag > 9223372036854775808u64 {
                    Err(RedisError::Decode)
                } else if mag == 9223372036854775808u64 {
                    Ok(i64::MIN)
                } else {
                    Ok(-(mag as i64))
                }
            },
        }
    } else {
        proof {
            assert(s[0] == buf@[start as int]);
        }
        match parse_u64_digits(buf, start, end) {
            DigitsVal::NotDigits => Err(RedisError::Decode),
            DigitsVal::TooBig => Err(RedisError::Decode),
            DigitsVal::Val(v) => {
                if v > i64::MAX as u64 {
                    Err(RedisError::Decode)
                } else {
                    Ok(v as i64)
                }
            },
        }
    }
}

/// Parse one complete RESP2 frame standing in `buf` from `pos` on.
#[verifier::rlimit(100)]
pub fn parse2_at(buf: &Vec<u8>, pos: usize) -> (r: Result<
    Option<(Resp2Frame, usize)>,
    RedisError,
>)
    requires
        pos <= buf@.len(),
    ensures
        p2_matches(r, parse2(buf@.skip(pos as int))),
    decreases buf@.len() - pos, 0int, 0int,
{
    let ghost b = buf@.skip(pos as int);
    if pos == buf.len() {
        return Ok(None);
    }
    let m = buf[pos];
    proof {
        assert(b[0] == buf@[pos as int]);
        assert(b.drop_first() =~= buf@.skip(pos + 1 as int));
    }
    if m == M_SIMPLE || m == M_ERR {
        match scan_line_exec(buf, pos + 1) {
            Err(e) => Err(e),
            Ok(None) => Ok(None),
            Ok(Some(i)) => {
                proof {
                    lemma_scan_line(b.drop_first());
                    assert(b.subrange(1, 1 + i as int) =~= buf@.subrange(
                        pos + 1 as int,
                        pos + 1 + i as int,
                    ));
                }
                let content = copy_range(buf, pos + 1, pos + 1 + i);
                if m == M_SIMPLE {
                    Ok(Some((Resp2Frame::SimpleString(content), i + 3)))
                } else {
                    Ok(Some((Resp2Frame::Error(content), i + 3)))
                }
            },
        }
    } else if m == M_INT {
        match scan_line_exec(buf, pos + 1) {
            Err(e) => Err(e),
            Ok(None) => Ok(None),
            Ok(Some(i)) => {
                proof {
                    lemma_scan_line(b.drop_first());
                    assert(b.subrange(1, 1 + i as int) =~= buf@.subrange(
                        pos + 1 as int,
                        pos + 1 + i as int,
                    ));
                }
                match parse_i64_at(buf, pos + 1, pos + 1 + i) {
                    Ok(v) => Ok(Some((Resp2Frame::Integer(v), i + 3))),
                    Err(e) => Err(e),
                }
            },
        }
    } else if m == M_BULK {
        match scan_line_exec(buf, pos + 1) {
            Err(e) => Err(e),
            Ok(None) => Ok(None),
            Ok(Some(i)) => {
                proof {
                    lemma_scan_line(b.drop_first());
                    assert(b.subrange(1, 1 + i as int) =~= buf@.subrange(
                        pos + 1 as int,
                        pos + 1 + i as int,
                    ));
                }
                let ghost lt = b.subrange(1, 1 + i as int);
                if i > 0 && buf[pos + 1] == M_ERR {
                    if i == 2 && buf[pos + 2] == 49 {
                        proof {
                            assert(lt =~= seq![M_ERR, 49u8]);
                        }
                        Ok(Some((Resp2Frame::Null, i + 3)))
                    } else {
                        proof {
                            assert(lt[0] == buf@[pos + 1 as int]);
                            if lt == seq![M_ERR, 49u8] {
                                assert(lt[1] == buf@[pos + 2 as int]);
                                assert(false);
                            }
                            assert(!crate::text::is_digit(lt[0]));
                        }
                        Err(RedisError::Decode)
                    }
                } else {
                    proof {
                        if lt == seq![M_ERR, 49u8] {
                            assert(lt[0] == buf@[pos + 1 as int]);
                            assert(false);
                        }
                    }
                    match parse_u64_digits(buf, pos + 1, pos + 1 + i) {
                        DigitsVal::NotDigits => Err(RedisError::Decode),
                        DigitsVal::TooBig => {
                            proof {
                                crate::text::lemma_val_nonneg(lt);
                            }
                            Err(RedisError::Decode)
                        },
                        DigitsVal::Val(len64) => {
                            if len64 > LEN_CAP {
                                Err(RedisError::Decode)
                            } else {
                                let need: u128 = pos as u128 + 3 + i as u128 + len64 as u128 + 2;
                                if (buf.len() as u128) < need {
                                    Ok(None)
                                } else {
                                    let len = len64 as usize;
                                    let p2 = pos + 3 + i + len;
                                    proof {
                                        assert(b[3 + i + len as int] == buf@[p2 as int]);
                                        assert(b[3 + i + len as int + 1] == buf@[p2 + 1 as int]);
                                    }
                                    if buf[p2] == CR && buf[p2 + 1] == LF {
                                        proof {
                                            assert(b.subrange(3 + i as int, 3 + i + len as int)
                                                =~= buf@.subrange(
                                                pos + 3 + i as int,
                                                p2 as int,
                                            ));
                                        }
                                        let payload = copy_range(buf, pos + 3 + i, p2);
                                        Ok(Some((Resp2Frame::BulkString(payload), i + 3 + len + 2)))
                                    } else {
                                        Err(RedisError::Decode)
                                    }
                                }
                            }
                        },
                    }
                }
            },
        }
    } else if m == M_ARRAY {
        match scan_line_exec(buf, pos + 1) {
            Err(e) => Err(e),
            Ok(None) => Ok(None),
            Ok(Some(i)) => {
                proof {
                    lemma_scan_line(b.drop_first());
                    assert(b.subrange(1, 1 + i as int) =~= buf@.subrange(
                        pos + 1 as int,
                        pos + 1 + i as int,
                    ));
                }
                let ghost lt = b.subrange(1, 1 + i as int);
                if i > 0 && buf[pos + 1] == M_ERR {
                    if i == 2 && buf[pos + 2] == 49 {
                        proof {
                            assert(lt =~= seq![M_ERR, 49u8]);
                        }
                        Ok(Some((Resp2Frame::Null, i + 3)))
                    } else {
                        proof {
                            assert(lt[0] == buf@[pos + 1 as int]);
                            if lt == seq![M_ERR, 49u8] {
                                assert(lt[1] == buf@[pos + 2 as int]);
                                assert(false);
                            }
                            assert(!crate::text::is_digit(lt[0]));
                        }
                        Err(RedisError::Decode)
                    }
                } else {
                    proof {
                        if lt == seq![M_ERR, 49u8] {
                            assert(lt[0] == buf@[pos + 1 as int]);
                            assert(false);
                        }
                    }
                    match parse_u64_digits(buf, pos + 1, pos + 1 + i) {
                        DigitsVal::NotDigits => Err(RedisError::Decode),
                        DigitsVal::TooBig => {
                            proof {
                                crate::text::lemma_val_nonneg(lt);
                            }
                            Err(RedisError::Decode)
                        },
                        DigitsVal::Val(n64) => {
                            if n64 > LEN_CAP {
                                Err(RedisError::Decode)
                            } else {
                                proof {
                                    assert(b.skip(3 + i as int) =~= buf@.skip(pos + 3 + i as int));
                                }
                                match parse2_elems_at(buf, pos + 3 + i, n64 as usize) {
                                    Err(e) => Err(e),
                                    Ok(None) => Ok(None),
                                    Ok(Some((elems, k))) => {
                                        proof {
                                            lemma_parse2_elems_bounds(
                                                b.skip(3 + i as int),
                                                n64 as int,
                                            );
                                        }
                                        Ok(Some((Resp2Frame::Array(elems), i + 3 + k)))
                                    },
                                }
                            }
                        },
                    }
                }
            },
        }
    } else if m == M_DOUBLE || m == M_BOOL || m == M_BIGNUM || m == M_BLOBERR || m == M_VERBATIM
        || m == M_NULL || m == M_SET || m == M_MAP || m == M_PUSH {
        Err(RedisError::ProtocolMismatch)
    } else {
        Err(RedisError::Decode)
    }
}

/// Parse one line-shaped RESP3 frame (simple string or error, double, big
/// number, boolean, null) standing in `buf` from `pos` on.
#[verifier::rlimit(100)]
fn parse3_line_family(m: u8, buf: &Vec<u8>, pos: usize) -> (r: Result<
    Option<(Resp3Frame, usize)>,
    RedisError,
>)
    requires
        pos < buf@.len(),
        buf@[pos as int] == m,
        m == M_SIMPLE || m == M_ERR || m == M_DOUBLE || m == M_BIGNUM || m == M_BOOL || m
            == M_NULL,
    ensures
        p3_matches(r, parse3(buf@.skip(pos as int))),
    decreases buf@.len() - pos, 0int, 0int,
{
    let ghost b = buf@.skip(pos as int);
    let total: usize = buf.len();
    proof {
        assert(b[0] == buf@[pos as int]);
        assert(b.drop_first() =~= buf@.skip(pos + 1 as int));
    }
    match scan_line_exec(buf, pos + 1) {
        Err(e) => Err(e),
        Ok(None) => Ok(None),
        Ok(Some(i)) => {
            proof {
                lemma_scan_line(b.drop_first());
                assert(b.subrange(1, 1 + i as int) =~= buf@.subrange(
                    pos + 1 as int,
                    pos + 1 + i as int,
                ));
            }
            let ghost content = b.subrange(1, 1 + i as int);
            if m == M_SIMPLE || m == M_ERR {
                let payload = copy_range(buf, pos + 1, pos + 1 + i);
                if m == M_SIMPLE {
                    Ok(Some((Resp3Frame::SimpleString(payload), i + 3)))
                } else {
                    Ok(Some((Resp3Frame::SimpleError(payload), i + 3)))
                }
            } else if m == M_DOUBLE || m == M_BIGNUM {
                if i >= 1 {
                    let payload = copy_range(buf, pos + 1, pos + 1 + i);
                    if m == M_DOUBLE {
                        Ok(Some((Resp3Frame::Double(payload), i + 3)))
                    } else {
                        Ok(Some((Resp3Frame::BigNumber(payload), i + 3)))
                    }
                } else {
                    Err(RedisError::Decode)
                }
            } else if m == M_BOOL {
                if i == 1 && buf[pos + 1] == 116 {
                    proof {
                        assert(content =~= seq![116u8]);
                    }
                    Ok(Some((Resp3Frame::Boolean(true), i + 3)))
                } else if i == 1 && buf[pos + 1] == 102 {
                    proof {
                        assert(content =~= seq![102u8]);
                    }
                    Ok(Some((Resp3Frame::Boolean(false), i + 3)))
                } else {
                    proof {
                        if content == seq![116u8] || content == seq![102u8] {
                            assert(content.len() == 1);
                            assert(content[0] == buf@[pos + 1 as int]);
                            assert(false);
                        }
                    }
                    Err(RedisError::Decode)
                }
            } else {
                if i == 0 {
                    Ok(Some((Resp3Frame::Null, i + 3)))
                } else {
                    Err(RedisError::Decode)
                }
            }
        },
    }
}

/// Parse one blob-shaped RESP3 frame (blob string, blob error, verbatim
/// string) standing in `buf` from `pos` on.
#[verifier::rlimit(100)]
fn parse3_blob_family(m: u8, buf: &Vec<u8>, pos: usize) -> (r: Result<
    Option<(Resp3Frame, usize)>,
    RedisError,
>)
    requires
        pos < buf@.len(),
        buf@[pos as int] == m,
        m == M_BULK || m == M_BLOBERR || m == M_VERBATIM,
    ensures
        p3_matches(r, parse3(buf@.skip(pos as int))),
    decreases buf@.len() - pos, 0int, 0int,
{
    let ghost b = buf@.skip(pos as int);
    let total: usize = buf.len();
    proof {
        assert(b[0] == buf@[pos as int]);
        assert(b.drop_first() =~= buf@.skip(pos + 1 as int));
    }
    match scan_line_exec(buf, pos + 1) {
        Err(e) => Err(e),
        Ok(None) => Ok(None),
        Ok(Some(i)) => {
            proof {
                lemma_scan_line(b.drop_first());
                assert(b.subrange(1, 1 + i as int) =~= buf@.subrange(
                    pos + 1 as int,
                    pos + 1 + i as int,
                ));
            }
            let ghost lt = b.subrange(1, 1 + i as int);
            match parse_u64_digits(buf, pos + 1, pos + 1 + i) {
                DigitsVal::NotDigits => Err(RedisError::Decode),
                DigitsVal::TooBig => {
                    proof {
                        crate::text::lemma_val_nonneg(lt);
                    }
                    Err(RedisError::Decode)
                },
                DigitsVal::Val(len64) => {
                    if len64 > LEN_CAP {
                        Err(RedisError::Decode)
                    } else {
                        let need: u128 = pos as u128 + 3 + i as u128 + len64 as u128 + 2;
                        if (buf.len() as u128) < need {
                            Ok(None)
                        } else {
                            let len = len64 as usize;
                            let p2 = pos + 3 + i + len;
                            proof {
                                assert(b[3 + i + len as int] == buf@[p2 as int]);
                                assert(b[3 + i + len as int + 1] == buf@[p2 + 1 as int]);
                            }
                            if buf[p2] == CR && buf[p2 + 1] == LF {
                                proof {
                                    assert(b.subrange(3 + i as int, 3 + i + len as int)
                                        =~= buf@.subrange(pos + 3 + i as int, p2 as int));
                                }
                                let payload = copy_range(buf, pos + 3 + i, p2);
                                if m == M_BULK {
                                    Ok(Some((Resp3Frame::BlobString(payload), i + 3 + len + 2)))
                                } else if m == M_BLOBERR {
                                    Ok(Some((Resp3Frame::BlobError(payload), i + 3 + len + 2)))
                                } else {
                                    Ok(
                                        Some(
                                            (Resp3Frame::VerbatimString(payload), i + 3 + len + 2),
                                        ),
                                    )
                                }
                            } else {
                                Err(RedisError::Decode)
                            }
                        }
                    }
                },
            }
        },
    }
}

/// Parse one complete RESP3 frame standing in `buf` from `pos` on.
pub fn parse3_at(buf: &Vec<u8>, pos: usize) -> (r: Result<
    Option<(Resp3Frame, usize)>,
    RedisError,
>)
    requires
        pos <= buf@.len(),
    ensures
        p3_matches(r, parse3(buf@.skip(pos as int))),
    decreases buf@.len() - pos, 1int, 0int,
{
    let ghost b = buf@.skip(pos as int);
    if pos == buf.len() {
        return Ok(None);
    }
    let m = buf[pos];
    proof {
        assert(b[0] == buf@[pos as int]);
        assert(b.drop_first() =~= buf@.skip(pos + 1 as int));
    }
    if m == M_SIMPLE || m == M_ERR || m == M_DOUBLE || m == M_BIGNUM || m == M_BOOL || m
        == M_NULL {
        parse3_line_family(m, buf, pos)
    } else if m == M_INT {
        match scan_line_exec(buf, pos + 1) {
            Err(e) => Err(e),
            Ok(None) => Ok(None),
            Ok(Some(i)) => {
                proof {
                    lemma_scan_line(b.drop_first());
                    assert(b.subrange(1, 1 + i as int) =~= buf@.subrange(
                        pos + 1 as int,
                        pos + 1 + i as int,
                    ));
                }
                match parse_i64_at(buf, pos + 1, pos + 1 + i) {
                    Ok(v) => Ok(Some((Resp3Frame::Number(v), i + 3))),
                    Err(e) => Err(e),
                }
            },
        }
    } else if m == M_BULK || m == M_BLOBERR || m == M_VERBATIM {
        parse3_blob_family(m, buf, pos)
    } else if m == M_ARRAY || m == M_SET || m == M_PUSH || m == M_MAP {
        match scan_line_exec(buf, pos + 1) {
            Err(e) => Err(e),
            Ok(None) => Ok(None),
            Ok(Some(i)) => {
                proof {
                    lemma_scan_line(b.drop_first());
                    assert(b.subrange(1, 1 + i as int) =~= buf@.subrange(
                        pos + 1 as int,
                        pos + 1 + i as int,
                    ));
                }
                let ghost lt = b.subrange(1, 1 + i as int);
                match parse_u64_digits(buf, pos + 1, pos + 1 + i) {
                    DigitsVal::NotDigits => Err(RedisError::Decode),
                    DigitsVal::TooBig => {
                        proof {
                            crate::text::lemma_val_nonneg(lt);
                        }
                        Err(RedisError::Decode)
                    },
                    DigitsVal::Val(n64) => {
                        if n64 > LEN_CAP {
                            Err(RedisError::Decode)
                        } else {
                            proof {
                                assert(b.skip(3 + i as int) =~= buf@.skip(pos + 3 + i as int));
                            }
                            if m == M_MAP {
                                match parse3_pairs_at(buf, pos + 3 + i, n64 as usize) {
                                    Err(e) => Err(e),
                                    Ok(None) => Ok(None),
                                    Ok(Some((pairs, k))) => {
                                        proof {
                                            lemma_parse3_pairs_bounds(
                                                b.skip(3 + i as int),
                                                n64 as int,
                                            );
                                        }
                                        Ok(Some((Resp3Frame::MapFrame(pairs), i + 3 + k)))
                                    },
                                }
                            } else {
                                match parse3_elems_at(buf, pos + 3 + i, n64 as usize) {
                                    Err(e) => Err(e),
                                    Ok(None) => Ok(None),
                                    Ok(Some((elems, k))) => {
                                        proof {
                                            lemma_parse3_elems_bounds(
                                                b.skip(3 + i as int),
                                                n64 as int,
                                            );
                                        }
                                        if m == M_ARRAY {
                                            Ok(Some((Resp3Frame::Array(elems), i + 3 + k)))
                                        } else if m == M_SET {
                                            Ok(Some((Resp3Frame::SetFrame(elems), i + 3 + k)))
                                        } else {
                                            Ok(Some((Resp3Frame::Push(elems), i + 3 + k)))
                                        }
                                    },
                                }
                            }
                        }
                    },
                }
            },
        }
    } else {
        Err(RedisError::Decode)
    }
}

/// Parse `n` complete RESP3 frames standing in `buf` from `pos` on.
pub fn parse3_elems_at(buf: &Vec<u8>, pos: usize, n: usize) -> (r: Result<
    Option<(Vec<Resp3Frame>, usize)>,
    RedisError,
>)
    requires
        pos <= buf@.len(),
    ensures
        p3s_matches(r, parse3_elems(buf@.skip(pos as int), n as int)),
    decreases buf@.len() - pos, 2int, n as int,
{
    let ghost b = buf@.skip(pos as int);
    let total: usize = buf.len();
    if n == 0 {
        return Ok(Some((Vec::new(), 0)));
    }
    match parse3_at(buf, pos) {
        Err(e) => Err(e),
        Ok(None) => Ok(None),
        Ok(Some((f, k))) => {
            proof {
                lemma_parse3_bounds(b);
                assert(1 <= k as int <= b.len());
                assert(b.len() == buf@.len() - pos);
                assert(b.skip(k as int) =~= buf@.skip(pos + k as int));
            }
            match parse3_elems_at(buf, pos + k, n - 1) {
                Err(e) => Err(e),
                Ok(None) => Ok(None),
                Ok(Some((rest, k2))) => {
                    proof {
                        lemma_parse3_elems_bounds(b.skip(k as int), n - 1 as int);
                        assert(k2 as int <= b.skip(k as int).len());
                        assert(k as int + k2 as int <= b.len());
                    }
                    let ghost rest0 = rest@;
                    let mut rest = rest;
                    rest.insert(0, f);
                    proof {
                        assert(rest@ =~= seq![f] + rest0);
                        assert(crate::frame::v3s(rest@) =~= seq![v3(f)] + crate::frame::v3s(
                            rest0,
                        )) by {
                            assert(rest@[0] == f);
                            assert(rest@.drop_first() =~= rest0);
                        }
                    }
                    Ok(Some((rest, k + k2)))
                },
            }
        },
    }
}

/// Parse `n` complete key-value pairs of RESP3 frames standing in `buf`
/// from `pos` on.
pub fn parse3_pairs_at(buf: &Vec<u8>, pos: usize, n: usize) -> (r: Result<
    Option<(Vec<(Resp3Frame, Resp3Frame)>, usize)>,
    RedisError,
>)
    requires
        pos <= buf@.len(),
    ensures
        p3ps_matches(r, parse3_pairs(buf@.skip(pos as int), n as int)),
    decreases buf@.len() - pos, 2int, n as int,
{
    let ghost b = buf@.skip(pos as int);
    let total: usize = buf.len();
    if n == 0 {
        return Ok(Some((Vec::new(), 0)));
    }
    match parse3_at(buf, pos) {
        Err(e) => Err(e),
        Ok(None) => Ok(None),
        Ok(Some((key, k1))) => {
            proof {
                lemma_parse3_bounds(b);
                assert(1 <= k1 as int <= b.len());
                assert(b.len() == buf@.len() - pos);
                assert(b.skip(k1 as int) =~= buf@.skip(pos + k1 as int));
            }
            match parse3_at(buf, pos + k1) {
                Err(e) => Err(e),
                Ok(None) => Ok(None),
                Ok(Some((value, k2))) => {
                    proof {
                        lemma_parse3_bounds(b.skip(k1 as int));
                        assert(1 <= k2 as int <= b.skip(k1 as int).len());
                        assert(b.skip(k1 as int).skip(k2 as int) =~= buf@.skip(
                            pos + k1 + k2 as int,
                        ));
                        assert(b.skip(k1 + k2 as int) =~= buf@.skip(pos + k1 + k2 as int));
                    }
                    match parse3_pairs_at(buf, pos + k1 + k2, n - 1) {
                        Err(e) => Err(e),
                        Ok(None) => Ok(None),
                        Ok(Some((rest, k3))) => {
                            proof {
                                lemma_parse3_pairs_bounds(b.skip(k1 + k2 as int), n - 1 as int);
                                assert(k3 as int <= b.skip(k1 + k2 as int).len());
                                assert(k1 as int + k2 as int + k3 as int <= b.len());
                            }
                            let ghost rest0 = rest@;
                            let mut rest = rest;
                            rest.insert(0, (key, value));
                            proof {
                                assert(rest@ =~= seq![(key, value)] + rest0);
                                assert(crate::frame::v3ps(rest@) =~= seq![(v3(key), v3(value))]
                                    + crate::frame::v3ps(rest0)) by {
                                    assert(rest@[0] == (key, value));
                                    assert(rest@.drop_first() =~= rest0);
                                }
                            }
                            Ok(Some((rest, k1 + k2 + k3)))
                        },
                    }
                },
            }
        },
    }
}

/// Parse `n` complete RESP2 frames standing in `buf` from `pos` on.
pub fn parse2_elems_at(buf: &Vec<u8>, pos: usize, n: usize) -> (r: Result<
    Option<(Vec<Resp2Frame>, usize)>,
    RedisError,
>)
    requires
        pos <= buf@.len(),
    ensures
        p2s_matches(r, parse2_elems(buf@.skip(pos as int), n as int)),
    decreases buf@.len() - pos, 1int, n as int,
{
    let ghost b = buf@.skip(pos as int);
    let total: usize = buf.len();
    if n == 0 {
        return Ok(Some((Vec::new(), 0)));
    }
    match parse2_at(buf, pos) {
        Err(e) => Err(e),
        Ok(None) => Ok(None),
        Ok(Some((f, k))) => {
            proof {
                lemma_parse2_bounds(b);
                assert(1 <= k as int <= b.len());
                assert(b.len() == buf@.len() - pos);
                assert(b.skip(k as int) =~= buf@.skip(pos + k as int));
            }
            match parse2_elems_at(buf, pos + k, n - 1) {
                Err(e) => Err(e),
                Ok(None) => Ok(None),
                Ok(Some((rest, k2))) => {
                    proof {
                        lemma_parse2_elems_bounds(b.skip(k as int), n - 1 as int);
                        assert(k2 as int <= b.skip(k as int).len());
                        assert(k as int + k2 as int <= b.len());
                    }
                    let ghost rest0 = rest@;
                    let mut rest = rest;
                    rest.insert(0, f);
                    proof {
                        assert(rest@ =~= seq![f] + rest0);
                        assert(crate::frame::v2s(rest@) =~= seq![v2(f)] + crate::frame::v2s(
                            rest0,
                        )) by {
                            assert(rest@[0] == f);
                            assert(rest@.drop_first() =~= rest0);
                        }
                    }
                    Ok(Some((rest, k + k2)))
                },
            }
        },
    }
}

} // verus!
