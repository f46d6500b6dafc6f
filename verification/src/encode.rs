//! The encoder: serializes a frame into an outgoing byte buffer, for either
//! protocol generation.

use vstd::prelude::*;
use crate::error::RedisError;
use crate::frame::{
    Frame2V, Frame3V, Resp2Frame, Resp3Frame, lemma_v2s, lemma_v2s_push, lemma_v3ps,
    lemma_v3ps_push, lemma_v3s, lemma_v3s_push, v2, v2s, v3, v3ps, v3s,
};
use crate::text::{CR, LF, dec_u, int_text, push_dec_u, push_int};

verus! {

broadcast use {
    vstd::seq::axiom_seq_index_decreases,
    vstd::std_specs::vec::axiom_vec_index_decreases,
    vstd::std_specs::vec::axiom_vec_decreases_to_view,
};

/// The largest payload or element count that may stand in a declared
/// length on the wire; larger frames cannot be serialized.
pub const LEN_CAP: u64 = 0xFFFF_FFFF;

pub const M_SIMPLE: u8 = 43;  // '+'
pub const M_ERR: u8 = 45;  // '-'
pub const M_INT: u8 = 58;  // ':'
pub const M_BULK: u8 = 36;  // '$'
pub const M_ARRAY: u8 = 42;  // '*'
pub const M_DOUBLE: u8 = 44;  // ','
pub const M_BOOL: u8 = 35;  // '#'
pub const M_BIGNUM: u8 = 40;  // '('
pub const M_BLOBERR: u8 = 33;  // '!'
pub const M_VERBATIM: u8 = 61;  // '='
pub const M_NULL: u8 = 95;  // '_'
pub const M_SET: u8 = 126;  // '~'
pub const M_MAP: u8 = 37;  // '%'
pub const M_PUSH: u8 = 62;  // '>'
pub const M_CHUNK: u8 = 59;  // ';'
pub const M_QUERY: u8 = 63;  // '?'
pub const M_END: u8 = 46;  // '.'

/// Payload text that may stand on a single protocol line: no terminator bytes.
pub open spec fn line_ok(s: Seq<u8>) -> bool {
    forall|i: int| 0 <= i < s.len() ==> #[trigger] s[i] != CR && s[i] != LF
}

pub open spec fn crlf() -> Seq<u8> {
    seq![CR, LF]
}

/// One line-shaped wire element: marker, payload, terminator.
pub open spec fn wire_line(m: u8, payload: Seq<u8>) -> Seq<u8> {
    seq![m] + payload + crlf()
}

/// One blob-shaped wire element: marker, byte count, terminator, payload,
/// terminator.
pub open spec fn wire_blob(m: u8, payload: Seq<u8>) -> Seq<u8> {
    seq![m] + dec_u(payload.len()) + crlf() + payload + crlf()
}

/// Aggregate header: marker, element count, terminator.
pub open spec fn wire_header(m: u8, n: nat) -> Seq<u8> {
    seq![m] + dec_u(n) + crlf()
}

/// Well-formed RESP2-shaped frame: every line payload is free of terminator
/// bytes and every integer fits the wire's signed 64-bit range.
pub open spec fn wf2(f: Frame2V) -> bool
    decreases f,
{
    match f {
        Frame2V::SimpleString(s) => line_ok(s),
        Frame2V::Error(s) => line_ok(s),
        Frame2V::Integer(i) => i64::MIN <= i <= i64::MAX,
        Frame2V::BulkString(s) => s.len() <= LEN_CAP,
        Frame2V::Array(v) => v.len() <= LEN_CAP && wf2s(v),
        Frame2V::Null => true,
    }
}

pub open spec fn wf2s(s: Seq<Frame2V>) -> bool
    decreases s,
{
    if s.len() == 0 {
        true
    } else {
        wf2(s[0]) && wf2s(s.drop_first())
    }
}

/// The RESP2 wire encoding of a frame.
pub open spec fn enc2(f: Frame2V) -> Seq<u8>
    decreases f,
{
    match f {
        Frame2V::SimpleString(s) => wire_line(M_SIMPLE, s),
        Frame2V::Error(s) => wire_line(M_ERR, s),
        Frame2V::Integer(i) => wire_line(M_INT, int_text(i)),
        Frame2V::BulkString(s) => wire_blob(M_BULK, s),
        Frame2V::Array(v) => wire_header(M_ARRAY, v.len()) + enc2s(v),
        Frame2V::Null => seq![M_BULK, M_ERR, 49u8, CR, LF],
    }
}

pub open spec fn enc2s(s: Seq<Frame2V>) -> Seq<u8>
    decreases s,
{
    if s.len() == 0 {
        Seq::empty()
    } else {
        enc2(s[0]) + enc2s(s.drop_first())
    }
}

/// Well-formed RESP3-shaped frame.
pub open spec fn wf3(f: Frame3V) -> bool
    decreases f,
{
    match f {
        Frame3V::SimpleString(s) => line_ok(s),
        Frame3V::SimpleError(s) => line_ok(s),
        Frame3V::Number(i) => i64::MIN <= i <= i64::MAX,
        Frame3V::Double(s) => line_ok(s) && s.len() >= 1,
        Frame3V::Boolean(_) => true,
        Frame3V::BigNumber(s) => line_ok(s) && s.len() >= 1,
        Frame3V::BlobString(s) => s.len() <= LEN_CAP,
        Frame3V::BlobError(s) => s.len() <= LEN_CAP,
        Frame3V::VerbatimString(s) => s.len() <= LEN_CAP,
        Frame3V::Null => true,
        Frame3V::Array(v) => v.len() <= LEN_CAP && wf3s(v),
        Frame3V::SetFrame(v) => v.len() <= LEN_CAP && wf3s(v),
        Frame3V::MapFrame(v) => v.len() <= LEN_CAP && wf3ps(v),
        Frame3V::Push(v) => v.len() <= LEN_CAP && wf3s(v),
    }
}

pub open spec fn wf3s(s: Seq<Frame3V>) -> bool
    decreases s,
{
    if s.len() == 0 {
        true
    } else {
        wf3(s[0]) && wf3s(s.drop_first())
    }
}

pub open spec fn wf3ps(s: Seq<(Frame3V, Frame3V)>) -> bool
    decreases s,
{
    if s.len() == 0 {
        true
    } else {
        wf3(s[0].0) && wf3(s[0].1) && wf3ps(s.drop_first())
    }
}

/// The RESP3 wire encoding of a frame.
pub open spec fn enc3(f: Frame3V) -> Seq<u8>
    decreases f,
{
    match f {
        Frame3V::SimpleString(s) => wire_line(M_SIMPLE, s),
        Frame3V::SimpleError(s) => wire_line(M_ERR, s),
        Frame3V::Number(i) => wire_line(M_INT, int_text(i)),
        Frame3V::Double(s) => wire_line(M_DOUBLE, s),
        Frame3V::Boolean(b) => seq![M_BOOL, if b { 116u8 } else { 102u8 }, CR, LF],
        Frame3V::BigNumber(s) => wire_line(M_BIGNUM, s),
        Frame3V::BlobString(s) => wire_blob(M_BULK, s),
        Frame3V::BlobError(s) => wire_blob(M_BLOBERR, s),
        Frame3V::VerbatimString(s) => wire_blob(M_VERBATIM, s),
        Frame3V::Null => seq![M_NULL, CR, LF],
        Frame3V::Array(v) => wire_header(M_ARRAY, v.len()) + enc3s(v),
        Frame3V::SetFrame(v) => wire_header(M_SET, v.len()) + enc3s(v),
        Frame3V::MapFrame(v) => wire_header(M_MAP, v.len()) + enc3ps(v),
        Frame3V::Push(v) => wire_header(M_PUSH, v.len()) + enc3s(v),
    }
}

pub open spec fn enc3s(s: Seq<Frame3V>) -> Seq<u8>
    decreases s,
{
    if s.len() == 0 {
        Seq::empty()
    } else {
        enc3(s[0]) + enc3s(s.drop_first())
    }
}

pub open spec fn enc3ps(s: Seq<(Frame3V, Frame3V)>) -> Seq<u8>
    decreases s,
{
    if s.len() == 0 {
        Seq::empty()
    } else {
        enc3(s[0].0) + enc3(s[0].1) + enc3ps(s.drop_first())
    }
}

pub proof fn lemma_enc2s_push(s: Seq<Frame2V>, x: Frame2V)
    ensures
        enc2s(s.push(x)) == enc2s(s) + enc2(x),
        wf2s(s.push(x)) == (wf2s(s) && wf2(x)),
    decreases s.len(),
{
    if s.len() == 0 {
        assert(s.push(x)[0] == x);
        assert(s.push(x).drop_first() =~= s);
        assert(enc2s(s.push(x)) =~= enc2s(s) + enc2(x));
    } else {
        assert(s.push(x)[0] == s[0]);
        assert(s.push(x).drop_first() =~= s.drop_first().push(x));
        lemma_enc2s_push(s.drop_first(), x);
        assert(enc2s(s.push(x)) =~= enc2s(s) + enc2(x));
    }
}

pub proof fn lemma_enc3s_push(s: Seq<Frame3V>, x: Frame3V)
    ensures
        enc3s(s.push(x)) == enc3s(s) + enc3(x),
        wf3s(s.push(x)) == (wf3s(s) && wf3(x)),
    decreases s.len(),
{
    if s.len() == 0 {
        assert(s.push(x)[0] == x);
        assert(s.push(x).drop_first() =~= s);
        assert(enc3s(s.push(x)) =~= enc3s(s) + enc3(x));
    } else {
        assert(s.push(x)[0] == s[0]);
        assert(s.push(x).drop_first() =~= s.drop_first().push(x));
        lemma_enc3s_push(s.drop_first(), x);
        assert(enc3s(s.push(x)) =~= enc3s(s) + enc3(x));
    }
}

pub proof fn lemma_enc3ps_push(s: Seq<(Frame3V, Frame3V)>, x: (Frame3V, Frame3V))
    ensures
        enc3ps(s.push(x)) == enc3ps(s) + enc3(x.0) + enc3(x.1),
        wf3ps(s.push(x)) == (wf3ps(s) && wf3(x.0) && wf3(x.1)),
    decreases s.len(),
{
    if s.len() == 0 {
        assert(s.push(x)[0] == x);
        assert(s.push(x).drop_first() =~= s);
        assert(enc3ps(s.push(x)) =~= enc3ps(s) + enc3(x.0) + enc3(x.1));
    } else {
        assert(s.push(x)[0] == s[0]);
        assert(s.push(x).drop_first() =~= s.drop_first().push(x));
        lemma_enc3ps_push(s.drop_first(), x);
        assert(enc3ps(s.push(x)) =~= enc3ps(s) + enc3(x.0) + enc3(x.1));
    }
}

/// Whether the payload may stand on a single protocol line.
pub fn line_ok_exec(s: &Vec<u8>) -> (r: bool)
    ensures
        r == line_ok(s@),
{
    let n: usize = s.len();
    let mut j: usize = 0;
    while j < n
        invariant
            j <= n,
            n == s@.len(),
            forall|k: int| 0 <= k < j ==> #[trigger] s@[k] != CR && s@[k] != LF,
        decreases n - j,
    {
        let c = s[j];
        if c == CR || c == LF {
            return false;
        }
        j = j + 1;
    }
    true
}

/// Append all of `src` to `dst`.
pub fn push_bytes(src: &Vec<u8>, dst: &mut Vec<u8>)
    ensures
        final(dst)@ == old(dst)@ + src@,
{
    let n: usize = src.len();
    let mut j: usize = 0;
    while j < n
        invariant
            j <= n,
            n == src@.len(),
            dst@ == old(dst)@ + src@.take(j as int),
        decreases n - j,
    {
        dst.push(src[j]);
        proof {
            assert(old(dst)@ + src@.take(j + 1 as int) =~= (old(dst)@ + src@.take(j as int)).push(
                src@[j as int],
            ));
        }
        j = j + 1;
    }
    proof {
        assert(src@.take(n as int) =~= src@);
    }
}

fn push_crlf(dst: &mut Vec<u8>)
    ensures
        final(dst)@ == old(dst)@ + crlf(),
{
    dst.push(CR);
    dst.push(LF);
    proof {
        assert(dst@ =~= old(dst)@ + crlf());
    }
}

/// Append one line-shaped element.
fn push_line(m: u8, payload: &Vec<u8>, dst: &mut Vec<u8>)
    ensures
        final(dst)@ == old(dst)@ + wire_line(m, payload@),
{
    dst.push(m);
    push_bytes(payload, dst);
    push_crlf(dst);
    proof {
        assert(dst@ =~= old(dst)@ + wire_line(m, payload@));
    }
}

/// Append one blob-shaped element.
fn push_blob(m: u8, payload: &Vec<u8>, dst: &mut Vec<u8>)
    ensures
        final(dst)@ == old(dst)@ + wire_blob(m, payload@),
{
    dst.push(m);
    push_dec_u(payload.len() as u64, dst);
    push_crlf(dst);
    push_bytes(payload, dst);
    push_crlf(dst);
    proof {
        assert(dst@ =~= old(dst)@ + wire_blob(m, payload@));
    }
}

/// Append one aggregate header.
fn push_header(m: u8, n: usize, dst: &mut Vec<u8>)
    ensures
        final(dst)@ == old(dst)@ + wire_header(m, n as nat),
{
    dst.push(m);
    push_dec_u(n as u64, dst);
    push_crlf(dst);
    proof {
        assert(dst@ =~= old(dst)@ + wire_header(m, n as nat));
    }
}

/// Serialize one RESP2-shaped frame onto `dst`. Fails, with the buffer left
/// in an unspecified partially-written state, exactly when the frame is not
/// well formed; the caller discards the buffer on failure.
#[verifier::rlimit(100)]
pub fn encode2_frame(f: &Resp2Frame, dst: &mut Vec<u8>) -> (r: Result<(), RedisError>)
    ensures
        r is Ok <==> wf2(f@),
        r is Ok ==> final(dst)@ == old(dst)@ + enc2(f@),
        r is Err ==> r->Err_0 == RedisError::Encode,
    decreases *f,
{
    match f {
        Resp2Frame::SimpleString(s) => {
            if line_ok_exec(s) {
                push_line(M_SIMPLE, s, dst);
                Ok(())
            } else {
                Err(RedisError::Encode)
            }
        },
        Resp2Frame::Error(s) => {
            if line_ok_exec(s) {
                push_line(M_ERR, s, dst);
                Ok(())
            } else {
                Err(RedisError::Encode)
            }
        },
        Resp2Frame::Integer(i) => {
            dst.push(M_INT);
            push_int(*i, dst);
            push_crlf(dst);
            proof {
                assert(dst@ =~= old(dst)@ + enc2(f@));
            }
            Ok(())
        },
        Resp2Frame::BulkString(s) => {
            if s.len() as u64 > LEN_CAP {
                return Err(RedisError::Encode);
            }
            push_blob(M_BULK, s, dst);
            Ok(())
        },
        Resp2Frame::Null => {
            dst.push(M_BULK);
            dst.push(M_ERR);
            dst.push(49);
            push_crlf(dst);
            proof {
                assert(dst@ =~= old(dst)@ + enc2(f@));
            }
            Ok(())
        },
        Resp2Frame::Array(v) => {
            let ghost gv = v@;
            let n: usize = v.len();
            if n as u64 > LEN_CAP {
                proof {
                    lemma_v2s(gv);
                }
                return Err(RedisError::Encode);
            }
            proof {
                assert(decreases_to!(*f => (*f)->Array_0));
                assert(decreases_to!(*v => v@));
            }
            push_header(M_ARRAY, n, dst);
            let ghost base = dst@;
            let mut j: usize = 0;
            while j < n
                invariant
                    j <= n,
                    n == v@.len(),
                    gv == v@,
                    *f == Resp2Frame::Array(*v),
                    decreases_to!(*f => gv),
                    wf2s(v2s(gv.take(j as int))),
                    dst@ == base + enc2s(v2s(gv.take(j as int))),
                decreases n - j,
            {
                proof {
                    lemma_v2s(gv);
                    assert(decreases_to!(gv => gv[j as int]));
                }
                let res = encode2_frame(&v[j], dst);
                match res {
                    Ok(()) => {},
                    Err(e) => {
                        proof {
                            lemma_v2s(gv);
                            if wf2s(v2s(gv)) {
                                lemma_wf2s_index(v2s(gv), j as int);
                            }
                        }
                        return Err(RedisError::Encode);
                    },
                }
                proof {
                    assert(v2s(gv.take(j + 1 as int)) == v2s(gv.take(j as int)).push(
                        v2(gv[j as int]),
                    )) by {
                        assert(gv.take(j + 1 as int) =~= gv.take(j as int).push(gv[j as int]));
                        lemma_v2s_push(gv.take(j as int), gv[j as int]);
                    }
                    lemma_enc2s_push(v2s(gv.take(j as int)), v2(gv[j as int]));
                }
                j = j + 1;
            }
            proof {
                assert(gv.take(n as int) =~= gv);
                lemma_v2s(gv);
                assert(dst@ =~= old(dst)@ + enc2(f@));
            }
            Ok(())
        },
    }
}

/// Well-formedness of a sequence of frames, element by element.
pub proof fn lemma_wf2s_index(s: Seq<Frame2V>, i: int)
    requires
        0 <= i < s.len(),
        wf2s(s),
    ensures
        wf2(s[i]),
    decreases i,
{
    if i > 0 {
        assert(s.drop_first()[i - 1] == s[i]);
        lemma_wf2s_index(s.drop_first(), i - 1);
    }
}

pub proof fn lemma_wf3s_index(s: Seq<Frame3V>, i: int)
    requires
        0 <= i < s.len(),
        wf3s(s),
    ensures
        wf3(s[i]),
    decreases i,
{
    if i > 0 {
        assert(s.drop_first()[i - 1] == s[i]);
        lemma_wf3s_index(s.drop_first(), i - 1);
    }
}

pub proof fn lemma_wf3ps_index(s: Seq<(Frame3V, Frame3V)>, i: int)
    requires
        0 <= i < s.len(),
        wf3ps(s),
    ensures
        wf3(s[i].0) && wf3(s[i].1),
    decreases i,
{
    if i > 0 {
        assert(s.drop_first()[i - 1] == s[i]);
        lemma_wf3ps_index(s.drop_first(), i - 1);
    }
}

/// Serialize one RESP3-shaped frame onto `dst`. Fails, with the buffer left
/// partially written, exactly when the frame is not well formed.
#[verifier::rlimit(100)]
pub fn encode3_frame(f: &Resp3Frame, dst: &mut Vec<u8>) -> (r: Result<(), RedisError>)
    ensures
        r is Ok <==> wf3(f@),
        r is Ok ==> final(dst)@ == old(dst)@ + enc3(f@),
        r is Err ==> r->Err_0 == RedisError::Encode,
    decreases *f,
{
    match f {
        Resp3Frame::SimpleString(s) => {
            if line_ok_exec(s) {
                push_line(M_SIMPLE, s, dst);
                Ok(())
            } else {
                Err(RedisError::Encode)
            }
        },
        Resp3Frame::SimpleError(s) => {
            if line_ok_exec(s) {
                push_line(M_ERR, s, dst);
                Ok(())
            } else {
                Err(RedisError::Encode)
            }
        },
        Resp3Frame::Number(i) => {
            dst.push(M_INT);
            push_int(*i, dst);
            push_crlf(dst);
            proof {
                assert(dst@ =~= old(dst)@ + enc3(f@));
            }
            Ok(())
        },
        Resp3Frame::Double(s) => {
            if s.len() >= 1 && line_ok_exec(s) {
                push_line(M_DOUBLE, s, dst);
                Ok(())
            } else {
                Err(RedisError::Encode)
            }
        },
        Resp3Frame::Boolean(b) => {
            dst.push(M_BOOL);
            if *b {
                dst.push(116);
            } else {
                dst.push(102);
            }
            push_crlf(dst);
            proof {
                assert(dst@ =~= old(dst)@ + enc3(f@));
            }
            Ok(())
        },
        Resp3Frame::BigNumber(s) => {
            if s.len() >= 1 && line_ok_exec(s) {
                push_line(M_BIGNUM, s, dst);
                Ok(())
            } else {
                Err(RedisError::Encode)
            }
        },
        Resp3Frame::BlobString(s) => {
            if s.len() as u64 > LEN_CAP {
                return Err(RedisError::Encode);
            }
            push_blob(M_BULK, s, dst);
            Ok(())
        },
        Resp3Frame::BlobError(s) => {
            if s.len() as u64 > LEN_CAP {
                return Err(RedisError::Encode);
            }
            push_blob(M_BLOBERR, s, dst);
            Ok(())
        },
        Resp3Frame::VerbatimString(s) => {
            if s.len() as u64 > LEN_CAP {
                return Err(RedisError::Encode);
            }
            push_blob(M_VERBATIM, s, dst);
            Ok(())
        },
        Resp3Frame::Null => {
            dst.push(M_NULL);
            push_crlf(dst);
            proof {
                assert(dst@ =~= old(dst)@ + enc3(f@));
            }
            Ok(())
        },
        Resp3Frame::Array(v) => {
            proof {
                assert(decreases_to!(*f => (*f)->Array_0));
                assert(decreases_to!(*v => v@));
            }
            let r = encode3_elems(M_ARRAY, v, dst);
            proof {
                lemma_v3s(v@);
                if r is Ok {
                    assert(dst@ =~= old(dst)@ + enc3(f@));
                }
            }
            r
        },
        Resp3Frame::SetFrame(v) => {
            proof {
                assert(decreases_to!(*f => (*f)->SetFrame_0));
                assert(decreases_to!(*v => v@));
            }
            let r = encode3_elems(M_SET, v, dst);
            proof {
                lemma_v3s(v@);
                if r is Ok {
                    assert(dst@ =~= old(dst)@ + enc3(f@));
                }
            }
            r
        },
        Resp3Frame::Push(v) => {
            proof {
                assert(decreases_to!(*f => (*f)->Push_0));
                assert(decreases_to!(*v => v@));
            }
            let r = encode3_elems(M_PUSH, v, dst);
            proof {
                lemma_v3s(v@);
                if r is Ok {
                    assert(dst@ =~= old(dst)@ + enc3(f@));
                }
            }
            r
        },
        Resp3Frame::MapFrame(v) => {
            let ghost gv = v@;
            let n: usize = v.len();
            if n as u64 > LEN_CAP {
                proof {
                    lemma_v3ps(gv);
                }
                return Err(RedisError::Encode);
            }
            proof {
                assert(decreases_to!(*f => (*f)->MapFrame_0));
                assert(decreases_to!(*v => v@));
            }
            push_header(M_MAP, n, dst);
            let ghost base = dst@;
            let mut j: usize = 0;
            while j < n
                invariant
                    j <= n,
                    n == v@.len(),
                    gv == v@,
                    *f == Resp3Frame::MapFrame(*v),
                    decreases_to!(*f => gv),
                    wf3ps(v3ps(gv.take(j as int))),
                    dst@ == base + enc3ps(v3ps(gv.take(j as int))),
                decreases n - j,
            {
                proof {
                    lemma_v3ps(gv);
                    assert(decreases_to!(gv => gv[j as int]));
                    assert(decreases_to!(gv[j as int] => gv[j as int].0));
                    assert(decreases_to!(gv[j as int] => gv[j as int].1));
                }
                let rk = encode3_frame(&v[j].0, dst);
                match rk {
                    Ok(()) => {},
                    Err(_) => {
                        proof {
                            lemma_v3ps(gv);
                            if wf3ps(v3ps(gv)) {
                                lemma_wf3ps_index(v3ps(gv), j as int);
                            }
                        }
                        return Err(RedisError::Encode);
                    },
                }
                let rv = encode3_frame(&v[j].1, dst);
                match rv {
                    Ok(()) => {},
                    Err(_) => {
                        proof {
                            lemma_v3ps(gv);
                            if wf3ps(v3ps(gv)) {
                                lemma_wf3ps_index(v3ps(gv), j as int);
                            }
                        }
                        return Err(RedisError::Encode);
                    },
                }
                proof {
                    assert(v3ps(gv.take(j + 1 as int)) == v3ps(gv.take(j as int)).push(
                        (v3(gv[j as int].0), v3(gv[j as int].1)),
                    )) by {
                        assert(gv.take(j + 1 as int) =~= gv.take(j as int).push(gv[j as int]));
                        lemma_v3ps_push(gv.take(j as int), gv[j as int]);
                    }
                    lemma_enc3ps_push(
                        v3ps(gv.take(j as int)),
                        (v3(gv[j as int].0), v3(gv[j as int].1)),
                    );
                    assert(dst@ =~= base + enc3ps(v3ps(gv.take(j + 1 as int))));
                }
                j = j + 1;
            }
            proof {
                assert(gv.take(n as int) =~= gv);
                lemma_v3ps(gv);
                assert(dst@ =~= old(dst)@ + enc3(f@));
            }
            Ok(())
        },
    }
}

/// Serialize an aggregate of ordered elements under the given marker.
fn encode3_elems(m: u8, v: &Vec<Resp3Frame>, dst: &mut Vec<u8>) -> (r: Result<(), RedisError>)
    requires
        m == M_ARRAY || m == M_SET || m == M_PUSH,
    ensures
        r is Ok <==> v@.len() <= LEN_CAP && wf3s(v3s(v@)),
        r is Ok ==> final(dst)@ == old(dst)@ + wire_header(m, v@.len()) + enc3s(v3s(v@)),
        r is Err ==> r->Err_0 == RedisError::Encode,
    decreases v@,
{
    let ghost gv = v@;
    let n: usize = v.len();
    if n as u64 > LEN_CAP {
        proof {
            lemma_v3s(gv);
        }
        return Err(RedisError::Encode);
    }
    push_header(m, n, dst);
    let ghost base = dst@;
    let mut j: usize = 0;
    while j < n
        invariant
            j <= n,
            n == v@.len(),
            gv == v@,
            wf3s(v3s(gv.take(j as int))),
            dst@ == base + enc3s(v3s(gv.take(j as int))),
        decreases n - j,
    {
        proof {
            lemma_v3s(gv);
            assert(decreases_to!(gv => gv[j as int]));
        }
        let res = encode3_frame(&v[j], dst);
        match res {
            Ok(()) => {},
            Err(_) => {
                proof {
                    lemma_v3s(gv);
                    if wf3s(v3s(gv)) {
                        lemma_wf3s_index(v3s(gv), j as int);
                    }
                }
                return Err(RedisError::Encode);
            },
        }
        proof {
            assert(v3s(gv.take(j + 1 as int)) == v3s(gv.take(j as int)).push(v3(gv[j as int]))) by {
                assert(gv.take(j + 1 as int) =~= gv.take(j as int).push(gv[j as int]));
                lemma_v3s_push(gv.take(j as int), gv[j as int]);
            }
            lemma_enc3s_push(v3s(gv.take(j as int)), v3(gv[j as int]));
        }
        j = j + 1;
    }
    proof {
        assert(gv.take(n as int) =~= gv);
        lemma_v3s(gv);
    }
    Ok(())
}

} // verus!
