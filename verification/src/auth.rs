//! Authentication-error interception: every fully decoded frame is
//! inspected for the server's authentication-failure error shape. The hook
//! only inspects; the frame reaches the caller unchanged, so upstream logic
//! sees the very error the server sent.

use vstd::prelude::*;
use crate::frame::{Frame3V, Resp3Frame, v3};

verus! {

/// The bytes the server's authentication-failure error begins with.
pub open spec fn auth_prefix() -> Seq<u8> {
    // "NOAUTH"
    seq![78u8, 79u8, 65u8, 85u8, 84u8, 72u8]
}

pub open spec fn wrongpass_prefix() -> Seq<u8> {
    // "WRONGPASS"
    seq![87u8, 82u8, 79u8, 78u8, 71u8, 80u8, 65u8, 83u8, 83u8]
}

pub open spec fn starts_with(s: Seq<u8>, p: Seq<u8>) -> bool {
    s.len() >= p.len() && s.subrange(0, p.len() as int) == p
}

/// Whether a frame is the server's authentication-failure error: an
/// error-kind frame whose text begins with one of the authentication
/// failure markers.
pub open spec fn is_auth_error_spec(f: Frame3V) -> bool {
    match f {
        Frame3V::SimpleError(s) => starts_with(s, auth_prefix()) || starts_with(
            s,
            wrongpass_prefix(),
        ),
        Frame3V::BlobError(s) => starts_with(s, auth_prefix()) || starts_with(
            s,
            wrongpass_prefix(),
        ),
        _ => false,
    }
}

fn bytes_start_with(s: &Vec<u8>, p0: u8, p: &[u8]) -> (r: bool)
    ensures
        r == starts_with(s@, seq![p0] + p@),
{
    let plen = p.len();
    if s.len() <= plen {
        proof {
            assert(!starts_with(s@, seq![p0] + p@));
        }
        return false;
    }
    if s[0] != p0 {
        proof {
            if starts_with(s@, seq![p0] + p@) {
                assert(s@.subrange(0, (seq![p0] + p@).len() as int)[0] == p0);
            }
        }
        return false;
    }
    let mut j: usize = 0;
    while j < plen
        invariant
            j <= plen,
            plen == p@.len(),
            s@.len() >= plen + 1,
            s@[0] == p0,
            forall|k: int| 0 <= k < j ==> s@[k + 1] == #[trigger] p@[k],
        decreases plen - j,
    {
        if s[j + 1] != p[j] {
            proof {
                if starts_with(s@, seq![p0] + p@) {
                    assert(s@.subrange(0, (seq![p0] + p@).len() as int)[j + 1] == (seq![p0]
                        + p@)[j + 1]);
                }
            }
            return false;
        }
        j = j + 1;
    }
    proof {
        assert(s@.subrange(0, (seq![p0] + p@).len() as int) =~= seq![p0] + p@);
    }
    true
}

/// Whether a decoded frame is the server's authentication-failure error.
pub fn is_auth_error(f: &Resp3Frame) -> (r: bool)
    ensures
        r == is_auth_error_spec(f@),
{
    match f {
        Resp3Frame::SimpleError(s) => {
            let a = bytes_start_with(s, 78, &[79, 65, 85, 84, 72]);
            let w = bytes_start_with(s, 87, &[82, 79, 78, 71, 80, 65, 83, 83]);
            proof {
                assert(seq![78u8] + [79u8, 65u8, 85u8, 84u8, 72u8]@ =~= auth_prefix());
                assert(seq![87u8] + [82u8, 79u8, 78u8, 71u8, 80u8, 65u8, 83u8, 83u8]@
                    =~= wrongpass_prefix());
            }
            a || w
        },
        Resp3Frame::BlobError(s) => {
            let a = bytes_start_with(s, 78, &[79, 65, 85, 84, 72]);
            let w = bytes_start_with(s, 87, &[82, 79, 78, 71, 80, 65, 83, 83]);
            proof {
                assert(seq![78u8] + [79u8, 65u8, 85u8, 84u8, 72u8]@ =~= auth_prefix());
                assert(seq![87u8] + [82u8, 79u8, 78u8, 71u8, 80u8, 65u8, 83u8, 83u8]@
                    =~= wrongpass_prefix());
            }
            a || w
        },
        _ => false,
    }
}

/// Whether a decoded older-generation frame is the server's
/// authentication-failure error, judged on its upgraded shape.
pub fn is_auth_error2(f: &crate::frame::Resp2Frame) -> (r: bool)
    ensures
        r == is_auth_error_spec(crate::frame::upgrade2(crate::frame::v2(*f))),
{
    match f {
        crate::frame::Resp2Frame::Error(s) => {
            let a = bytes_start_with(s, 78, &[79, 65, 85, 84, 72]);
            let w = bytes_start_with(s, 87, &[82, 79, 78, 71, 80, 65, 83, 83]);
            proof {
                assert(seq![78u8] + [79u8, 65u8, 85u8, 84u8, 72u8]@ =~= auth_prefix());
                assert(seq![87u8] + [82u8, 79u8, 78u8, 71u8, 80u8, 65u8, 83u8, 83u8]@
                    =~= wrongpass_prefix());
            }
            a || w
        },
        _ => false,
    }
}

/// The interception hook: inspect a fully decoded frame for the
/// authentication-failure shape and hand it back unchanged. The inspection
/// is an extension point for upstream connection teardown; it performs no
/// transformation.
pub fn check_auth_error(f: Resp3Frame) -> (r: (Resp3Frame, bool))
    ensures
        r.0 == f,
        r.1 == is_auth_error_spec(v3(f)),
{
    let flagged = is_auth_error(&f);
    (f, flagged)
}

} // verus!
