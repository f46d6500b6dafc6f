//! The per-connection codec: encoder and decoder bound to a shared
//! protocol-version cell, size instrumentation for each direction, and the
//! in-flight streamed frame carried between decode calls.

use vstd::prelude::*;
use std::sync::Arc;
use crate::auth::{check_auth_error, is_auth_error_spec};
use crate::decode::{lemma_parse2_bounds, parse2, parse2_at};
use crate::encode::{enc2, enc3, encode2_frame, encode3_frame, wf2, wf3};
use crate::error::RedisError;
use crate::frame::{
    Frame2V, Frame3V, Resp2Frame, Resp3Frame, RespVersion, upgrade2, v2, v3,
};
use crate::stats::{sat64, sum_of, SizeStats};
use crate::streaming::{
    dec3_step, dec3_step_exec, lemma_dec3_step_bounds, view_opt, StreamedFrame, StreamV,
};
use crate::version::{clone_shared_version, read_version};

verus! {

/// A protocol message in either generation's shape.
#[derive(Debug, PartialEq, Eq)]
pub enum RespFrame {
    Resp2(Resp2Frame),
    Resp3(Resp3Frame),
}

/// Mathematical model of a frame of either shape.
pub ghost enum RespFrameV {
    Resp2(Frame2V),
    Resp3(Frame3V),
}

impl RespFrame {
    pub open spec fn view(&self) -> RespFrameV {
        match self {
            RespFrame::Resp2(f) => RespFrameV::Resp2(v2(*f)),
            RespFrame::Resp3(f) => RespFrameV::Resp3(v3(*f)),
        }
    }
}

/// The canonical newer-generation shape of a frame of either shape: the
/// lossless upgrade where it is the older one.
pub open spec fn to3_spec(fv: RespFrameV) -> Frame3V {
    match fv {
        RespFrameV::Resp2(f) => upgrade2(f),
        RespFrameV::Resp3(f) => f,
    }
}

impl RespFrame {
    /// The canonical RESP3-shaped frame: version-agnostic consumers see
    /// every result in the newer shape.
    pub fn to_resp3_frame(self) -> (r: Resp3Frame)
        ensures
            r@ == to3_spec(self@),
    {
        match self {
            RespFrame::Resp2(f) => f.to_resp3(),
            RespFrame::Resp3(f) => f,
        }
    }
}

/// What encoding a frame under a version yields: the wire bytes, or the
/// error for a frame that cannot be written under that version. Under the
/// older generation only older-shaped, well-formed frames can be written —
/// newer-only content fails rather than silently degrading.
pub open spec fn encode_spec(fv: RespFrameV, version: RespVersion) -> Result<Seq<u8>, RedisError> {
    match version {
        RespVersion::Resp2 => match fv {
            RespFrameV::Resp2(f) => if wf2(f) {
                Ok(enc2(f))
            } else {
                Err(RedisError::Encode)
            },
            RespFrameV::Resp3(_) => Err(RedisError::Encode),
        },
        RespVersion::Resp3 => if wf3(to3_spec(fv)) {
            Ok(enc3(to3_spec(fv)))
        } else {
            Err(RedisError::Encode)
        },
    }
}

/// The per-connection codec object.
pub struct RedisCodec {
    pub name: String,
    pub server: String,
    pub decoder_stream: Option<StreamedFrame>,
    pub resp_version: Arc<parking_lot::RwLock<RespVersion>>,
    pub req_size_stats: SizeStats,
    pub res_size_stats: SizeStats,
    pub auth_error_seen: bool,
}

/// What one decode call does under the older generation, stated over the
/// models of the buffer, the statistics history and the result.
pub open spec fn decode2_post(
    src0: Seq<u8>,
    res0: Seq<int>,
    srcf: Seq<u8>,
    resf: Seq<int>,
    r: Result<Option<RespFrame>, RedisError>,
) -> bool {
    match parse2(src0) {
        Err(e) => r == Err::<Option<RespFrame>, RedisError>(e) && srcf == src0 && resf == res0,
        Ok(None) => r == Ok::<Option<RespFrame>, RedisError>(None) && srcf == src0 && resf
            == res0,
        Ok(Some((fv, k))) => {
            &&& (match r {
                Ok(Some(out)) => out@ == RespFrameV::Resp2(fv),
                _ => false,
            })
            &&& srcf == src0.skip(k)
            &&& resf == res0.push(k)
        },
    }
}

/// What one decode call does under the newer generation.
pub open spec fn decode3_post(
    st0: Option<StreamV>,
    src0: Seq<u8>,
    res0: Seq<int>,
    stf: Option<StreamV>,
    srcf: Seq<u8>,
    resf: Seq<int>,
    r: Result<Option<RespFrame>, RedisError>,
) -> bool {
    match dec3_step(st0, src0) {
        Err(e) => r == Err::<Option<RespFrame>, RedisError>(e) && srcf == src0 && resf == res0
            && stf is None,
        Ok((st2, k, out)) => {
            &&& stf == st2
            &&& srcf == src0.skip(k)
            &&& resf == (if k > 0 {
                res0.push(k)
            } else {
                res0
            })
            &&& (match (r, out) {
                (Ok(None), None) => true,
                (Ok(Some(rf)), Some(fv)) => rf@ == RespFrameV::Resp3(fv),
                _ => false,
            })
        },
    }
}

/// Remove the first `amt` bytes of a buffer, keeping the remainder.
pub fn drop_prefix(buf: &mut Vec<u8>, amt: usize)
    requires
        amt <= old(buf)@.len(),
    ensures
        final(buf)@ == old(buf)@.skip(amt as int),
{
    let tail = buf.split_off(amt);
    let ghost head = buf@;
    *buf = tail;
}

impl RedisCodec {
    /// Both statistics agree with their histories.
    pub open spec fn wf(&self) -> bool {
        self.req_size_stats.wf() && self.res_size_stats.wf()
    }

    /// A fresh codec bound to a connection's shared version cell, with no
    /// partial frame in flight and empty statistics.
    pub fn new(
        name: String,
        server: String,
        resp_version: &Arc<parking_lot::RwLock<RespVersion>>,
    ) -> (r: RedisCodec)
        ensures
            r.wf(),
            r.decoder_stream is None,
            r.req_size_stats.recorded@ == Seq::<int>::empty(),
            r.res_size_stats.recorded@ == Seq::<int>::empty(),
            r.auth_error_seen == false,
            r.name@ == name@,
            r.server@ == server@,
    {
        RedisCodec {
            name,
            server,
            decoder_stream: None,
            resp_version: clone_shared_version(resp_version),
            req_size_stats: SizeStats::new(),
            res_size_stats: SizeStats::new(),
            auth_error_seen: false,
        }
    }

    /// Whether the connection is negotiated at the newer generation, as a
    /// cheap read of the shared cell. Negotiation may write the cell
    /// concurrently, so nothing relates two reads.
    pub fn is_resp3(&self) -> bool {
        let v = read_version(&self.resp_version);
        match v {
            RespVersion::Resp3 => true,
            RespVersion::Resp2 => false,
        }
    }

    /// Serialize one frame onto `dst` under the given version, recording
    /// the appended byte count. On failure the buffer is partially written
    /// and the caller discards it; nothing else changes.
    pub fn encode_with_version(
        &mut self,
        version: RespVersion,
        item: RespFrame,
        dst: &mut Vec<u8>,
    ) -> (r: Result<(), RedisError>)
        requires
            old(self).wf(),
        ensures
            final(self).wf(),
            final(self).res_size_stats == old(self).res_size_stats,
            view_opt(final(self).decoder_stream) == view_opt(old(self).decoder_stream),
            final(self).auth_error_seen == old(self).auth_error_seen,
            match (r, encode_spec(item@, version)) {
                (Ok(u), Ok(bytes)) => {
                    &&& final(dst)@ == old(dst)@ + bytes
                    &&& final(self).req_size_stats.recorded@ == old(
                        self,
                    ).req_size_stats.recorded@.push(bytes.len() as int)
                },
                (Err(e1), Err(e2)) => e1 == e2 && final(self).req_size_stats == old(
                    self,
                ).req_size_stats,
                _ => false,
            },
    {
        let offset: usize = dst.len();
        let res = match version {
            RespVersion::Resp2 => match &item {
                RespFrame::Resp2(f) => encode2_frame(f, dst),
                RespFrame::Resp3(_) => Err(RedisError::Encode),
            },
            RespVersion::Resp3 => {
                let f3 = item.to_resp3_frame();
                encode3_frame(&f3, dst)
            },
        };
        match res {
            Ok(u) => {
                let delta: usize = dst.len() - offset;
                self.req_size_stats.sample(delta as u64);
                Ok(u)
            },
            Err(e) => Err(e),
        }
    }

    /// Serialize one frame under the version the shared cell holds at this
    /// call. Whatever version was read, the call behaves as
    /// `encode_with_version` for it.
    pub fn encode(&mut self, item: RespFrame, dst: &mut Vec<u8>) -> (r: Result<(), RedisError>)
        requires
            old(self).wf(),
        ensures
            final(self).wf(),
            final(self).res_size_stats == old(self).res_size_stats,
            view_opt(final(self).decoder_stream) == view_opt(old(self).decoder_stream),
            r is Ok ==> final(dst)@.len() >= old(dst)@.len()
                && final(self).req_size_stats.recorded@ == old(
                self,
            ).req_size_stats.recorded@.push(final(dst)@.len() - old(dst)@.len()),
            r is Err ==> final(self).req_size_stats == old(self).req_size_stats,
            exists|v: RespVersion|
                #[trigger] encode_spec(item@, v) == (match r {
                    Ok(u) => Ok::<Seq<u8>, RedisError>(final(dst)@.skip(old(dst)@.len() as int)),
                    Err(e) => Err::<Seq<u8>, RedisError>(e),
                }),
    {
        let version = read_version(&self.resp_version);
        let ghost dst0 = dst@;
        let ghost itemv = item@;
        let r = self.encode_with_version(version, item, dst);
        proof {
            match (r, encode_spec(itemv, version)) {
                (Ok(u), Ok(bytes)) => {
                    assert(dst@.skip(dst0.len() as int) =~= bytes);
                },
                _ => {},
            }
            assert(encode_spec(itemv, version) == (match r {
                Ok(u) => Ok::<Seq<u8>, RedisError>(dst@.skip(dst0.len() as int)),
                Err(e) => Err::<Seq<u8>, RedisError>(e),
            }));
        }
        r
    }

    /// Decode at most one frame from the front of `src` under the given
    /// version, consuming exactly the bytes the step accounts for and
    /// recording them. A fatal error consumes nothing, records nothing and
    /// clears any partial frame: failed state is never reused.
    pub fn decode_with_version(
        &mut self,
        version: RespVersion,
        src: &mut Vec<u8>,
    ) -> (r: Result<Option<RespFrame>, RedisError>)
        requires
            old(self).wf(),
        ensures
            final(self).wf(),
            final(self).req_size_stats == old(self).req_size_stats,
            version == RespVersion::Resp2 ==> view_opt(final(self).decoder_stream) == view_opt(
                old(self).decoder_stream,
            ) && decode2_post(
                old(src)@,
                old(self).res_size_stats.recorded@,
                final(src)@,
                final(self).res_size_stats.recorded@,
                r,
            ),
            version == RespVersion::Resp3 ==> decode3_post(
                view_opt(old(self).decoder_stream),
                old(src)@,
                old(self).res_size_stats.recorded@,
                view_opt(final(self).decoder_stream),
                final(src)@,
                final(self).res_size_stats.recorded@,
                r,
            ),
            match r {
                Ok(Some(f)) => final(self).auth_error_seen == is_auth_error_spec(
                    to3_spec(f@),
                ),
                _ => final(self).auth_error_seen == old(self).auth_error_seen,
            },
    {
        match version {
            RespVersion::Resp2 => {
                proof {
                    assert(src@.skip(0) =~= src@);
                }
                match parse2_at(src, 0) {
                    Err(e) => Err(e),
                    Ok(None) => Ok(None),
                    Ok(Some((f, k))) => {
                        proof {
                            lemma_parse2_bounds(src@);
                        }
                        drop_prefix(src, k);
                        self.res_size_stats.sample(k as u64);
                        let flagged = crate::auth::is_auth_error2(&f);
                        self.auth_error_seen = flagged;
                        Ok(Some(RespFrame::Resp2(f)))
                    },
                }
            },
            RespVersion::Resp3 => {
                let st = self.decoder_stream.take();
                proof {
                    assert(src@.skip(0) =~= src@);
                }
                match dec3_step_exec(st, src, 0) {
                    Err(e) => {
                        self.decoder_stream = None;
                        Err(e)
                    },
                    Ok((st2, k, out)) => {
                        proof {
                            lemma_dec3_step_bounds(view_opt(old(self).decoder_stream), src@);
                        }
                        self.decoder_stream = st2;
                        drop_prefix(src, k);
                        if k > 0 {
                            self.res_size_stats.sample(k as u64);
                        }
                        match out {
                            None => Ok(None),
                            Some(f) => {
                                let (f, flagged) = check_auth_error(f);
                                self.auth_error_seen = flagged;
                                Ok(Some(RespFrame::Resp3(f)))
                            },
                        }
                    },
                }
            },
        }
    }

    /// Decode at most one frame under the version the shared cell holds at
    /// this call. Whatever version was read, the remainder of the buffer is
    /// a suffix of what arrived, and the decode-direction history grows by
    /// exactly the consumed byte count — the per-call byte accounting that
    /// makes the histories sum to the consumed prefix.
    pub fn decode(&mut self, src: &mut Vec<u8>) -> (r: Result<Option<RespFrame>, RedisError>)
        requires
            old(self).wf(),
        ensures
            final(self).wf(),
            final(self).req_size_stats == old(self).req_size_stats,
            final(src)@ == old(src)@.skip(old(src)@.len() - final(src)@.len()),
            final(src)@.len() <= old(src)@.len(),
            sum_of(final(self).res_size_stats.recorded@) == sum_of(
                old(self).res_size_stats.recorded@,
            ) + (old(src)@.len() - final(src)@.len()),
            r is Err ==> final(src)@ == old(src)@,
            exists|v: RespVersion|
                #[trigger] decode_post_for(
                    v,
                    view_opt(old(self).decoder_stream),
                    old(src)@,
                    old(self).res_size_stats.recorded@,
                    view_opt(final(self).decoder_stream),
                    final(src)@,
                    final(self).res_size_stats.recorded@,
                    r,
                ),
    {
        let version = read_version(&self.resp_version);
        let ghost src0 = src@;
        let ghost res0 = self.res_size_stats.recorded@;
        let r = self.decode_with_version(version, src);
        proof {
            if version == RespVersion::Resp2 {
                lemma_parse2_bounds(src0);
            } else {
                lemma_dec3_step_bounds(view_opt(old(self).decoder_stream), src0);
            }
            let k = src0.len() - src@.len();
            assert(src@ =~= src0.skip(k as int));
            if self.res_size_stats.recorded@ == res0.push(k as int) {
                assert(res0.push(k as int).drop_last() =~= res0);
                assert(res0.push(k as int).last() == k as int);
            }
            assert(decode_post_for(
                version,
                view_opt(old(self).decoder_stream),
                src0,
                res0,
                view_opt(self.decoder_stream),
                src@,
                self.res_size_stats.recorded@,
                r,
            ));
        }
        r
    }
}

/// What one decode call does under each version: the disjunction the
/// version-cell read resolves.
pub open spec fn decode_post_for(
    version: RespVersion,
    st0: Option<StreamV>,
    src0: Seq<u8>,
    res0: Seq<int>,
    stf: Option<StreamV>,
    srcf: Seq<u8>,
    resf: Seq<int>,
    r: Result<Option<RespFrame>, RedisError>,
) -> bool {
    match version {
        RespVersion::Resp2 => stf == st0 && decode2_post(src0, res0, srcf, resf, r),
        RespVersion::Resp3 => decode3_post(st0, src0, res0, stf, srcf, resf, r),
    }
}

} // verus!
