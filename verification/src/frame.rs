//! The frame data model: one structured protocol message, in the shape of
//! either protocol generation, with a lossless upgrade from the older
//! generation to the newer one.

use vstd::prelude::*;

verus! {

/// The negotiated protocol generation of a connection.
#[derive(Clone, Copy, PartialEq, Eq, Structural, Debug)]
pub enum RespVersion {
    Resp2,
    Resp3,
}

/// A protocol message in the older (RESP2) shape.
#[derive(Debug, PartialEq, Eq)]
pub enum Resp2Frame {
    SimpleString(Vec<u8>),
    Error(Vec<u8>),
    Integer(i64),
    BulkString(Vec<u8>),
    Array(Vec<Resp2Frame>),
    Null,
}

/// A protocol message in the newer (RESP3) shape. Double and BigNumber
/// carry their decimal text exactly as it stands on the wire.
#[derive(Debug, PartialEq, Eq)]
pub enum Resp3Frame {
    SimpleString(Vec<u8>),
    SimpleError(Vec<u8>),
    Number(i64),
    Double(Vec<u8>),
    Boolean(bool),
    BigNumber(Vec<u8>),
    BlobString(Vec<u8>),
    BlobError(Vec<u8>),
    VerbatimString(Vec<u8>),
    Null,
    Array(Vec<Resp3Frame>),
    SetFrame(Vec<Resp3Frame>),
    MapFrame(Vec<(Resp3Frame, Resp3Frame)>),
    Push(Vec<Resp3Frame>),
}

/// Mathematical model of a RESP2-shaped frame.
pub ghost enum Frame2V {
    SimpleString(Seq<u8>),
    Error(Seq<u8>),
    Integer(int),
    BulkString(Seq<u8>),
    Array(Seq<Frame2V>),
    Null,
}

/// Mathematical model of a RESP3-shaped frame.
pub ghost enum Frame3V {
    SimpleString(Seq<u8>),
    SimpleError(Seq<u8>),
    Number(int),
    Double(Seq<u8>),
    Boolean(bool),
    BigNumber(Seq<u8>),
    BlobString(Seq<u8>),
    BlobError(Seq<u8>),
    VerbatimString(Seq<u8>),
    Null,
    Array(Seq<Frame3V>),
    SetFrame(Seq<Frame3V>),
    MapFrame(Seq<(Frame3V, Frame3V)>),
    Push(Seq<Frame3V>),
}

/// Model of a RESP2-shaped frame.
pub open spec fn v2(f: Resp2Frame) -> Frame2V
    decreases f,
{
    match f {
        Resp2Frame::SimpleString(s) => Frame2V::SimpleString(s@),
        Resp2Frame::Error(s) => Frame2V::Error(s@),
        Resp2Frame::Integer(i) => Frame2V::Integer(i as int),
        Resp2Frame::BulkString(s) => Frame2V::BulkString(s@),
        Resp2Frame::Array(v) => Frame2V::Array(v2s(v@)),
        Resp2Frame::Null => Frame2V::Null,
    }
}

/// Models of a sequence of RESP2-shaped frames, elementwise.
pub open spec fn v2s(s: Seq<Resp2Frame>) -> Seq<Frame2V>
    decreases s,
{
    if s.len() == 0 {
        Seq::empty()
    } else {
        seq![v2(s[0])] + v2s(s.drop_first())
    }
}

/// Model of a RESP3-shaped frame.
pub open spec fn v3(f: Resp3Frame) -> Frame3V
    decreases f,
{
    match f {
        Resp3Frame::SimpleString(s) => Frame3V::SimpleString(s@),
        Resp3Frame::SimpleError(s) => Frame3V::SimpleError(s@),
        Resp3Frame::Number(i) => Frame3V::Number(i as int),
        Resp3Frame::Double(s) => Frame3V::Double(s@),
        Resp3Frame::Boolean(b) => Frame3V::Boolean(b),
        Resp3Frame::BigNumber(s) => Frame3V::BigNumber(s@),
        Resp3Frame::BlobString(s) => Frame3V::BlobString(s@),
        Resp3Frame::BlobError(s) => Frame3V::BlobError(s@),
        Resp3Frame::VerbatimString(s) => Frame3V::VerbatimString(s@),
        Resp3Frame::Null => Frame3V::Null,
        Resp3Frame::Array(v) => Frame3V::Array(v3s(v@)),
        Resp3Frame::SetFrame(v) => Frame3V::SetFrame(v3s(v@)),
        Resp3Frame::MapFrame(v) => Frame3V::MapFrame(v3ps(v@)),
        Resp3Frame::Push(v) => Frame3V::Push(v3s(v@)),
    }
}

/// Models of a sequence of RESP3-shaped frames, elementwise.
pub open spec fn v3s(s: Seq<Resp3Frame>) -> Seq<Frame3V>
    decreases s,
{
    if s.len() == 0 {
        Seq::empty()
    } else {
        seq![v3(s[0])] + v3s(s.drop_first())
    }
}

/// Models of a sequence of key-value pairs of RESP3-shaped frames.
pub open spec fn v3ps(s: Seq<(Resp3Frame, Resp3Frame)>) -> Seq<(Frame3V, Frame3V)>
    decreases s,
{
    if s.len() == 0 {
        Seq::empty()
    } else {
        seq![(v3(s[0].0), v3(s[0].1))] + v3ps(s.drop_first())
    }
}

impl Resp2Frame {
    /// The model of this frame.
    pub open spec fn view(&self) -> Frame2V {
        v2(*self)
    }
}

impl Resp3Frame {
    /// The model of this frame.
    pub open spec fn view(&self) -> Frame3V {
        v3(*self)
    }
}

pub proof fn lemma_v2s(s: Seq<Resp2Frame>)
    ensures
        v2s(s).len() == s.len(),
        forall|i: int| 0 <= i < s.len() ==> v2s(s)[i] == v2(#[trigger] s[i]),
    decreases s.len(),
{
    if s.len() > 0 {
        lemma_v2s(s.drop_first());
        assert forall|i: int| 0 <= i < s.len() implies v2s(s)[i] == v2(#[trigger] s[i]) by {
            if i > 0 {
                assert(v2s(s)[i] == v2s(s.drop_first())[i - 1]);
                assert(s.drop_first()[i - 1] == s[i]);
            }
        }
    }
}

pub proof fn lemma_v3s(s: Seq<Resp3Frame>)
    ensures
        v3s(s).len() == s.len(),
        forall|i: int| 0 <= i < s.len() ==> v3s(s)[i] == v3(#[trigger] s[i]),
    decreases s.len(),
{
    if s.len() > 0 {
        lemma_v3s(s.drop_first());
        assert forall|i: int| 0 <= i < s.len() implies v3s(s)[i] == v3(#[trigger] s[i]) by {
            if i > 0 {
                assert(v3s(s)[i] == v3s(s.drop_first())[i - 1]);
                assert(s.drop_first()[i - 1] == s[i]);
            }
        }
    }
}

pub proof fn lemma_v3ps(s: Seq<(Resp3Frame, Resp3Frame)>)
    ensures
        v3ps(s).len() == s.len(),
        forall|i: int| 0 <= i < s.len() ==> v3ps(s)[i] == (v3(#[trigger] s[i].0), v3(s[i].1)),
    decreases s.len(),
{
    if s.len() > 0 {
        lemma_v3ps(s.drop_first());
        assert forall|i: int| 0 <= i < s.len() implies v3ps(s)[i] == (v3(#[trigger] s[i].0), v3(
            s[i].1,
        )) by {
            if i > 0 {
                assert(v3ps(s)[i] == v3ps(s.drop_first())[i - 1]);
                assert(s.drop_first()[i - 1] == s[i]);
            }
        }
    }
}

pub proof fn lemma_v2s_push(s: Seq<Resp2Frame>, x: Resp2Frame)
    ensures
        v2s(s.push(x)) == v2s(s).push(v2(x)),
{
    lemma_v2s(s.push(x));
    lemma_v2s(s);
    assert forall|i: int| 0 <= i < v2s(s.push(x)).len() implies v2s(s.push(x))[i] == v2s(s).push(
        v2(x),
    )[i] by {
        assert(v2s(s.push(x))[i] == v2(s.push(x)[i]));
        if i < s.len() {
            assert(s.push(x)[i] == s[i]);
        } else {
            assert(s.push(x)[i] == x);
        }
    }
    assert(v2s(s.push(x)) =~= v2s(s).push(v2(x)));
}

pub proof fn lemma_v3s_push(s: Seq<Resp3Frame>, x: Resp3Frame)
    ensures
        v3s(s.push(x)) == v3s(s).push(v3(x)),
{
    lemma_v3s(s.push(x));
    lemma_v3s(s);
    assert forall|i: int| 0 <= i < v3s(s.push(x)).len() implies v3s(s.push(x))[i] == v3s(s).push(
        v3(x),
    )[i] by {
        assert(v3s(s.push(x))[i] == v3(s.push(x)[i]));
        if i < s.len() {
            assert(s.push(x)[i] == s[i]);
        } else {
            assert(s.push(x)[i] == x);
        }
    }
    assert(v3s(s.push(x)) =~= v3s(s).push(v3(x)));
}

pub proof fn lemma_v3ps_push(s: Seq<(Resp3Frame, Resp3Frame)>, x: (Resp3Frame, Resp3Frame))
    ensures
        v3ps(s.push(x)) == v3ps(s).push((v3(x.0), v3(x.1))),
{
    lemma_v3ps(s.push(x));
    lemma_v3ps(s);
    assert forall|i: int| 0 <= i < v3ps(s.push(x)).len() implies v3ps(s.push(x))[i] == v3ps(s).push(
        (v3(x.0), v3(x.1)),
    )[i] by {
        assert(v3ps(s.push(x))[i] == (v3(s.push(x)[i].0), v3(s.push(x)[i].1)));
        if i < s.len() {
            assert(s.push(x)[i] == s[i]);
        } else {
            assert(s.push(x)[i] == x);
        }
    }
    assert(v3ps(s.push(x)) =~= v3ps(s).push((v3(x.0), v3(x.1))));
}

/// Models of a sequence of byte buffers, elementwise.
pub open spec fn seq_of_views(s: Seq<Vec<u8>>) -> Seq<Seq<u8>>
    decreases s,
{
    if s.len() == 0 {
        Seq::empty()
    } else {
        seq![s[0]@] + seq_of_views(s.drop_first())
    }
}

pub proof fn lemma_seq_of_views(s: Seq<Vec<u8>>)
    ensures
        seq_of_views(s).len() == s.len(),
        forall|i: int| 0 <= i < s.len() ==> seq_of_views(s)[i] == (#[trigger] s[i])@,
    decreases s.len(),
{
    if s.len() > 0 {
        lemma_seq_of_views(s.drop_first());
        assert forall|i: int| 0 <= i < s.len() implies seq_of_views(s)[i] == (#[trigger] s[i])@ by {
            if i > 0 {
                assert(seq_of_views(s)[i] == seq_of_views(s.drop_first())[i - 1]);
                assert(s.drop_first()[i - 1] == s[i]);
            }
        }
    }
}

pub proof fn lemma_seq_of_views_push(s: Seq<Vec<u8>>, x: Vec<u8>)
    ensures
        seq_of_views(s.push(x)) == seq_of_views(s).push(x@),
{
    lemma_seq_of_views(s.push(x));
    lemma_seq_of_views(s);
    assert forall|i: int| 0 <= i < seq_of_views(s.push(x)).len() implies seq_of_views(s.push(x))[i]
        == seq_of_views(s).push(x@)[i] by {
        if i < s.len() {
            assert(s.push(x)[i] == s[i]);
        } else {
            assert(s.push(x)[i] == x);
        }
    }
    assert(seq_of_views(s.push(x)) =~= seq_of_views(s).push(x@));
}

/// The total, pure upgrade of a RESP2-shaped model to the RESP3 shape.
/// Nesting structure is preserved exactly.
pub open spec fn upgrade2(f: Frame2V) -> Frame3V
    decreases f,
{
    match f {
        Frame2V::SimpleString(s) => Frame3V::SimpleString(s),
        Frame2V::Error(s) => Frame3V::SimpleError(s),
        Frame2V::Integer(i) => Frame3V::Number(i),
        Frame2V::BulkString(s) => Frame3V::BlobString(s),
        Frame2V::Array(v) => Frame3V::Array(upgrade2s(v)),
        Frame2V::Null => Frame3V::Null,
    }
}

/// Elementwise upgrade of a sequence of RESP2-shaped models.
pub open spec fn upgrade2s(s: Seq<Frame2V>) -> Seq<Frame3V>
    decreases s,
{
    if s.len() == 0 {
        Seq::empty()
    } else {
        seq![upgrade2(s[0])] + upgrade2s(s.drop_first())
    }
}

pub proof fn lemma_upgrade2s(s: Seq<Frame2V>)
    ensures
        upgrade2s(s).len() == s.len(),
        forall|i: int| 0 <= i < s.len() ==> upgrade2s(s)[i] == upgrade2(#[trigger] s[i]),
    decreases s.len(),
{
    if s.len() > 0 {
        lemma_upgrade2s(s.drop_first());
        assert forall|i: int| 0 <= i < s.len() implies upgrade2s(s)[i] == upgrade2(
            #[trigger] s[i],
        ) by {
            if i > 0 {
                assert(upgrade2s(s)[i] == upgrade2s(s.drop_first())[i - 1]);
                assert(s.drop_first()[i - 1] == s[i]);
            }
        }
    }
}

pub proof fn lemma_upgrade2s_push(s: Seq<Frame2V>, x: Frame2V)
    ensures
        upgrade2s(s.push(x)) == upgrade2s(s).push(upgrade2(x)),
{
    lemma_upgrade2s(s.push(x));
    lemma_upgrade2s(s);
    assert forall|i: int| 0 <= i < upgrade2s(s.push(x)).len() implies upgrade2s(s.push(x))[i]
        == upgrade2s(s).push(upgrade2(x))[i] by {
        assert(upgrade2s(s.push(x))[i] == upgrade2(s.push(x)[i]));
        if i < s.len() {
            assert(s.push(x)[i] == s[i]);
        } else {
            assert(s.push(x)[i] == x);
        }
    }
    assert(upgrade2s(s.push(x)) =~= upgrade2s(s).push(upgrade2(x)));
}

impl Resp2Frame {
    /// Upgrade to the RESP3 shape, preserving structure exactly.
    pub fn to_resp3(self) -> (r: Resp3Frame)
        ensures
            r@ == upgrade2(self@),
        decreases self,
    {
        let ghost orig = self;
        match self {
            Resp2Frame::SimpleString(s) => Resp3Frame::SimpleString(s),
            Resp2Frame::Error(s) => Resp3Frame::SimpleError(s),
            Resp2Frame::Integer(i) => Resp3Frame::Number(i),
            Resp2Frame::BulkString(s) => Resp3Frame::BlobString(s),
            Resp2Frame::Null => Resp3Frame::Null,
            Resp2Frame::Array(v) => {
                let ghost gv = v@;
                proof {
                    assert(orig->Array_0 == v);
                }
                let mut out: Vec<Resp3Frame> = Vec::new();
                let mut v = v;
                let n: usize = v.len();
                proof {
                    assert(v@ =~= gv.skip(0));
                }
                let mut j: usize = 0;
                while j < n
                    invariant
                        j <= n,
                        n as int == gv.len(),
                        v@ == gv.skip(j as int),
                        v3s(out@) == upgrade2s(v2s(gv.take(j as int))),
                        orig == self,
                        orig == Resp2Frame::Array(orig->Array_0),
                        orig->Array_0@ == gv,
                    decreases n - j,
                {
                    let ghost v_entry = v@;
                    let e = v.remove(0);
                    proof {
                        assert(e == v_entry[0]);
                        assert(v_entry[0] == gv[j as int]);
                        assert(decreases_to!(orig => orig->Array_0));
                        assert(decreases_to!(orig->Array_0 => orig->Array_0@));
                        assert(decreases_to!(orig->Array_0@ => orig->Array_0@[j as int]));
                        assert(orig->Array_0@[j as int] == e);
                    }
                    let ghost out_pre = out@;
                    let e3 = e.to_resp3();
                    out.push(e3);
                    proof {
                        lemma_v3s_push(out_pre, e3);
                        assert(gv.take(j + 1 as int) =~= gv.take(j as int).push(gv[j as int]));
                        lemma_v2s_push(gv.take(j as int), gv[j as int]);
                        lemma_upgrade2s_push(v2s(gv.take(j as int)), v2(gv[j as int]));
                        assert(v_entry.remove(0) =~= gv.skip(j + 1 as int));
                    }
                    j = j + 1;
                }
                proof {
                    assert(gv.take(n as int) =~= gv);
                }
                Resp3Frame::Array(out)
            },
        }
    }
}

} // verus!
