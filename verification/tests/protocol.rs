use resp_codec::codec::{RedisCodec, RespFrame};
use resp_codec::error::RedisError;
use resp_codec::frame::{Resp2Frame, Resp3Frame, RespVersion};
use resp_codec::version::{new_shared_version, write_version};

fn codec_at(v: RespVersion) -> RedisCodec {
    let cell = new_shared_version(v);
    RedisCodec::new(String::from("test"), String::from("localhost:6379"), &cell)
}

#[test]
fn decode_simple_string_ok() {
    // The concrete scenario: "+OK\r\n" yields SimpleString "OK", consumes
    // exactly those bytes, and leaves the buffer empty.
    let mut codec = codec_at(RespVersion::Resp2);
    let mut buf: Vec<u8> = b"+OK\r\n".to_vec();
    let got = codec
        .decode_with_version(RespVersion::Resp2, &mut buf)
        .expect("decode failed");
    match got {
        Some(RespFrame::Resp2(Resp2Frame::SimpleString(s))) => assert_eq!(s, b"OK".to_vec()),
        other => panic!("unexpected frame: {:?}", other.is_some()),
    }
    assert!(buf.is_empty());
    assert_eq!(codec.res_size_stats.total, 5);
    assert_eq!(codec.res_size_stats.count, 1);
}

#[test]
fn decode_empty_buffer_yields_nothing() {
    let mut codec = codec_at(RespVersion::Resp2);
    let mut buf: Vec<u8> = Vec::new();
    let got = codec
        .decode_with_version(RespVersion::Resp2, &mut buf)
        .expect("decode failed");
    assert!(got.is_none());
    assert_eq!(codec.res_size_stats.count, 0);
}

#[test]
fn roundtrip_resp2_array() {
    let frame = RespFrame::Resp2(Resp2Frame::Array(vec![
        Resp2Frame::SimpleString(b"OK".to_vec()),
        Resp2Frame::Integer(-42),
        Resp2Frame::BulkString(b"hello\nworld".to_vec()),
        Resp2Frame::Null,
    ]));
    let mut codec = codec_at(RespVersion::Resp2);
    let mut wire: Vec<u8> = Vec::new();
    codec
        .encode_with_version(RespVersion::Resp2, frame, &mut wire)
        .expect("encode failed");
    assert_eq!(
        wire,
        b"*4\r\n+OK\r\n:-42\r\n$11\r\nhello\nworld\r\n$-1\r\n".to_vec()
    );
    let got = codec
        .decode_with_version(RespVersion::Resp2, &mut wire)
        .expect("decode failed")
        .expect("no frame");
    match got {
        RespFrame::Resp2(Resp2Frame::Array(items)) => {
            assert_eq!(items.len(), 4);
            assert_eq!(items[0], Resp2Frame::SimpleString(b"OK".to_vec()));
            assert_eq!(items[1], Resp2Frame::Integer(-42));
            assert_eq!(items[2], Resp2Frame::BulkString(b"hello\nworld".to_vec()));
            assert_eq!(items[3], Resp2Frame::Null);
        }
        _ => panic!("wrong shape"),
    }
    assert!(wire.is_empty());
}

#[test]
fn roundtrip_resp3_rich_types() {
    let frame = RespFrame::Resp3(Resp3Frame::MapFrame(vec![
        (
            Resp3Frame::SimpleString(b"first".to_vec()),
            Resp3Frame::Double(b"1.25".to_vec()),
        ),
        (
            Resp3Frame::BigNumber(b"3492890328409238509324850943850943825024385".to_vec()),
            Resp3Frame::Boolean(true),
        ),
    ]));
    let mut codec = codec_at(RespVersion::Resp3);
    let mut wire: Vec<u8> = Vec::new();
    codec
        .encode_with_version(RespVersion::Resp3, frame, &mut wire)
        .expect("encode failed");
    assert_eq!(
        wire,
        b"%2\r\n+first\r\n,1.25\r\n(3492890328409238509324850943850943825024385\r\n#t\r\n".to_vec()
    );
    let got = codec
        .decode_with_version(RespVersion::Resp3, &mut wire)
        .expect("decode failed")
        .expect("no frame");
    match got {
        RespFrame::Resp3(Resp3Frame::MapFrame(pairs)) => {
            assert_eq!(pairs.len(), 2);
            assert_eq!(pairs[0].0, Resp3Frame::SimpleString(b"first".to_vec()));
            assert_eq!(pairs[0].1, Resp3Frame::Double(b"1.25".to_vec()));
            assert_eq!(pairs[1].1, Resp3Frame::Boolean(true));
        }
        _ => panic!("wrong shape"),
    }
    assert!(wire.is_empty());
}

#[test]
fn upgrade_preserves_structure() {
    let f = Resp2Frame::Array(vec![
        Resp2Frame::Integer(7),
        Resp2Frame::BulkString(b"x".to_vec()),
        Resp2Frame::Null,
    ]);
    match f.to_resp3() {
        Resp3Frame::Array(items) => {
            assert_eq!(items[0], Resp3Frame::Number(7));
            assert_eq!(items[1], Resp3Frame::BlobString(b"x".to_vec()));
            assert_eq!(items[2], Resp3Frame::Null);
        }
        _ => panic!("wrong shape"),
    }
}

#[test]
fn fragmentation_one_byte_at_a_time() {
    // Feeding the stream a byte at a time yields the same frames as whole.
    let stream = b"+OK\r\n:123\r\n$3\r\nfoo\r\n".to_vec();
    let mut whole = codec_at(RespVersion::Resp2);
    let mut buf = stream.clone();
    let mut expected = Vec::new();
    loop {
        match whole
            .decode_with_version(RespVersion::Resp2, &mut buf)
            .expect("decode failed")
        {
            Some(f) => expected.push(format!("{:?}", frame_tag(&f))),
            None => break,
        }
    }
    let mut chunked = codec_at(RespVersion::Resp2);
    let mut got = Vec::new();
    let mut pending: Vec<u8> = Vec::new();
    for byte in stream {
        pending.push(byte);
        loop {
            match chunked
                .decode_with_version(RespVersion::Resp2, &mut pending)
                .expect("decode failed")
            {
                Some(f) => got.push(format!("{:?}", frame_tag(&f))),
                None => break,
            }
        }
    }
    assert_eq!(expected.len(), 3);
    assert_eq!(got, expected);
    assert!(pending.is_empty());
}

fn frame_tag(f: &RespFrame) -> String {
    match f {
        RespFrame::Resp2(inner) => format!("{:?}", inner),
        RespFrame::Resp3(inner) => format!("{:?}", inner),
    }
}

#[test]
fn streaming_array_across_calls() {
    // A header declaring two elements, each element in its own call.
    let mut codec = codec_at(RespVersion::Resp3);
    let mut buf: Vec<u8> = b"*2\r\n".to_vec();
    assert!(codec
        .decode_with_version(RespVersion::Resp3, &mut buf)
        .expect("decode failed")
        .is_none());
    assert!(buf.is_empty());
    assert!(codec.decoder_stream.is_some());

    buf.extend_from_slice(b":1\r\n");
    assert!(codec
        .decode_with_version(RespVersion::Resp3, &mut buf)
        .expect("decode failed")
        .is_none());
    assert!(buf.is_empty());

    buf.extend_from_slice(b":2\r\n");
    let got = codec
        .decode_with_version(RespVersion::Resp3, &mut buf)
        .expect("decode failed")
        .expect("no frame");
    match got {
        RespFrame::Resp3(Resp3Frame::Array(items)) => {
            assert_eq!(items, vec![Resp3Frame::Number(1), Resp3Frame::Number(2)]);
        }
        _ => panic!("wrong shape"),
    }
    assert!(buf.is_empty());
    assert!(codec.decoder_stream.is_none());
}

#[test]
fn streaming_unknown_length_array() {
    let mut codec = codec_at(RespVersion::Resp3);
    let mut buf: Vec<u8> = b"*?\r\n:1\r\n:2\r\n.\r\n".to_vec();
    let got = codec
        .decode_with_version(RespVersion::Resp3, &mut buf)
        .expect("decode failed")
        .expect("no frame");
    match got {
        RespFrame::Resp3(Resp3Frame::Array(items)) => {
            assert_eq!(items, vec![Resp3Frame::Number(1), Resp3Frame::Number(2)]);
        }
        _ => panic!("wrong shape"),
    }
    assert!(codec.decoder_stream.is_none());
}

#[test]
fn streaming_chunked_blob_string() {
    let mut codec = codec_at(RespVersion::Resp3);
    let mut buf: Vec<u8> = b"$?\r\n;4\r\nHell\r\n;1\r\no\r\n;0\r\n".to_vec();
    let got = codec
        .decode_with_version(RespVersion::Resp3, &mut buf)
        .expect("decode failed")
        .expect("no frame");
    match got {
        RespFrame::Resp3(Resp3Frame::BlobString(s)) => assert_eq!(s, b"Hello".to_vec()),
        _ => panic!("wrong shape"),
    }
    assert!(buf.is_empty());
}

#[test]
fn byte_accounting_across_chunks() {
    // The sum recorded into the decode statistic equals the consumed bytes.
    let stream = b"*2\r\n:1\r\n:2\r\n+done\r\n".to_vec();
    let mut codec = codec_at(RespVersion::Resp3);
    let mut pending: Vec<u8> = Vec::new();
    for chunk in stream.chunks(3) {
        pending.extend_from_slice(chunk);
        loop {
            match codec
                .decode_with_version(RespVersion::Resp3, &mut pending)
                .expect("decode failed")
            {
                Some(_) => {}
                None => break,
            }
        }
    }
    assert!(pending.is_empty());
    assert_eq!(codec.res_size_stats.total, stream.len() as u64);
}

#[test]
fn encode_accounting_matches_emitted_bytes() {
    let mut codec = codec_at(RespVersion::Resp2);
    let mut wire: Vec<u8> = Vec::new();
    codec
        .encode_with_version(
            RespVersion::Resp2,
            RespFrame::Resp2(Resp2Frame::SimpleString(b"OK".to_vec())),
            &mut wire,
        )
        .expect("encode failed");
    codec
        .encode_with_version(
            RespVersion::Resp2,
            RespFrame::Resp2(Resp2Frame::Integer(5)),
            &mut wire,
        )
        .expect("encode failed");
    assert_eq!(codec.req_size_stats.total, wire.len() as u64);
    assert_eq!(codec.req_size_stats.count, 2);
}

#[test]
fn auth_error_passes_through_unchanged() {
    let raw = b"-NOAUTH Authentication required.\r\n".to_vec();
    let mut codec = codec_at(RespVersion::Resp2);
    let mut buf = raw.clone();
    let got = codec
        .decode_with_version(RespVersion::Resp2, &mut buf)
        .expect("decode failed")
        .expect("no frame");
    match got {
        RespFrame::Resp2(Resp2Frame::Error(s)) => {
            assert_eq!(s, b"NOAUTH Authentication required.".to_vec());
        }
        _ => panic!("wrong shape"),
    }
    assert!(codec.auth_error_seen);

    let mut buf2: Vec<u8> = b"-ERR unknown command\r\n".to_vec();
    codec
        .decode_with_version(RespVersion::Resp2, &mut buf2)
        .expect("decode failed")
        .expect("no frame");
    assert!(!codec.auth_error_seen);
}

#[test]
fn version_isolation_map_fails_under_resp2() {
    let mut codec = codec_at(RespVersion::Resp2);
    let map = RespFrame::Resp3(Resp3Frame::MapFrame(vec![(
        Resp3Frame::SimpleString(b"k".to_vec()),
        Resp3Frame::Number(1),
    )]));
    let mut wire: Vec<u8> = Vec::new();
    let err = codec
        .encode_with_version(RespVersion::Resp2, map, &mut wire)
        .unwrap_err();
    assert_eq!(err, RedisError::Encode);
}

#[test]
fn version_isolation_null_bytes_differ() {
    let mut codec = codec_at(RespVersion::Resp2);
    let mut w2: Vec<u8> = Vec::new();
    codec
        .encode_with_version(
            RespVersion::Resp2,
            RespFrame::Resp2(Resp2Frame::Null),
            &mut w2,
        )
        .expect("encode failed");
    let mut w3: Vec<u8> = Vec::new();
    codec
        .encode_with_version(
            RespVersion::Resp3,
            RespFrame::Resp2(Resp2Frame::Null),
            &mut w3,
        )
        .expect("encode failed");
    assert_eq!(w2, b"$-1\r\n".to_vec());
    assert_eq!(w3, b"_\r\n".to_vec());
    assert_ne!(w2, w3);
}

#[test]
fn version_switch_through_shared_cell() {
    let cell = new_shared_version(RespVersion::Resp2);
    let mut codec = RedisCodec::new(String::from("c"), String::from("s"), &cell);
    assert!(!codec.is_resp3());
    write_version(&cell, RespVersion::Resp3);
    assert!(codec.is_resp3());
    let mut buf: Vec<u8> = b"#t\r\n".to_vec();
    let got = codec.decode(&mut buf).expect("decode failed").expect("no frame");
    match got {
        RespFrame::Resp3(Resp3Frame::Boolean(b)) => assert!(b),
        _ => panic!("wrong shape"),
    }
}

#[test]
fn decode_error_on_malformed_bytes() {
    let mut codec = codec_at(RespVersion::Resp2);
    let mut buf: Vec<u8> = b"x nonsense\r\n".to_vec();
    let err = codec
        .decode_with_version(RespVersion::Resp2, &mut buf)
        .unwrap_err();
    assert_eq!(err, RedisError::Decode);
}

#[test]
fn protocol_mismatch_on_resp3_marker_at_resp2() {
    let mut codec = codec_at(RespVersion::Resp2);
    let mut buf: Vec<u8> = b"%1\r\n+k\r\n:1\r\n".to_vec();
    let err = codec
        .decode_with_version(RespVersion::Resp2, &mut buf)
        .unwrap_err();
    assert_eq!(err, RedisError::ProtocolMismatch);
}

#[test]
fn encode_error_on_terminator_in_simple_string() {
    let mut codec = codec_at(RespVersion::Resp2);
    let mut wire: Vec<u8> = Vec::new();
    let err = codec
        .encode_with_version(
            RespVersion::Resp2,
            RespFrame::Resp2(Resp2Frame::SimpleString(b"bad\r\nline".to_vec())),
            &mut wire,
        )
        .unwrap_err();
    assert_eq!(err, RedisError::Encode);
}

#[test]
fn bulk_string_edges() {
    let mut codec = codec_at(RespVersion::Resp2);
    let mut buf: Vec<u8> = b"$0\r\n\r\n".to_vec();
    let got = codec
        .decode_with_version(RespVersion::Resp2, &mut buf)
        .expect("decode failed")
        .expect("no frame");
    match got {
        RespFrame::Resp2(Resp2Frame::BulkString(s)) => assert!(s.is_empty()),
        _ => panic!("wrong shape"),
    }
    let mut buf2: Vec<u8> = b"$-1\r\n".to_vec();
    let got2 = codec
        .decode_with_version(RespVersion::Resp2, &mut buf2)
        .expect("decode failed")
        .expect("no frame");
    match got2 {
        RespFrame::Resp2(Resp2Frame::Null) => {}
        _ => panic!("wrong shape"),
    }
}

#[test]
fn integer_extremes_roundtrip() {
    for v in [i64::MIN, -1, 0, 1, i64::MAX] {
        let mut codec = codec_at(RespVersion::Resp2);
        let mut wire: Vec<u8> = Vec::new();
        codec
            .encode_with_version(
                RespVersion::Resp2,
                RespFrame::Resp2(Resp2Frame::Integer(v)),
                &mut wire,
            )
            .expect("encode failed");
        let got = codec
            .decode_with_version(RespVersion::Resp2, &mut wire)
            .expect("decode failed")
            .expect("no frame");
        match got {
            RespFrame::Resp2(Resp2Frame::Integer(w)) => assert_eq!(w, v),
            _ => panic!("wrong shape"),
        }
    }
}

#[test]
fn incomplete_frames_wait_for_more_bytes() {
    let mut codec = codec_at(RespVersion::Resp2);
    let mut buf: Vec<u8> = b"$5\r\nhel".to_vec();
    assert!(codec
        .decode_with_version(RespVersion::Resp2, &mut buf)
        .expect("decode failed")
        .is_none());
    assert_eq!(buf, b"$5\r\nhel".to_vec());
    buf.extend_from_slice(b"lo\r\n");
    let got = codec
        .decode_with_version(RespVersion::Resp2, &mut buf)
        .expect("decode failed")
        .expect("no frame");
    match got {
        RespFrame::Resp2(Resp2Frame::BulkString(s)) => assert_eq!(s, b"hello".to_vec()),
        _ => panic!("wrong shape"),
    }
}

#[test]
fn stats_mean_and_spread() {
    let mut stats = resp_codec::stats::SizeStats::new();
    stats.sample(10);
    stats.sample(30);
    assert_eq!(stats.sample_count(), 2);
    assert_eq!(stats.mean(), 20);
    assert_eq!(stats.spread(), 20);
}
