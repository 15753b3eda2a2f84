use lithe_shim::wire::{
    decode_response, decode_stream_msg, encode_request, write_bytes, write_string, write_u16,
    write_u32, write_u8, Method, StreamMsg, WireError, STREAM_MSG_CHUNK, STREAM_MSG_END,
    STREAM_MSG_HEAD, STREAM_WIRE_VERSION, WIRE_VERSION,
};

#[test]
fn decode_response_roundtrip() {
    let mut buf = Vec::new();
    write_u8(&mut buf, WIRE_VERSION);
    write_u16(&mut buf, 201);
    write_u32(&mut buf, 1);
    write_string(&mut buf, "x-test").unwrap();
    write_string(&mut buf, "true").unwrap();
    write_bytes(&mut buf, b"ok").unwrap();

    let resp = decode_response(&buf).expect("decode response");
    assert_eq!(resp.status, 201);
    assert_eq!(resp.headers, vec![("x-test".to_string(), "true".to_string())]);
    assert_eq!(resp.body, b"ok");
}

#[test]
fn decode_stream_messages() {
    let mut head = Vec::new();
    write_u8(&mut head, STREAM_WIRE_VERSION);
    write_u8(&mut head, STREAM_MSG_HEAD);
    write_u16(&mut head, 200);
    write_u8(&mut head, 1);
    write_u32(&mut head, 1);
    write_string(&mut head, "x-stream").unwrap();
    write_string(&mut head, "yes").unwrap();
    write_bytes(&mut head, b"head").unwrap();

    let msg = decode_stream_msg(&head).expect("decode head");
    match msg {
        StreamMsg::Head {
            status,
            headers,
            is_stream,
            body,
        } => {
            assert_eq!(status, 200);
            assert_eq!(headers, vec![("x-stream".to_string(), "yes".to_string())]);
            assert!(is_stream);
            assert_eq!(body, b"head");
        }
        _ => panic!("expected head"),
    }

    let mut chunk = Vec::new();
    write_u8(&mut chunk, STREAM_WIRE_VERSION);
    write_u8(&mut chunk, STREAM_MSG_CHUNK);
    write_bytes(&mut chunk, b"chunk").unwrap();
    let msg = decode_stream_msg(&chunk).expect("decode chunk");
    match msg {
        StreamMsg::Chunk(body) => assert_eq!(body, b"chunk"),
        _ => panic!("expected chunk"),
    }

    let mut end = Vec::new();
    write_u8(&mut end, STREAM_WIRE_VERSION);
    write_u8(&mut end, STREAM_MSG_END);
    let msg = decode_stream_msg(&end).expect("decode end");
    matches!(msg, StreamMsg::End);
}

#[test]
fn decode_stream_msg_fuzzish() {
    let mut seed = 1u32;
    for len in 0..128usize {
        let mut data = vec![0u8; len];
        for b in data.iter_mut() {
            seed = seed.wrapping_mul(1664525).wrapping_add(1013904223);
            *b = (seed >> 24) as u8;
        }
        let _ = decode_stream_msg(&data);
    }
}

#[test]
fn decode_response_fuzzish() {
    let mut seed = 3u32;
    for len in 0..128usize {
        let mut data = vec![0u8; len];
        for b in data.iter_mut() {
            seed = seed.wrapping_mul(1664525).wrapping_add(1013904223);
            *b = (seed >> 24) as u8;
        }
        let _ = decode_response(&data);
    }
}

#[test]
fn decode_rejects_wrong_version() {
    for ver in 0u8..=255 {
        if ver == WIRE_VERSION {
            continue;
        }
        let buf = vec![ver, 0, 200, 0, 0, 0, 0, 0, 0, 0, 0];
        assert!(matches!(decode_response(&buf), Err(WireError::UnsupportedVersion)));
        assert!(matches!(decode_stream_msg(&buf), Err(WireError::UnsupportedVersion)));
    }
}

#[test]
fn decode_rejects_empty_and_truncated() {
    assert!(matches!(decode_response(&[]), Err(WireError::UnexpectedEof)));
    assert!(matches!(decode_stream_msg(&[]), Err(WireError::UnexpectedEof)));
    // version alone: the status is missing
    assert!(matches!(decode_response(&[WIRE_VERSION]), Err(WireError::UnexpectedEof)));
    // a blob length that runs past the end of the buffer
    let mut buf = Vec::new();
    write_u8(&mut buf, WIRE_VERSION);
    write_u16(&mut buf, 200);
    write_u32(&mut buf, 0);
    write_u32(&mut buf, 100);
    buf.push(1);
    assert!(matches!(decode_response(&buf), Err(WireError::UnexpectedEof)));
}

#[test]
fn decode_rejects_unknown_stream_kind() {
    for kind in 0u8..=255 {
        if kind == STREAM_MSG_HEAD || kind == STREAM_MSG_CHUNK || kind == STREAM_MSG_END {
            continue;
        }
        let buf = vec![STREAM_WIRE_VERSION, kind];
        assert!(matches!(decode_stream_msg(&buf), Err(WireError::UnknownMessageKind)));
    }
}

#[test]
fn decode_rejects_invalid_utf8_header() {
    let mut buf = Vec::new();
    write_u8(&mut buf, WIRE_VERSION);
    write_u16(&mut buf, 200);
    write_u32(&mut buf, 1);
    // header name of one byte that is no valid UTF-8 sequence
    write_bytes(&mut buf, &[0xff]).unwrap();
    write_string(&mut buf, "v").unwrap();
    write_bytes(&mut buf, b"").unwrap();
    assert!(matches!(decode_response(&buf), Err(WireError::InvalidUtf8)));
}

#[test]
fn decode_non_ascii_header_value() {
    let mut buf = Vec::new();
    write_u8(&mut buf, WIRE_VERSION);
    write_u16(&mut buf, 200);
    write_u32(&mut buf, 1);
    write_string(&mut buf, "x-place").unwrap();
    write_string(&mut buf, "caf\u{e9} \u{2603}").unwrap();
    write_bytes(&mut buf, b"").unwrap();
    let resp = decode_response(&buf).expect("decode response");
    assert_eq!(resp.headers, vec![("x-place".to_string(), "caf\u{e9} \u{2603}".to_string())]);
}

#[test]
fn encode_request_exact_bytes() {
    let headers = vec![("a".to_string(), "b".to_string())];
    let buf = encode_request(&Method::Post, "/x", "q=1", &headers, b"hi", Some("peer"))
        .expect("encode request");
    let mut expected = Vec::new();
    expected.push(WIRE_VERSION);
    expected.push(1); // POST
    write_string(&mut expected, "/x").unwrap();
    write_string(&mut expected, "q=1").unwrap();
    write_u32(&mut expected, 1);
    write_string(&mut expected, "a").unwrap();
    write_string(&mut expected, "b").unwrap();
    write_bytes(&mut expected, b"hi").unwrap();
    expected.push(1);
    write_string(&mut expected, "peer").unwrap();
    assert_eq!(buf, expected);
}

#[test]
fn encode_request_no_remote() {
    let buf = encode_request(&Method::Get, "/hello", "", &[], b"", None).expect("encode request");
    let mut expected = Vec::new();
    expected.push(WIRE_VERSION);
    expected.push(0); // GET
    write_string(&mut expected, "/hello").unwrap();
    write_string(&mut expected, "").unwrap();
    write_u32(&mut expected, 0);
    write_bytes(&mut expected, b"").unwrap();
    expected.push(0);
    assert_eq!(buf, expected);
}

#[test]
fn method_codes_cover_supported_set() {
    let cases = [
        (Method::Get, 0u8),
        (Method::Post, 1),
        (Method::Put, 2),
        (Method::Patch, 3),
        (Method::Delete, 4),
        (Method::Options, 5),
        (Method::Head, 6),
    ];
    for (m, code) in cases {
        let buf = encode_request(&m, "/", "", &[], b"", None).expect("encode request");
        assert_eq!(buf[1], code);
    }
}

#[test]
fn response_trailing_bytes_are_ignored() {
    let mut buf = Vec::new();
    write_u8(&mut buf, WIRE_VERSION);
    write_u16(&mut buf, 204);
    write_u32(&mut buf, 0);
    write_bytes(&mut buf, b"done").unwrap();
    buf.extend_from_slice(b"trailing garbage");
    let resp = decode_response(&buf).expect("decode response");
    assert_eq!(resp.status, 204);
    assert_eq!(resp.body, b"done");
}
