use lithe_shim::websocket::{
    decode_message, encode_message, ws_inbound_step, ws_outbound_step, ws_push_step, WsMessage,
    WsOutboundStep, WsPushStep, WS_KIND_BINARY, WS_KIND_TEXT,
};

#[test]
fn ws_encode_decode_roundtrip() {
    let text = WsMessage::Text("hello".into());
    let encoded = encode_message(text).expect("encode text");
    let decoded = decode_message(&encoded).expect("decode text");
    assert!(matches!(decoded, WsMessage::Text(t) if t == "hello"));

    let bin = WsMessage::Binary(vec![1, 2, 3]);
    let encoded = encode_message(bin).expect("encode bin");
    let decoded = decode_message(&encoded).expect("decode bin");
    assert!(matches!(decoded, WsMessage::Binary(b) if b == vec![1, 2, 3]));

    let ping = WsMessage::Ping(vec![9]);
    let encoded = encode_message(ping).expect("encode ping");
    let decoded = decode_message(&encoded).expect("decode ping");
    assert!(matches!(decoded, WsMessage::Ping(b) if b == vec![9]));

    let pong = WsMessage::Pong(vec![8]);
    let encoded = encode_message(pong).expect("encode pong");
    let decoded = decode_message(&encoded).expect("decode pong");
    assert!(matches!(decoded, WsMessage::Pong(b) if b == vec![8]));

    let close = WsMessage::Close;
    let encoded = encode_message(close).expect("encode close");
    let decoded = decode_message(&encoded).expect("decode close");
    assert!(matches!(decoded, WsMessage::Close));
}

#[test]
fn ws_decode_fuzzish() {
    let mut seed = 7u32;
    for len in 0..128usize {
        let mut data = vec![0u8; len];
        for b in data.iter_mut() {
            seed = seed.wrapping_mul(1664525).wrapping_add(1013904223);
            *b = (seed >> 24) as u8;
        }
        let _ = decode_message(&data);
    }
}

#[test]
fn ws_decode_empty_and_unknown_kind() {
    assert!(decode_message(&[]).is_none());
    assert!(decode_message(&[200, 1, 2]).is_none());
}

#[test]
fn ws_text_with_invalid_utf8_falls_back_to_binary() {
    let data = vec![WS_KIND_TEXT, 0xff, 0xfe];
    let decoded = decode_message(&data).expect("decode");
    assert!(matches!(decoded, WsMessage::Binary(b) if b == vec![0xff, 0xfe]));
}

#[test]
fn ws_text_non_ascii_payload() {
    let encoded = encode_message(WsMessage::Text("gr\u{fc}\u{df}e".into())).expect("encode");
    assert_eq!(encoded[0], WS_KIND_TEXT);
    let decoded = decode_message(&encoded).expect("decode");
    assert!(matches!(decoded, WsMessage::Text(t) if t == "gr\u{fc}\u{df}e"));
}

// A text frame sent by the client is echoed by the engine tagged TEXT and
// comes back to the client as the same text frame.
#[test]
fn ws_echo_text_frame() {
    let (encoded, is_close) = ws_inbound_step(WsMessage::Text("hello".into()));
    assert!(!is_close);
    assert_eq!(encoded[0], WS_KIND_TEXT);
    assert_eq!(&encoded[1..], b"hello");

    // the engine echoes the tagged bytes back through the outbound pump
    match ws_outbound_step(Some(encoded)) {
        WsOutboundStep::Send(WsMessage::Text(t), is_close) => {
            assert_eq!(t, "hello");
            assert!(!is_close);
        }
        _ => panic!("expected a text frame"),
    }
}

#[test]
fn ws_outbound_close_stops_pump() {
    let close_bytes = encode_message(WsMessage::Close).expect("encode close");
    match ws_outbound_step(Some(close_bytes)) {
        WsOutboundStep::Send(WsMessage::Close, is_close) => assert!(is_close),
        _ => panic!("expected a close frame"),
    }
    assert!(matches!(ws_outbound_step(None), WsOutboundStep::Sleep));
    assert!(matches!(ws_outbound_step(Some(vec![])), WsOutboundStep::Skip));
}

#[test]
fn ws_inbound_close_marks_stop() {
    let (encoded, is_close) = ws_inbound_step(WsMessage::Close);
    assert!(is_close);
    assert_eq!(encoded, vec![lithe_shim::websocket::WS_KIND_CLOSE]);
}

#[test]
fn ws_push_step_maps_codes() {
    assert!(matches!(ws_push_step(1), WsPushStep::Delivered));
    assert!(matches!(ws_push_step(2), WsPushStep::RetryAfterSleep));
    assert!(matches!(ws_push_step(0), WsPushStep::GiveUp));
    assert!(matches!(ws_push_step(99), WsPushStep::GiveUp));
}

#[test]
fn ws_binary_roundtrip_kind_byte() {
    let encoded = encode_message(WsMessage::Binary(vec![0, 1, 255])).expect("encode");
    assert_eq!(encoded, vec![WS_KIND_BINARY, 0, 1, 255]);
}
