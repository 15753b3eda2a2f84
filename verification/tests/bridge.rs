use lithe_shim::bridge::{
    head_poll_step, head_wait_timed_out, header_value, parse_u64, plan_ws_response,
    push_result_from_code, stream_poll_step, ws_header_allowed, BodyPump, HeadStep, PumpAction,
    PushResult, StreamStep, WsPlan,
};
use lithe_shim::wire::{
    write_bytes, write_string, write_u16, write_u32, write_u8, WireResponse, STREAM_MSG_CHUNK,
    STREAM_MSG_END, STREAM_MSG_HEAD, STREAM_WIRE_VERSION,
};

fn head_bytes(status: u16, is_stream: bool, headers: &[(&str, &str)], body: &[u8]) -> Vec<u8> {
    let mut buf = Vec::new();
    write_u8(&mut buf, STREAM_WIRE_VERSION);
    write_u8(&mut buf, STREAM_MSG_HEAD);
    write_u16(&mut buf, status);
    write_u8(&mut buf, if is_stream { 1 } else { 0 });
    write_u32(&mut buf, headers.len() as u32);
    for (k, v) in headers {
        write_string(&mut buf, k).unwrap();
        write_string(&mut buf, v).unwrap();
    }
    write_bytes(&mut buf, body).unwrap();
    buf
}

fn chunk_bytes(body: &[u8]) -> Vec<u8> {
    let mut buf = Vec::new();
    write_u8(&mut buf, STREAM_WIRE_VERSION);
    write_u8(&mut buf, STREAM_MSG_CHUNK);
    write_bytes(&mut buf, body).unwrap();
    buf
}

fn end_bytes() -> Vec<u8> {
    vec![STREAM_WIRE_VERSION, STREAM_MSG_END]
}

#[test]
fn push_result_codes() {
    assert_eq!(push_result_from_code(0), PushResult::Closed);
    assert_eq!(push_result_from_code(1), PushResult::Accepted);
    assert_eq!(push_result_from_code(2), PushResult::Full);
    assert_eq!(push_result_from_code(7), PushResult::Closed);
}

// A streamed request body of chunks "abc" and "defg" reaches the engine
// whole: total visible body length 7, chunks in order.
#[test]
fn body_pump_streams_chunks_in_order() {
    let chunks: [&[u8]; 2] = [b"abc", b"defg"];
    let mut pump = BodyPump::new();
    let mut delivered: Vec<u8> = Vec::new();
    for chunk in chunks {
        pump.offer(chunk.to_vec());
        // the engine is full twice before accepting, as backpressure allows
        assert_eq!(pump.on_push_result(PushResult::Full), PumpAction::RetryAfterSleep);
        assert_eq!(pump.on_push_result(PushResult::Full), PumpAction::RetryAfterSleep);
        let pushed = pump.current_chunk().expect("chunk in flight").clone();
        assert_eq!(pump.on_push_result(PushResult::Accepted), PumpAction::Proceed);
        delivered.extend_from_slice(&pushed);
    }
    pump.finish();
    assert_eq!(pump.on_last_push_result(PushResult::Full), PumpAction::RetryAfterSleep);
    assert_eq!(pump.on_last_push_result(PushResult::Accepted), PumpAction::Stop);
    assert_eq!(delivered, b"abcdefg");
    assert_eq!(delivered.len(), 7);
}

#[test]
fn body_pump_stops_when_engine_closes() {
    let mut pump = BodyPump::new();
    pump.offer(b"abc".to_vec());
    assert_eq!(pump.on_push_result(PushResult::Closed), PumpAction::Stop);
}

#[test]
fn body_pump_closed_at_last_marker_is_success() {
    let mut pump = BodyPump::new();
    pump.finish();
    assert_eq!(pump.on_last_push_result(PushResult::Closed), PumpAction::Stop);
}

#[test]
fn body_pump_read_error_cancels() {
    let mut pump = BodyPump::new();
    assert_eq!(pump.body_read_failed(), PumpAction::CancelAndStop);
}

// A GET of /hello whose head arrives with the stream flag unset: the
// head's body is the complete response.
#[test]
fn head_poll_settles_buffered_response() {
    let bytes = head_bytes(200, false, &[], b"hello");
    match head_poll_step(Some(bytes)) {
        HeadStep::Respond(w) => {
            assert_eq!(w.status, 200);
            assert_eq!(w.body, b"hello");
        }
        _ => panic!("expected a buffered response"),
    }
}

#[test]
fn head_poll_waits_and_fails() {
    assert!(matches!(head_poll_step(None), HeadStep::Wait));
    // a chunk before the head is ignored
    assert!(matches!(head_poll_step(Some(chunk_bytes(b"x"))), HeadStep::Wait));
    // an undecodable buffer fails the exchange
    assert!(matches!(head_poll_step(Some(vec![9, 9])), HeadStep::Fail));
}

// A response with the stream flag set delivers its chunks through the
// streaming pump until the end marker.
#[test]
fn stream_pump_forwards_chunks_until_end() {
    let head = head_bytes(200, true, &[], b"");
    let first = match head_poll_step(Some(head)) {
        HeadStep::BeginStream(w) => {
            assert_eq!(w.status, 200);
            w.body
        }
        _ => panic!("expected a streamed response"),
    };
    let mut client_body = first;
    match stream_poll_step(Some(chunk_bytes(b"data: message 0\n\n"))) {
        StreamStep::Forward(chunk) => client_body.extend_from_slice(&chunk),
        _ => panic!("expected a chunk"),
    }
    assert!(matches!(stream_poll_step(None), StreamStep::Wait));
    assert!(matches!(stream_poll_step(Some(end_bytes())), StreamStep::Finish));
    let text = String::from_utf8(client_body).unwrap();
    assert!(text.contains("data: message 0"));
}

#[test]
fn stream_pump_fails_on_undecodable_chunk() {
    assert!(matches!(stream_poll_step(Some(vec![0])), StreamStep::Fail));
}

// No head before the configured timeout: the exchange reports a timeout
// once the elapsed wait passes the limit.
#[test]
fn head_wait_timeout_decision() {
    assert!(head_wait_timed_out(300, Some(100)));
    assert!(head_wait_timed_out(100, Some(100)));
    assert!(!head_wait_timed_out(99, Some(100)));
    assert!(!head_wait_timed_out(u64::MAX, None));
}

#[test]
fn header_value_folds_name_and_target() {
    let headers = vec![
        ("X-Lithe-WS-Id".to_string(), "42".to_string()),
        ("x-lithe-ws-id".to_string(), "later".to_string()),
    ];
    // the stored name is folded before comparison
    assert_eq!(header_value(&headers, "x-lithe-ws-id"), Some("42".to_string()));
    // so is the target, whitespace included
    assert_eq!(header_value(&headers, "  X-LITHE-WS-ID  "), Some("42".to_string()));
    assert_eq!(header_value(&headers, "x-other"), None);
}

#[test]
fn ws_header_allowed_strips_reserved() {
    assert!(!ws_header_allowed("x-lithe-ws-id"));
    assert!(!ws_header_allowed("Connection"));
    assert!(!ws_header_allowed(" Upgrade "));
    assert!(!ws_header_allowed("Sec-WebSocket-Accept"));
    assert!(!ws_header_allowed("content-length"));
    assert!(!ws_header_allowed("Transfer-Encoding"));
    assert!(ws_header_allowed("x-custom"));
    assert!(ws_header_allowed("set-cookie"));
}

#[test]
fn parse_u64_accepts_decimal() {
    assert_eq!(parse_u64("0"), Some(0));
    assert_eq!(parse_u64("123"), Some(123));
    assert_eq!(parse_u64("+7"), Some(7));
    assert_eq!(parse_u64("18446744073709551615"), Some(u64::MAX));
}

#[test]
fn parse_u64_rejects_bad_input() {
    assert_eq!(parse_u64(""), None);
    assert_eq!(parse_u64("+"), None);
    assert_eq!(parse_u64("12a"), None);
    assert_eq!(parse_u64("-3"), None);
    assert_eq!(parse_u64(" 5"), None);
    assert_eq!(parse_u64("18446744073709551616"), None);
}

// The engine answers the handshake with the reserved header carrying the
// WebSocket handle: upgrade, with the reserved headers stripped.
#[test]
fn plan_ws_response_upgrades_on_reserved_header() {
    let resp = WireResponse {
        status: 101,
        headers: vec![
            ("X-Lithe-WS-Id".to_string(), "42".to_string()),
            ("Upgrade".to_string(), "websocket".to_string()),
            ("x-session".to_string(), "abc".to_string()),
        ],
        body: Vec::new(),
    };
    match plan_ws_response(resp) {
        WsPlan::Upgrade { ws_id, headers } => {
            assert_eq!(ws_id, 42);
            assert_eq!(headers, vec![("x-session".to_string(), "abc".to_string())]);
        }
        _ => panic!("expected an upgrade"),
    }
}

#[test]
fn plan_ws_response_plain_without_handle() {
    let resp = WireResponse {
        status: 200,
        headers: vec![("x-test".to_string(), "true".to_string())],
        body: b"hello".to_vec(),
    };
    match plan_ws_response(resp) {
        WsPlan::Plain(w) => {
            assert_eq!(w.status, 200);
            assert_eq!(w.body, b"hello");
        }
        _ => panic!("expected a plain response"),
    }
}

#[test]
fn plan_ws_response_plain_on_unparsable_handle() {
    let resp = WireResponse {
        status: 101,
        headers: vec![("x-lithe-ws-id".to_string(), "not-a-number".to_string())],
        body: Vec::new(),
    };
    assert!(matches!(plan_ws_response(resp), WsPlan::Plain(_)));
}
