//! WebSocket bridge: the tagged byte format socket frames cross the engine
//! boundary in, and the per-frame decisions of the two pumps that run after
//! a protocol upgrade.

use vstd::prelude::*;
use vstd::utf8::{valid_utf8, decode_utf8, encode_utf8};
use crate::wire::utf8_to_string;

verus! {

pub const WS_KIND_TEXT: u8 = 0;
pub const WS_KIND_BINARY: u8 = 1;
pub const WS_KIND_CLOSE: u8 = 2;
pub const WS_KIND_PING: u8 = 3;
pub const WS_KIND_PONG: u8 = 4;

/// A socket frame as the bridge sees it, carried across the boundary as a
/// one-byte kind tag followed by the payload.
#[derive(Debug)]
pub enum WsMessage {
    Text(String),
    Binary(Vec<u8>),
    Close,
    Ping(Vec<u8>),
    Pong(Vec<u8>),
}

/// Mathematical view of a [`WsMessage`].
#[verifier::ext_equal]
pub enum WsMessageModel {
    Text(Seq<char>),
    Binary(Seq<u8>),
    Close,
    Ping(Seq<u8>),
    Pong(Seq<u8>),
}

impl View for WsMessage {
    type V = WsMessageModel;

    open spec fn view(&self) -> WsMessageModel {
        match self {
            WsMessage::Text(s) => WsMessageModel::Text(s@),
            WsMessage::Binary(b) => WsMessageModel::Binary(b@),
            WsMessage::Close => WsMessageModel::Close,
            WsMessage::Ping(b) => WsMessageModel::Ping(b@),
            WsMessage::Pong(b) => WsMessageModel::Pong(b@),
        }
    }
}

/// The tagged byte encoding of a message: its kind byte, then its payload
/// (text as UTF-8); a close frame carries no payload.
pub open spec fn spec_encode_ws(m: WsMessageModel) -> Seq<u8> {
    match m {
        WsMessageModel::Text(s) => seq![WS_KIND_TEXT] + encode_utf8(s),
        WsMessageModel::Binary(b) => seq![WS_KIND_BINARY] + b,
        WsMessageModel::Close => seq![WS_KIND_CLOSE],
        WsMessageModel::Ping(b) => seq![WS_KIND_PING] + b,
        WsMessageModel::Pong(b) => seq![WS_KIND_PONG] + b,
    }
}

/// What decoding a tagged byte buffer yields: nothing for an empty buffer
/// or an unknown kind; a text frame whose payload is not valid UTF-8 comes
/// back as a binary frame rather than being dropped.
pub open spec fn spec_decode_ws(bytes: Seq<u8>) -> Option<WsMessageModel> {
    if bytes.len() == 0 {
        None
    } else {
        let kind = bytes[0];
        let payload = bytes.drop_first();
        if kind == WS_KIND_TEXT {
            if valid_utf8(payload) {
                Some(WsMessageModel::Text(decode_utf8(payload)))
            } else {
                Some(WsMessageModel::Binary(payload))
            }
        } else if kind == WS_KIND_BINARY {
            Some(WsMessageModel::Binary(payload))
        } else if kind == WS_KIND_CLOSE {
            Some(WsMessageModel::Close)
        } else if kind == WS_KIND_PING {
            Some(WsMessageModel::Ping(payload))
        } else if kind == WS_KIND_PONG {
            Some(WsMessageModel::Pong(payload))
        } else {
            None
        }
    }
}

/// Appends a byte slice.
fn append_bytes(buf: &mut Vec<u8>, bytes: &[u8])
    ensures
        final(buf)@ == old(buf)@ + bytes@,
{
    let mut j: usize = 0;
    while j < bytes.len()
        invariant
            j <= bytes.len(),
            buf@ == old(buf)@ + bytes@.take(j as int),
        decreases bytes.len() - j,
    {
        let b = bytes[j];
        proof {
            assert(old(buf)@ + bytes@.take(j as int) + seq![bytes@[j as int]] =~= old(buf)@
                + bytes@.take(j as int + 1));
        }
        buf.push(b);
        j = j + 1;
    }
    proof {
        assert(bytes@.take(bytes@.len() as int) =~= bytes@);
    }
}

/// Encodes a frame into its tagged byte form.  Every frame encodes, and
/// exactly to its canonical form.
pub fn encode_message(msg: WsMessage) -> (r: Option<Vec<u8>>)
    ensures
        r matches Some(v) && v@ == spec_encode_ws(msg@),
{
    let mut out: Vec<u8> = Vec::new();
    match msg {
        WsMessage::Text(text) => {
            out.push(WS_KIND_TEXT);
            append_bytes(&mut out, text.as_str().as_bytes());
            proof {
                assert(out@ =~= spec_encode_ws(WsMessageModel::Text(text@)));
            }
        },
        WsMessage::Binary(bin) => {
            out.push(WS_KIND_BINARY);
            append_bytes(&mut out, bin.as_slice());
            proof {
                assert(out@ =~= spec_encode_ws(WsMessageModel::Binary(bin@)));
            }
        },
        WsMessage::Close => {
            out.push(WS_KIND_CLOSE);
            proof {
                assert(out@ =~= spec_encode_ws(WsMessageModel::Close));
            }
        },
        WsMessage::Ping(payload) => {
            out.push(WS_KIND_PING);
            append_bytes(&mut out, payload.as_slice());
            proof {
                assert(out@ =~= spec_encode_ws(WsMessageModel::Ping(payload@)));
            }
        },
        WsMessage::Pong(payload) => {
            out.push(WS_KIND_PONG);
            append_bytes(&mut out, payload.as_slice());
            proof {
                assert(out@ =~= spec_encode_ws(WsMessageModel::Pong(payload@)));
            }
        },
    }
    Some(out)
}

/// Decodes a tagged byte buffer into a frame, exactly as
/// [`spec_decode_ws`] reads it, and never panics on any input.
pub fn decode_message(bytes: &[u8]) -> (r: Option<WsMessage>)
    ensures
        r matches Some(msg) ==> spec_decode_ws(bytes@) == Some(msg@),
        r is None ==> spec_decode_ws(bytes@) is None,
{
    if bytes.len() == 0 {
        return None;
    }
    let kind = bytes[0];
    let payload = vstd::slice::slice_to_vec(
        vstd::slice::slice_subrange(bytes, 1, bytes.len()),
    );
    proof {
        assert(payload@ == bytes@.drop_first());
    }
    if kind == WS_KIND_TEXT {
        match utf8_to_string(payload) {
            Ok(s) => Some(WsMessage::Text(s)),
            Err(raw) => Some(WsMessage::Binary(raw)),
        }
    } else if kind == WS_KIND_BINARY {
        Some(WsMessage::Binary(payload))
    } else if kind == WS_KIND_CLOSE {
        Some(WsMessage::Close)
    } else if kind == WS_KIND_PING {
        Some(WsMessage::Ping(payload))
    } else if kind == WS_KIND_PONG {
        Some(WsMessage::Pong(payload))
    } else {
        None
    }
}

/// Round trip: decoding the canonical encoding of any frame yields that
/// frame back, text payloads included.
pub proof fn lemma_ws_round_trip(m: WsMessageModel)
    ensures
        spec_decode_ws(spec_encode_ws(m)) == Some(m),
{
    broadcast use vstd::utf8::encode_utf8_valid_utf8, vstd::utf8::encode_utf8_decode_utf8;

    let data = spec_encode_ws(m);
    match m {
        WsMessageModel::Text(s) => {
            assert(data.drop_first() =~= encode_utf8(s));
        },
        WsMessageModel::Binary(b) => {
            assert(data.drop_first() =~= b);
        },
        WsMessageModel::Close => {
            assert(data.len() == 1);
        },
        WsMessageModel::Ping(b) => {
            assert(data.drop_first() =~= b);
        },
        WsMessageModel::Pong(b) => {
            assert(data.drop_first() =~= b);
        },
    }
}

/// What the pump that drains the engine does with one poll answer.
pub enum WsOutboundStep {
    /// Forward the decoded frame to the socket; the flag marks a close
    /// frame, after which the pump stops.
    Send(WsMessage, bool),
    /// Nothing queued: sleep one poll interval, then poll again.
    Sleep,
    /// The queued bytes decode to no frame: drop them and poll again at
    /// once.
    Skip,
}

/// Decides the outbound pump's next step from one engine poll answer.
pub fn ws_outbound_step(polled: Option<Vec<u8>>) -> (r: WsOutboundStep)
    ensures
        polled is None ==> r is Sleep,
        polled matches Some(b) ==> match spec_decode_ws(b@) {
            Some(mm) => r matches WsOutboundStep::Send(msg, is_close) && msg@ == mm && is_close
                == (mm is Close),
            None => r is Skip,
        },
{
    match polled {
        None => WsOutboundStep::Sleep,
        Some(bytes) => match decode_message(bytes.as_slice()) {
            Some(msg) => {
                let is_close = matches!(msg, WsMessage::Close);
                WsOutboundStep::Send(msg, is_close)
            },
            None => WsOutboundStep::Skip,
        },
    }
}

/// What the inbound pump does with one push attempt's answer.
pub enum WsPushStep {
    /// The frame was accepted: receive the next one.
    Delivered,
    /// The engine is full: sleep one poll interval, then push the same
    /// frame again.
    RetryAfterSleep,
    /// The engine side is gone: stop the pump.
    GiveUp,
}

/// Decides the inbound pump's next step from the engine's raw answer to
/// one push attempt; any unknown code counts as the engine side being
/// gone.
pub fn ws_push_step(code: u64) -> (r: WsPushStep)
    ensures
        crate::bridge::spec_push_result(code) is Accepted ==> r is Delivered,
        crate::bridge::spec_push_result(code) is Full ==> r is RetryAfterSleep,
        crate::bridge::spec_push_result(code) is Closed ==> r is GiveUp,
{
    match crate::bridge::push_result_from_code(code) {
        crate::bridge::PushResult::Accepted => WsPushStep::Delivered,
        crate::bridge::PushResult::Full => WsPushStep::RetryAfterSleep,
        crate::bridge::PushResult::Closed => WsPushStep::GiveUp,
    }
}

/// Encodes one inbound socket frame for the engine and says whether it is
/// a close frame, after which the inbound pump stops.
pub fn ws_inbound_step(msg: WsMessage) -> (r: (Vec<u8>, bool))
    ensures
        r.0@ == spec_encode_ws(msg@),
        r.1 == (msg@ is Close),
{
    let is_close = matches!(msg, WsMessage::Close);
    match encode_message(msg) {
        Some(encoded) => (encoded, is_close),
        None => (Vec::new(), is_close),
    }
}

} // verus!
