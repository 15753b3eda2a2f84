//! Bridge core for exposing a poll-only, cooperatively scheduled execution
//! engine as an HTTP + WebSocket server: the binary wire codec, the
//! request/response bridge state machines, the WebSocket message codec, and
//! the cancellation guard.

pub mod bridge;
pub mod guard;
pub mod wire;
pub mod websocket;
