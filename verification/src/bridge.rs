//! Request/response bridge: the per-exchange decisions of the body pump
//! and the response poll loop, and the backpressure discipline both obey.
//! The loops themselves suspend on an async reactor, so the surrounding
//! program drives them; every decision they take is made here.
//!
//! An exchange walks a fixed state machine.  It awaits the head while
//! [`head_poll_step`] keeps answering [`HeadStep::Wait`]; a head with the
//! stream flag unset completes it at once, one with the flag set moves it
//! to streaming, where [`stream_poll_step`] forwards chunks until the end
//! marker.  From any state short of completion, a timeout, a disconnect or
//! a decode failure cancels it — through the guard, which directs that
//! cancel exactly once.

use vstd::prelude::*;
use vstd::string::StrSliceExecFns;
use vstd::utf8::{decode_utf8, encode_utf8};
use crate::wire::{
    decode_stream_msg, pairs_view, MsgModel, RespModel, StreamMsg, WireResponse,
};

verus! {

/// One running application instance inside the engine, shared read-only by
/// every exchange for the process lifetime.
#[derive(Clone, Copy)]
pub struct AppState {
    pub app_id: u64,
}

/// How long a pump sleeps between two attempts, in milliseconds.
pub const POLL_INTERVAL_MS: u64 = 5;

/// The engine's raw code for a push whose receiving end is gone.
pub const PUSH_CLOSED: u64 = 0;

/// The engine's raw code for an accepted push.
pub const PUSH_OK: u64 = 1;

/// The engine's raw code for a push the engine has no room for yet.
pub const PUSH_FULL: u64 = 2;

/// Backpressure signal of one attempt to push bytes into the engine.
#[derive(Debug, Clone, Copy, PartialEq, Eq, Structural)]
pub enum PushResult {
    /// The bytes were accepted.
    Accepted,
    /// The engine-side buffer is saturated: retry later.
    Full,
    /// The receiving end is gone: stop pushing.
    Closed,
}

/// How a raw engine code reads as a backpressure signal; any unknown code
/// counts as the receiving end being gone.
pub open spec fn spec_push_result(code: u64) -> PushResult {
    if code == PUSH_OK {
        PushResult::Accepted
    } else if code == PUSH_FULL {
        PushResult::Full
    } else {
        PushResult::Closed
    }
}

/// Classifies the engine's raw push code.
pub fn push_result_from_code(code: u64) -> (r: PushResult)
    ensures
        r == spec_push_result(code),
{
    if code == PUSH_OK {
        PushResult::Accepted
    } else if code == PUSH_FULL {
        PushResult::Full
    } else {
        PushResult::Closed
    }
}

/// What the body pump does next after one push attempt or body event.
#[derive(Debug, Clone, Copy, PartialEq, Eq, Structural)]
pub enum PumpAction {
    /// The chunk was accepted: move to the next one.
    Proceed,
    /// The engine is full: sleep one poll interval, then push the same
    /// chunk again.
    RetryAfterSleep,
    /// The engine side is gone: stop pumping.
    Stop,
    /// The inbound body failed: cancel the stream and stop.
    CancelAndStop,
}

/// Where the body pump stands: chunks still flowing, pushing the final
/// empty marker, or finished.
#[derive(Debug, Clone, Copy, PartialEq, Eq, Structural)]
pub enum PumpPhase {
    Streaming,
    Finishing,
    Done,
}

/// The state of one request-body pump.  The ghost fields record the chunks
/// the client has handed in and the chunks the engine has accepted, so the
/// well-formedness invariant can say that nothing is dropped or reordered.
pub struct BodyPump {
    pub phase: PumpPhase,
    pub current: Option<Vec<u8>>,
    pub closed_early: bool,
    pub offered: Ghost<Seq<Seq<u8>>>,
    pub accepted: Ghost<Seq<Seq<u8>>>,
}

impl BodyPump {
    /// The pump never drops or reorders: the engine has accepted exactly
    /// the offered chunks, less the one still in flight; once the pump is
    /// done without the engine side having gone away, it has accepted all
    /// of them, in order.
    pub open spec fn wf(&self) -> bool {
        match self.phase {
            PumpPhase::Streaming => !self.closed_early && match self.current {
                Some(c) => self.offered@ == self.accepted@.push(c@),
                None => self.offered@ == self.accepted@,
            },
            PumpPhase::Finishing => !self.closed_early && self.current is None && self.offered@
                == self.accepted@,
            PumpPhase::Done => self.current is None && (!self.closed_early ==> self.offered@
                == self.accepted@),
        }
    }

    /// A fresh pump: nothing offered, nothing accepted.
    pub fn new() -> (p: Self)
        ensures
            p.wf(),
            p.phase is Streaming,
            p.current is None,
            !p.closed_early,
            p.offered@ == Seq::<Seq<u8>>::empty(),
            p.accepted@ == Seq::<Seq<u8>>::empty(),
    {
        Self {
            phase: PumpPhase::Streaming,
            current: None,
            closed_early: false,
            offered: Ghost(Seq::empty()),
            accepted: Ghost(Seq::empty()),
        }
    }

    /// The client handed in the next body chunk: it is now in flight.
    pub fn offer(&mut self, chunk: Vec<u8>)
        requires
            old(self).wf(),
            old(self).phase is Streaming,
            old(self).current is None,
        ensures
            final(self).wf(),
            final(self).phase is Streaming,
            final(self).current == Some(chunk),
            !final(self).closed_early,
            final(self).offered@ == old(self).offered@.push(chunk@),
            final(self).accepted@ == old(self).accepted@,
    {
        proof {
            self.offered@ = self.offered@.push(chunk@);
        }
        self.current = Some(chunk);
    }

    /// The chunk to push, while one is in flight.
    pub fn current_chunk(&self) -> (r: Option<&Vec<u8>>)
        ensures
            match self.current {
                Some(c) => r matches Some(x) && x@ == c@,
                None => r is None,
            },
    {
        match &self.current {
            Some(c) => Some(c),
            None => None,
        }
    }

    /// What one push attempt's result means for the chunk in flight: an
    /// accepted chunk joins the delivered sequence, a full engine keeps it
    /// in flight for a retry, a gone engine ends the pump.
    pub fn on_push_result(&mut self, result: PushResult) -> (a: PumpAction)
        requires
            old(self).wf(),
            old(self).phase is Streaming,
            old(self).current is Some,
        ensures
            final(self).wf(),
            final(self).offered@ == old(self).offered@,
            match result {
                PushResult::Accepted => {
                    &&& a is Proceed
                    &&& final(self).phase is Streaming
                    &&& final(self).current is None
                    &&& !final(self).closed_early
                    &&& final(self).accepted@ == old(self).accepted@.push(
                        old(self).current->Some_0@,
                    )
                },
                PushResult::Full => a is RetryAfterSleep && *final(self) == *old(self),
                PushResult::Closed => {
                    &&& a is Stop
                    &&& final(self).phase is Done
                    &&& final(self).closed_early
                    &&& final(self).accepted@ == old(self).accepted@
                },
            },
    {
        match result {
            PushResult::Accepted => {
                let ghost c = self.current->Some_0@;
                self.current = None;
                proof {
                    self.accepted@ = self.accepted@.push(c);
                }
                PumpAction::Proceed
            },
            PushResult::Full => PumpAction::RetryAfterSleep,
            PushResult::Closed => {
                self.current = None;
                self.closed_early = true;
                self.phase = PumpPhase::Done;
                PumpAction::Stop
            },
        }
    }

    /// The client body ended: all chunks are delivered; push the final
    /// empty marker next.
    pub fn finish(&mut self)
        requires
            old(self).wf(),
            old(self).phase is Streaming,
            old(self).current is None,
        ensures
            final(self).wf(),
            final(self).phase is Finishing,
            final(self).current is None,
            !final(self).closed_early,
            final(self).offered@ == old(self).offered@,
            final(self).accepted@ == old(self).accepted@,
    {
        self.phase = PumpPhase::Finishing;
    }

    /// What one attempt to push the final empty marker means: acceptance
    /// ends the pump, and so does a gone engine — every offered chunk was
    /// already delivered, so that counts as normal termination too.
    pub fn on_last_push_result(&mut self, result: PushResult) -> (a: PumpAction)
        requires
            old(self).wf(),
            old(self).phase is Finishing,
        ensures
            final(self).wf(),
            final(self).offered@ == old(self).offered@,
            final(self).accepted@ == old(self).accepted@,
            !final(self).closed_early,
            match result {
                PushResult::Accepted => a is Stop && final(self).phase is Done,
                PushResult::Full => a is RetryAfterSleep && *final(self) == *old(self),
                PushResult::Closed => a is Stop && final(self).phase is Done,
            },
    {
        match result {
            PushResult::Accepted => {
                self.phase = PumpPhase::Done;
                PumpAction::Stop
            },
            PushResult::Full => PumpAction::RetryAfterSleep,
            PushResult::Closed => {
                self.phase = PumpPhase::Done;
                PumpAction::Stop
            },
        }
    }

    /// Reading the client body failed: the exchange cancels the stream.
    pub fn body_read_failed(&mut self) -> (a: PumpAction)
        requires
            old(self).wf(),
            old(self).phase is Streaming,
            old(self).current is None,
        ensures
            final(self).wf(),
            final(self).phase is Done,
            a is CancelAndStop,
    {
        self.closed_early = true;
        self.phase = PumpPhase::Done;
        PumpAction::CancelAndStop
    }
}

/// The chunks the engine accepts when a pump pushes `chunks` in order and
/// the engine answers one attempt after another with `results`: an
/// acceptance advances the pump to the next chunk, a Full answer makes it
/// retry the same chunk, and a Closed answer stops it.
pub open spec fn pump_deliveries(chunks: Seq<Seq<u8>>, results: Seq<PushResult>) -> Seq<Seq<u8>>
    decreases results.len(),
{
    if chunks.len() == 0 || results.len() == 0 {
        Seq::empty()
    } else if results[0] is Accepted {
        seq![chunks[0]] + pump_deliveries(chunks.drop_first(), results.drop_first())
    } else if results[0] is Full {
        pump_deliveries(chunks, results.drop_first())
    } else {
        Seq::empty()
    }
}

/// How many attempts in a run the engine accepted.
pub open spec fn count_accepts(results: Seq<PushResult>) -> nat
    decreases results.len(),
{
    if results.len() == 0 {
        0
    } else {
        (if results[0] is Accepted {
            1nat
        } else {
            0nat
        }) + count_accepts(results.drop_first())
    }
}

/// No attempt in the run found the receiving end gone.
pub open spec fn no_closed(results: Seq<PushResult>) -> bool {
    forall|i: int| 0 <= i < results.len() ==> !((#[trigger] results[i]) is Closed)
}

/// Backpressure convergence: a pump facing any number of Full answers —
/// an unbounded run of them included — delivers exactly the offered
/// chunks, in order, none dropped and none reordered, as soon as the
/// engine accepts often enough and never reports the receiving end gone.
pub proof fn lemma_backpressure_convergence(chunks: Seq<Seq<u8>>, results: Seq<PushResult>)
    requires
        no_closed(results),
        count_accepts(results) >= chunks.len(),
    ensures
        pump_deliveries(chunks, results) == chunks,
    decreases results.len(),
{
    if chunks.len() == 0 {
        assert(pump_deliveries(chunks, results) =~= chunks);
    } else {
        assert(results.len() > 0);
        assert(!(results[0] is Closed));
        assert forall|i: int| 0 <= i < results.drop_first().len() implies !((#[trigger] results
            .drop_first()[i]) is Closed) by {
            assert(results.drop_first()[i] == results[i + 1]);
        }
        if results[0] is Accepted {
            lemma_backpressure_convergence(chunks.drop_first(), results.drop_first());
            assert(seq![chunks[0]] + chunks.drop_first() =~= chunks);
        } else {
            lemma_backpressure_convergence(chunks, results.drop_first());
        }
    }
}

/// What the exchange does with one answer of the head poll loop.
pub enum HeadStep {
    /// No usable message yet: sleep one poll interval, then poll again.
    Wait,
    /// The head arrived with its stream flag unset: its body is the
    /// complete response.
    Respond(WireResponse),
    /// The head arrived with its stream flag set: switch to streaming,
    /// with the head's body as the first bytes out.
    BeginStream(WireResponse),
    /// The buffer did not decode: cancel the stream and fail the
    /// exchange.
    Fail,
}

/// Decides the head poll loop's next step from one engine poll answer:
/// nothing and out-of-place messages keep it waiting, a head settles the
/// response, an undecodable buffer fails the exchange.
pub fn head_poll_step(polled: Option<Vec<u8>>) -> (r: HeadStep)
    ensures
        polled is None ==> r is Wait,
        polled matches Some(b) ==> match crate::wire::spec_decode_stream_msg(b@) {
            Ok(mm) => match mm {
                MsgModel::Head { status, headers, is_stream, body } => if is_stream {
                    r matches HeadStep::BeginStream(w) && w@ == (RespModel {
                        status,
                        headers,
                        body,
                    })
                } else {
                    r matches HeadStep::Respond(w) && w@ == (RespModel { status, headers, body })
                },
                MsgModel::Chunk(_) => r is Wait,
                MsgModel::End => r is Wait,
            },
            Err(_) => r is Fail,
        },
{
    match polled {
        None => HeadStep::Wait,
        Some(bytes) => match decode_stream_msg(bytes.as_slice()) {
            Ok(StreamMsg::Head { status, headers, is_stream, body }) => {
                let w = WireResponse { status, headers, body };
                if is_stream {
                    HeadStep::BeginStream(w)
                } else {
                    HeadStep::Respond(w)
                }
            },
            Ok(_) => HeadStep::Wait,
            Err(_) => HeadStep::Fail,
        },
    }
}

/// What the streaming pump does with one answer of its poll loop.
pub enum StreamStep {
    /// Nothing queued: sleep one poll interval, then poll again.
    Wait,
    /// Forward this chunk to the client.
    Forward(Vec<u8>),
    /// The stream ended normally.
    Finish,
    /// The buffer did not decode: cancel the stream and stop.
    Fail,
}

/// Decides the streaming pump's next step from one engine poll answer: a
/// chunk is forwarded, the end marker finishes the stream, a stray head is
/// ignored, an undecodable buffer cancels.
pub fn stream_poll_step(polled: Option<Vec<u8>>) -> (r: StreamStep)
    ensures
        polled is None ==> r is Wait,
        polled matches Some(b) ==> match crate::wire::spec_decode_stream_msg(b@) {
            Ok(mm) => match mm {
                MsgModel::Chunk(c) => r matches StreamStep::Forward(v) && v@ == c,
                MsgModel::End => r is Finish,
                MsgModel::Head { .. } => r is Wait,
            },
            Err(_) => r is Fail,
        },
{
    match polled {
        None => StreamStep::Wait,
        Some(bytes) => match decode_stream_msg(bytes.as_slice()) {
            Ok(StreamMsg::Chunk(chunk)) => StreamStep::Forward(chunk),
            Ok(StreamMsg::End) => StreamStep::Finish,
            Ok(StreamMsg::Head { .. }) => StreamStep::Wait,
            Err(_) => StreamStep::Fail,
        },
    }
}

/// Whether the wait for the head has outlived the configured timeout; with
/// no timeout configured the loop waits for as long as the client stays.
pub fn head_wait_timed_out(elapsed_ms: u64, timeout_ms: Option<u64>) -> (r: bool)
    ensures
        r == (timeout_ms matches Some(t) && elapsed_ms >= t),
{
    match timeout_ms {
        None => false,
        Some(t) => elapsed_ms >= t,
    }
}

/// Two strings are equal exactly when their UTF-8 encodings are.
#[verifier::loop_isolation(false)]
fn str_eq(a: &str, b: &str) -> (r: bool)
    ensures
        r == (a@ == b@),
{
    broadcast use vstd::utf8::encode_utf8_decode_utf8;

    let ab = a.as_bytes();
    let bb = b.as_bytes();
    if ab.len() != bb.len() {
        return false;
    }
    let mut i: usize = 0;
    while i < ab.len()
        invariant
            i <= ab.len(),
            forall|j: int| 0 <= j < i ==> ab@[j] == bb@[j],
        decreases ab.len() - i,
    {
        if ab[i] != bb[i] {
            return false;
        }
        i = i + 1;
    }
    proof {
        assert(ab@ =~= bb@);
        assert(decode_utf8(encode_utf8(a@)) == a@);
        assert(decode_utf8(encode_utf8(b@)) == b@);
    }
    true
}

/// The character sequence `str::to_lowercase` maps a string's characters
/// to.
pub uninterp spec fn lowercase_of(s: Seq<char>) -> Seq<char>;

/// Relies on `str::to_lowercase`: the result depends on the characters
/// alone.
#[verifier::external_body]
fn lowercase(s: &str) -> (r: String)
    ensures
        r@ == lowercase_of(s@),
{
    s.to_lowercase()
}

/// The character sequence `str::trim` leaves of a string's characters.
pub uninterp spec fn trimmed_of(s: Seq<char>) -> Seq<char>;

/// Relies on `str::trim`: the result depends on the characters alone.
#[verifier::external_body]
fn trim_str<'a>(s: &'a str) -> (r: &'a str)
    ensures
        r@ == trimmed_of(s@),
{
    s.trim()
}

/// The case-folded form header names are compared under: surrounding
/// whitespace stripped, then lowercased.
pub open spec fn folded(s: Seq<char>) -> Seq<char> {
    lowercase_of(trimmed_of(s))
}

/// Folds a header name for comparison.
fn fold_header_name(s: &str) -> (r: String)
    ensures
        r@ == folded(s@),
{
    lowercase(trim_str(s))
}

/// The value of the first header whose folded name matches the folded
/// target, if any; duplicates after the first do not count.
pub open spec fn spec_header_value(
    headers: Seq<(Seq<char>, Seq<char>)>,
    name: Seq<char>,
) -> Option<Seq<char>>
    decreases headers.len(),
{
    if headers.len() == 0 {
        None
    } else if folded(headers[0].0) == folded(name) {
        Some(headers[0].1)
    } else {
        spec_header_value(headers.drop_first(), name)
    }
}

/// Finds the first header whose folded name matches the folded target.
#[verifier::loop_isolation(false)]
pub fn header_value(headers: &[(String, String)], name: &str) -> (r: Option<String>)
    ensures
        match r {
            Some(v) => spec_header_value(pairs_view(headers@), name@) matches Some(sv) && v@
                == sv,
            None => spec_header_value(pairs_view(headers@), name@) is None,
        },
{
    let ghost hs = pairs_view(headers@);
    proof {
        assert(hs.skip(0) =~= hs);
    }
    let target = fold_header_name(name);
    let mut i: usize = 0;
    while i < headers.len()
        invariant
            i <= headers.len(),
            spec_header_value(hs, name@) == spec_header_value(hs.skip(i as int), name@),
        decreases headers.len() - i,
    {
        let pair = &headers[i];
        let fk = fold_header_name(pair.0.as_str());
        proof {
            assert(hs[i as int] == (headers@[i as int].0@, headers@[i as int].1@));
            assert(hs.skip(i as int)[0] == hs[i as int]);
            assert(hs.skip(i as int).drop_first() =~= hs.skip(i as int + 1));
        }
        if str_eq(fk.as_str(), target.as_str()) {
            return Some(pair.1.clone());
        }
        i = i + 1;
    }
    proof {
        assert(hs.skip(headers@.len() as int) =~= Seq::<(Seq<char>, Seq<char>)>::empty());
    }
    None
}

/// Whether a header may be surfaced on the upgrade handshake response:
/// the handle-carrying header, the connection-management headers and the
/// protocol's own handshake headers are reserved and stripped.
pub open spec fn spec_ws_header_allowed(name: Seq<char>) -> bool {
    let key = folded(name);
    &&& key != "x-lithe-ws-id"@
    &&& key != "connection"@
    &&& key != "upgrade"@
    &&& key != "sec-websocket-accept"@
    &&& key != "sec-websocket-key"@
    &&& key != "sec-websocket-version"@
    &&& key != "content-length"@
    &&& key != "transfer-encoding"@
}

/// Decides whether a header may be surfaced on the upgrade handshake
/// response.
pub fn ws_header_allowed(name: &str) -> (r: bool)
    ensures
        r == spec_ws_header_allowed(name@),
{
    let key = fold_header_name(name);
    let k = key.as_str();
    !(str_eq(k, "x-lithe-ws-id") || str_eq(k, "connection") || str_eq(k, "upgrade") || str_eq(
        k,
        "sec-websocket-accept",
    ) || str_eq(k, "sec-websocket-key") || str_eq(k, "sec-websocket-version") || str_eq(
        k,
        "content-length",
    ) || str_eq(k, "transfer-encoding"))
}

/// Whether a character is a decimal digit.
pub open spec fn is_digit(c: char) -> bool {
    48 <= c as int <= 57
}

/// The number a sequence of decimal digits denotes.
pub open spec fn dec_value(s: Seq<char>) -> int
    decreases s.len(),
{
    if s.len() == 0 {
        0
    } else {
        dec_value(s.drop_last()) * 10 + (s.last() as int - 48)
    }
}

/// Every character in the sequence is a decimal digit.
pub open spec fn all_digits(s: Seq<char>) -> bool {
    forall|i: int| 0 <= i < s.len() ==> is_digit(#[trigger] s[i])
}

/// What parsing a decimal unsigned number accepts: an optional leading
/// plus sign, then one or more digits, the value fitting in 64 bits.
pub open spec fn spec_parse_u64(s: Seq<char>) -> Option<u64> {
    let digits = if s.len() > 0 && s[0] == '+' {
        s.drop_first()
    } else {
        s
    };
    if digits.len() > 0 && all_digits(digits) && dec_value(digits) <= u64::MAX {
        Some(dec_value(digits) as u64)
    } else {
        None
    }
}

/// A digit sequence denotes a number, never a negative value.
proof fn lemma_dec_value_nonneg(s: Seq<char>)
    requires
        all_digits(s),
    ensures
        dec_value(s) >= 0,
    decreases s.len(),
{
    if s.len() > 0 {
        assert forall|i: int| 0 <= i < s.drop_last().len() implies is_digit(
            #[trigger] s.drop_last()[i],
        ) by {
            assert(s.drop_last()[i] == s[i]);
        }
        lemma_dec_value_nonneg(s.drop_last());
        assert(is_digit(s.last()));
    }
}

/// A prefix of a digit sequence denotes at most what the whole denotes.
proof fn lemma_dec_value_take_mono(s: Seq<char>, j: int)
    requires
        all_digits(s),
        0 <= j <= s.len(),
    ensures
        dec_value(s.take(j)) <= dec_value(s),
    decreases s.len() - j,
{
    if j == s.len() {
        assert(s.take(j) =~= s);
    } else {
        assert forall|i: int| 0 <= i < s.take(j).len() implies is_digit(
            #[trigger] s.take(j)[i],
        ) by {
            assert(s.take(j)[i] == s[i]);
        }
        lemma_dec_value_nonneg(s.take(j));
        assert(s.take(j + 1).drop_last() =~= s.take(j));
        assert(s.take(j + 1).last() == s[j]);
        assert(is_digit(s[j]));
        assert(dec_value(s.take(j)) <= dec_value(s.take(j + 1)));
        lemma_dec_value_take_mono(s, j + 1);
    }
}

/// Parses a decimal unsigned number, exactly as [`spec_parse_u64`]
/// accepts one.
#[verifier::loop_isolation(false)]
pub fn parse_u64(s: &str) -> (r: Option<u64>)
    ensures
        r == spec_parse_u64(s@),
{
    let n = s.unicode_len();
    if n == 0 {
        return None;
    }
    let first = s.get_char(0);
    let start: usize = if first == '+' {
        1
    } else {
        0
    };
    let ghost digits = if s@[0] == '+' {
        s@.drop_first()
    } else {
        s@
    };
    if start >= n {
        return None;
    }
    let mut acc: u64 = 0;
    let mut i: usize = start;
    while i < n
        invariant
            start <= i <= n,
            all_digits(digits.take(i - start as int)),
            acc as int == dec_value(digits.take(i - start as int)),
        decreases n - i,
    {
        let c = s.get_char(i);
        let code = c as u32;
        proof {
            assert(digits[i - start as int] == s@[i as int]);
        }
        if code < 48 || code > 57 {
            proof {
                assert(!is_digit(s@[i as int]));
                assert(!all_digits(digits));
            }
            return None;
        }
        let d: u64 = (code - 48) as u64;
        proof {
            assert(digits.take(i - start as int + 1).drop_last() =~= digits.take(
                i - start as int,
            ));
            assert(digits.take(i - start as int + 1).last() == digits[i - start as int]);
            assert forall|k: int| 0 <= k < i - start + 1 implies is_digit(
                #[trigger] digits.take(i - start as int + 1)[k],
            ) by {
                if k < i - start {
                    assert(digits.take(i - start as int)[k] == digits.take(
                        i - start as int + 1,
                    )[k]);
                } else {
                    assert(digits.take(i - start as int + 1)[k] == digits[i - start as int]);
                }
            }
        }
        let acc10 = match acc.checked_mul(10) {
            Some(v) => v,
            None => {
                proof {
                    lemma_overflow_means_reject(digits, i - start as int, acc as int, d as int);
                }
                return None;
            },
        };
        let newacc = match acc10.checked_add(d) {
            Some(v) => v,
            None => {
                proof {
                    lemma_overflow_means_reject(digits, i - start as int, acc as int, d as int);
                }
                return None;
            },
        };
        acc = newacc;
        i = i + 1;
    }
    proof {
        assert(digits.take(n - start as int) =~= digits);
    }
    Some(acc)
}

/// If the accumulated value can no longer grow by one digit within 64
/// bits, the whole digit sequence denotes a value out of range, so the
/// parse rejects it.
proof fn lemma_overflow_means_reject(digits: Seq<char>, j: int, acc: int, d: int)
    requires
        0 <= j < digits.len(),
        all_digits(digits.take(j + 1)),
        acc == dec_value(digits.take(j)),
        d == digits[j] as int - 48,
        acc * 10 + d > u64::MAX,
    ensures
        !(all_digits(digits) && dec_value(digits) <= u64::MAX),
{
    if all_digits(digits) {
        assert(digits.take(j + 1).drop_last() =~= digits.take(j));
        assert(digits.take(j + 1).last() == digits[j]);
        assert(dec_value(digits.take(j + 1)) == acc * 10 + d);
        lemma_dec_value_take_mono(digits, j + 1);
    }
}

/// The headers surfaced on the upgrade handshake: the response's headers
/// with the reserved ones stripped, order kept.
pub open spec fn spec_filter_ws_headers(hs: Seq<(Seq<char>, Seq<char>)>) -> Seq<
    (Seq<char>, Seq<char>),
>
    decreases hs.len(),
{
    if hs.len() == 0 {
        Seq::empty()
    } else {
        let rest = spec_filter_ws_headers(hs.drop_first());
        if spec_ws_header_allowed(hs[0].0) {
            seq![hs[0]] + rest
        } else {
            rest
        }
    }
}

/// Splitting a header list splits its filtered form.
proof fn lemma_filter_ws_concat(a: Seq<(Seq<char>, Seq<char>)>, b: Seq<(Seq<char>, Seq<char>)>)
    ensures
        spec_filter_ws_headers(a + b) == spec_filter_ws_headers(a) + spec_filter_ws_headers(b),
    decreases a.len(),
{
    if a.len() == 0 {
        assert(a + b =~= b);
        assert(spec_filter_ws_headers(a) + spec_filter_ws_headers(b) =~= spec_filter_ws_headers(
            b,
        ));
    } else {
        lemma_filter_ws_concat(a.drop_first(), b);
        assert((a + b).drop_first() =~= a.drop_first() + b);
        assert((a + b)[0] == a[0]);
        if spec_ws_header_allowed(a[0].0) {
            assert(seq![a[0]] + (spec_filter_ws_headers(a.drop_first()) + spec_filter_ws_headers(
                b,
            )) =~= (seq![a[0]] + spec_filter_ws_headers(a.drop_first()))
                + spec_filter_ws_headers(b));
        }
    }
}

/// The filtered form of a single header.
proof fn lemma_filter_ws_singleton(p: (Seq<char>, Seq<char>))
    ensures
        spec_filter_ws_headers(seq![p]) == (if spec_ws_header_allowed(p.0) {
            seq![p]
        } else {
            Seq::<(Seq<char>, Seq<char>)>::empty()
        }),
{
    assert(seq![p].len() == 1 && seq![p][0] == p);
    assert(seq![p].drop_first() =~= Seq::<(Seq<char>, Seq<char>)>::empty());
    assert(spec_filter_ws_headers(Seq::<(Seq<char>, Seq<char>)>::empty()) == Seq::<
        (Seq<char>, Seq<char>),
    >::empty());
    if spec_ws_header_allowed(p.0) {
        assert(seq![p] + Seq::<(Seq<char>, Seq<char>)>::empty() =~= seq![p]);
    }
}

/// The engine asks for an upgrade by answering the handshake with the
/// reserved header carrying a WebSocket handle.
pub open spec fn spec_ws_id(m: RespModel) -> Option<u64> {
    match spec_header_value(m.headers, "x-lithe-ws-id"@) {
        None => None,
        Some(v) => spec_parse_u64(v),
    }
}

/// What becomes of a handshake response.
pub enum WsPlan {
    /// Hand the socket to the WebSocket bridge under this engine handle,
    /// and surface these headers on the handshake response.
    Upgrade { ws_id: u64, headers: Vec<(String, String)> },
    /// No upgrade: surface the response as it is.
    Plain(WireResponse),
}

/// Decides whether a handshake response carries a WebSocket handle: if
/// the reserved header names one, the socket is upgraded under that
/// handle and the reserved headers are stripped from what the client
/// sees; otherwise the response is surfaced unchanged.
#[verifier::loop_isolation(false)]
pub fn plan_ws_response(resp: WireResponse) -> (r: WsPlan)
    ensures
        match spec_ws_id(resp@) {
            Some(id) => r matches WsPlan::Upgrade { ws_id, headers } && ws_id == id && pairs_view(
                headers@,
            ) == spec_filter_ws_headers(resp@.headers),
            None => r matches WsPlan::Plain(w) && w == resp,
        },
{
    let ghost hs = pairs_view(resp.headers@);
    let id_opt = match header_value(resp.headers.as_slice(), "x-lithe-ws-id") {
        Some(id_str) => parse_u64(id_str.as_str()),
        None => None,
    };
    match id_opt {
        Some(ws_id) => {
            let mut out: Vec<(String, String)> = Vec::new();
            let mut i: usize = 0;
            while i < resp.headers.len()
                invariant
                    i <= resp.headers.len(),
                    pairs_view(out@) == spec_filter_ws_headers(hs.take(i as int)),
                decreases resp.headers.len() - i,
            {
                let pair = &resp.headers[i];
                proof {
                    assert(hs[i as int] == (resp.headers@[i as int].0@,
                    resp.headers@[i as int].1@));
                    assert(hs.take(i + 1 as int) =~= hs.take(i as int) + seq![hs[i as int]]);
                    lemma_filter_ws_concat(hs.take(i as int), seq![hs[i as int]]);
                    lemma_filter_ws_singleton(hs[i as int]);
                }
                if ws_header_allowed(pair.0.as_str()) {
                    out.push((pair.0.clone(), pair.1.clone()));
                    proof {
                        assert(pairs_view(out@) =~= spec_filter_ws_headers(hs.take(
                            i + 1 as int,
                        )));
                    }
                } else {
                    proof {
                        assert(pairs_view(out@) =~= spec_filter_ws_headers(hs.take(
                            i + 1 as int,
                        )));
                    }
                }
                i = i + 1;
            }
            proof {
                assert(hs.take(resp.headers@.len() as int) =~= hs);
            }
            WsPlan::Upgrade { ws_id, headers: out }
        },
        None => WsPlan::Plain(resp),
    }
}

} // verus!
