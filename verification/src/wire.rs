//! Binary wire codec: encodes HTTP requests and decodes HTTP responses and
//! chunked stream messages to and from a fixed binary layout.
//!
//! All multi-byte integers are big-endian; every variable-length field is
//! length-prefixed with an unsigned 32-bit count (bytes for strings and
//! blobs, pair count for header lists).

use vstd::prelude::*;
use vstd::utf8::{valid_utf8, decode_utf8, encode_utf8};

verus! {

pub const WIRE_VERSION: u8 = 1;
pub const STREAM_WIRE_VERSION: u8 = 1;
pub const STREAM_MSG_HEAD: u8 = 1;
pub const STREAM_MSG_CHUNK: u8 = 2;
pub const STREAM_MSG_END: u8 = 3;

/// Why an encode or decode call failed.
#[derive(Debug, Clone, Copy, PartialEq, Eq, Structural)]
pub enum WireError {
    /// Decoding: the buffer's version byte is not the supported version.
    UnsupportedVersion,
    /// Decoding: a length field would read past the end of the buffer.
    UnexpectedEof,
    /// Decoding: a string field is not valid UTF-8.
    InvalidUtf8,
    /// Decoding: a stream message carries an unknown kind tag.
    UnknownMessageKind,
    /// Encoding: a string or blob exceeds the 32-bit length limit.
    ValueTooLarge,
    /// Encoding: the header count exceeds the 32-bit limit.
    TooManyHeaders,
}

/// The fixed set of HTTP methods the wire format can carry.
#[derive(Debug, Clone, Copy, PartialEq, Eq, Structural)]
pub enum Method {
    Get,
    Post,
    Put,
    Patch,
    Delete,
    Options,
    Head,
}

/// The one-byte code each supported method is encoded as.
pub open spec fn spec_method_code(m: Method) -> u8 {
    match m {
        Method::Get => 0,
        Method::Post => 1,
        Method::Put => 2,
        Method::Patch => 3,
        Method::Delete => 4,
        Method::Options => 5,
        Method::Head => 6,
    }
}

/// Encodes a supported method as its one-byte wire code.
pub fn method_to_u8(method: &Method) -> (r: u8)
    ensures
        r == spec_method_code(*method),
{
    match *method {
        Method::Get => 0,
        Method::Post => 1,
        Method::Put => 2,
        Method::Patch => 3,
        Method::Delete => 4,
        Method::Options => 5,
        Method::Head => 6,
    }
}

/// Big-endian byte pair of a 16-bit value.
pub open spec fn u16_bytes(v: u16) -> Seq<u8> {
    seq![((v >> 8) & 0xff) as u8, (v & 0xff) as u8]
}

/// Big-endian byte quadruple of a 32-bit value.
pub open spec fn u32_bytes(v: u32) -> Seq<u8> {
    seq![
        ((v >> 24) & 0xff) as u8,
        ((v >> 16) & 0xff) as u8,
        ((v >> 8) & 0xff) as u8,
        (v & 0xff) as u8,
    ]
}

/// The 16-bit value read big-endian from two bytes.
pub open spec fn u16_of_bytes(b0: u8, b1: u8) -> u16 {
    (((b0 as u16) << 8) | (b1 as u16)) as u16
}

/// The 32-bit value read big-endian from four bytes.
pub open spec fn u32_of_bytes(b0: u8, b1: u8, b2: u8, b3: u8) -> u32 {
    (((b0 as u32) << 24) | ((b1 as u32) << 16) | ((b2 as u32) << 8) | (b3 as u32)) as u32
}

/// Reading back the big-endian bytes of a 16-bit value gives the value.
pub proof fn lemma_u16_bytes_roundtrip(v: u16)
    ensures
        u16_of_bytes(u16_bytes(v)[0], u16_bytes(v)[1]) == v,
{
    assert(((((v >> 8) & 0xff) as u8) as u16) << 8 | (((v & 0xff) as u8) as u16) == v)
        by (bit_vector);
}

/// Reading back the big-endian bytes of a 32-bit value gives the value.
pub proof fn lemma_u32_bytes_roundtrip(v: u32)
    ensures
        u32_of_bytes(u32_bytes(v)[0], u32_bytes(v)[1], u32_bytes(v)[2], u32_bytes(v)[3]) == v,
{
    assert((((((v >> 24) & 0xff) as u8) as u32) << 24 | ((((v >> 16) & 0xff) as u8) as u32) << 16
        | ((((v >> 8) & 0xff) as u8) as u32) << 8 | (((v & 0xff) as u8) as u32)) == v)
        by (bit_vector);
}

/// Appends one byte.
pub fn write_u8(buf: &mut Vec<u8>, v: u8)
    ensures
        final(buf)@ == old(buf)@ + seq![v],
{
    buf.push(v);
    assert(final(buf)@ =~= old(buf)@ + seq![v]);
}

/// Appends a 16-bit value in big-endian order.
pub fn write_u16(buf: &mut Vec<u8>, v: u16)
    ensures
        final(buf)@ == old(buf)@ + u16_bytes(v),
{
    proof {
        assert((v >> 8) & 0xff < 256 && v & 0xff < 256) by (bit_vector);
    }
    buf.push(((v >> 8) & 0xff) as u8);
    buf.push((v & 0xff) as u8);
    assert(final(buf)@ =~= old(buf)@ + u16_bytes(v));
}

/// Appends a 32-bit value in big-endian order.
pub fn write_u32(buf: &mut Vec<u8>, v: u32)
    ensures
        final(buf)@ == old(buf)@ + u32_bytes(v),
{
    proof {
        assert((v >> 24) & 0xff < 256 && (v >> 16) & 0xff < 256 && (v >> 8) & 0xff < 256 && v
            & 0xff < 256) by (bit_vector);
    }
    buf.push(((v >> 24) & 0xff) as u8);
    buf.push(((v >> 16) & 0xff) as u8);
    buf.push(((v >> 8) & 0xff) as u8);
    buf.push((v & 0xff) as u8);
    assert(final(buf)@ =~= old(buf)@ + u32_bytes(v));
}

/// Reads one byte at `pos`, if the buffer holds one.
pub open spec fn parse_u8(data: Seq<u8>, pos: int) -> Result<(u8, int), WireError> {
    if 0 <= pos < data.len() {
        Ok((data[pos], pos + 1))
    } else {
        Err(WireError::UnexpectedEof)
    }
}

/// Reads a big-endian 16-bit value at `pos`, if two bytes remain.
pub open spec fn parse_u16(data: Seq<u8>, pos: int) -> Result<(u16, int), WireError> {
    if 0 <= pos && pos + 2 <= data.len() {
        Ok((u16_of_bytes(data[pos], data[pos + 1]), pos + 2))
    } else {
        Err(WireError::UnexpectedEof)
    }
}

/// Reads a big-endian 32-bit value at `pos`, if four bytes remain.
pub open spec fn parse_u32(data: Seq<u8>, pos: int) -> Result<(u32, int), WireError> {
    if 0 <= pos && pos + 4 <= data.len() {
        Ok((u32_of_bytes(data[pos], data[pos + 1], data[pos + 2], data[pos + 3]), pos + 4))
    } else {
        Err(WireError::UnexpectedEof)
    }
}

/// Reads a 32-bit length prefix and then that many raw bytes.
pub open spec fn parse_blob(data: Seq<u8>, pos: int) -> Result<(Seq<u8>, int), WireError> {
    match parse_u32(data, pos) {
        Err(e) => Err(e),
        Ok((len, p)) => if p + len <= data.len() {
            Ok((data.subrange(p, p + len), p + len))
        } else {
            Err(WireError::UnexpectedEof)
        },
    }
}

/// Reads a length-prefixed blob and decodes it as UTF-8.
pub open spec fn parse_string(data: Seq<u8>, pos: int) -> Result<(Seq<char>, int), WireError> {
    match parse_blob(data, pos) {
        Err(e) => Err(e),
        Ok((b, p)) => if valid_utf8(b) {
            Ok((decode_utf8(b), p))
        } else {
            Err(WireError::InvalidUtf8)
        },
    }
}

/// Reads `count` header pairs, each a name string followed by a value string.
pub open spec fn parse_pairs(data: Seq<u8>, pos: int, count: nat) -> Result<
    (Seq<(Seq<char>, Seq<char>)>, int),
    WireError,
>
    decreases count,
{
    if count == 0 {
        Ok((Seq::empty(), pos))
    } else {
        match parse_string(data, pos) {
            Err(e) => Err(e),
            Ok((k, p1)) => match parse_string(data, p1) {
                Err(e) => Err(e),
                Ok((v, p2)) => match parse_pairs(data, p2, (count - 1) as nat) {
                    Err(e) => Err(e),
                    Ok((rest, p3)) => Ok((seq![(k, v)] + rest, p3)),
                },
            },
        }
    }
}

/// Relies on `String::from_utf8`: it succeeds exactly on valid UTF-8 input
/// and returns the character sequence that the bytes encode; on failure the
/// buffer comes back unchanged (through `FromUtf8Error::into_bytes`).
#[verifier::external_body]
pub(crate) fn utf8_to_string(bytes: Vec<u8>) -> (r: Result<String, Vec<u8>>)
    ensures
        r matches Ok(s) ==> valid_utf8(bytes@) && s@ == decode_utf8(bytes@),
        r matches Err(b) ==> !valid_utf8(bytes@) && b@ == bytes@,
{
    match String::from_utf8(bytes) {
        Ok(s) => Ok(s),
        Err(e) => Err(e.into_bytes()),
    }
}

/// Cursor over a borrowed byte buffer; each read either consumes bytes or
/// reports the decode error the position gives rise to.
struct Reader<'a> {
    data: &'a [u8],
    pos: usize,
}

impl<'a> Reader<'a> {
    spec fn wf(&self) -> bool {
        self.pos <= self.data@.len()
    }

    fn new(data: &'a [u8]) -> (r: Self)
        ensures
            r.wf(),
            r.data@ == data@,
            r.pos == 0,
    {
        Self { data, pos: 0 }
    }

    fn read_u8(&mut self) -> (r: Result<u8, WireError>)
        requires
            old(self).wf(),
        ensures
            final(self).wf(),
            final(self).data@ == old(self).data@,
            match parse_u8(old(self).data@, old(self).pos as int) {
                Ok((v, p)) => r == Ok::<u8, WireError>(v) && final(self).pos == p,
                Err(e) => r == Err::<u8, WireError>(e),
            },
    {
        if self.pos >= self.data.len() {
            return Err(WireError::UnexpectedEof);
        }
        let b = self.data[self.pos];
        self.pos = self.pos + 1;
        Ok(b)
    }

    fn read_u16(&mut self) -> (r: Result<u16, WireError>)
        requires
            old(self).wf(),
        ensures
            final(self).wf(),
            final(self).data@ == old(self).data@,
            match parse_u16(old(self).data@, old(self).pos as int) {
                Ok((v, p)) => r == Ok::<u16, WireError>(v) && final(self).pos == p,
                Err(e) => r == Err::<u16, WireError>(e),
            },
    {
        if self.data.len() - self.pos < 2 {
            return Err(WireError::UnexpectedEof);
        }
        let b0 = self.data[self.pos];
        let b1 = self.data[self.pos + 1];
        self.pos = self.pos + 2;
        proof {
            assert((b0 as u16) << 8 | (b1 as u16) <= 0xffff) by (bit_vector);
        }
        Ok(((b0 as u16) << 8) | (b1 as u16))
    }

    fn read_u32(&mut self) -> (r: Result<u32, WireError>)
        requires
            old(self).wf(),
        ensures
            final(self).wf(),
            final(self).data@ == old(self).data@,
            match parse_u32(old(self).data@, old(self).pos as int) {
                Ok((v, p)) => r == Ok::<u32, WireError>(v) && final(self).pos == p,
                Err(e) => r == Err::<u32, WireError>(e),
            },
    {
        if self.data.len() - self.pos < 4 {
            return Err(WireError::UnexpectedEof);
        }
        let b0 = self.data[self.pos];
        let b1 = self.data[self.pos + 1];
        let b2 = self.data[self.pos + 2];
        let b3 = self.data[self.pos + 3];
        self.pos = self.pos + 4;
        Ok((((b0 as u32) << 24) | ((b1 as u32) << 16) | ((b2 as u32) << 8) | (b3 as u32)))
    }

    fn read_blob(&mut self) -> (r: Result<Vec<u8>, WireError>)
        requires
            old(self).wf(),
        ensures
            final(self).wf(),
            final(self).data@ == old(self).data@,
            match parse_blob(old(self).data@, old(self).pos as int) {
                Ok((b, p)) => r matches Ok(v) && v@ == b && final(self).pos == p,
                Err(e) => r matches Err(e2) && e2 == e,
            },
    {
        let len = match self.read_u32() {
            Ok(v) => v,
            Err(e) => {
                return Err(e);
            },
        };
        let len = len as usize;
        if len > self.data.len() - self.pos {
            return Err(WireError::UnexpectedEof);
        }
        let out = vstd::slice::slice_to_vec(vstd::slice::slice_subrange(
            self.data,
            self.pos,
            self.pos + len,
        ));
        self.pos = self.pos + len;
        Ok(out)
    }

    fn read_string(&mut self) -> (r: Result<String, WireError>)
        requires
            old(self).wf(),
        ensures
            final(self).wf(),
            final(self).data@ == old(self).data@,
            match parse_string(old(self).data@, old(self).pos as int) {
                Ok((s, p)) => r matches Ok(x) && x@ == s && final(self).pos == p,
                Err(e) => r matches Err(e2) && e2 == e,
            },
    {
        let bytes = match self.read_blob() {
            Ok(v) => v,
            Err(e) => {
                return Err(e);
            },
        };
        match utf8_to_string(bytes) {
            Ok(s) => Ok(s),
            Err(_) => Err(WireError::InvalidUtf8),
        }
    }
}

/// Mathematical view of a header list: each name and value as its
/// character sequence, duplicates and insertion order preserved.
pub open spec fn pairs_view(h: Seq<(String, String)>) -> Seq<(Seq<char>, Seq<char>)> {
    h.map_values(|p: (String, String)| (p.0@, p.1@))
}

/// A decoded HTTP response: status, ordered header pairs, body bytes.
#[derive(Debug)]
pub struct WireResponse {
    pub status: u16,
    pub headers: Vec<(String, String)>,
    pub body: Vec<u8>,
}

/// Mathematical view of a [`WireResponse`].
#[verifier::ext_equal]
pub struct RespModel {
    pub status: u16,
    pub headers: Seq<(Seq<char>, Seq<char>)>,
    pub body: Seq<u8>,
}

impl View for WireResponse {
    type V = RespModel;

    open spec fn view(&self) -> RespModel {
        RespModel { status: self.status, headers: pairs_view(self.headers@), body: self.body@ }
    }
}

/// A decoded stream message: the head of a response, one body chunk, or the
/// end-of-stream marker.
#[derive(Debug)]
pub enum StreamMsg {
    Head { status: u16, headers: Vec<(String, String)>, is_stream: bool, body: Vec<u8> },
    Chunk(Vec<u8>),
    End,
}

/// Mathematical view of a [`StreamMsg`].
#[verifier::ext_equal]
pub enum MsgModel {
    Head { status: u16, headers: Seq<(Seq<char>, Seq<char>)>, is_stream: bool, body: Seq<u8> },
    Chunk(Seq<u8>),
    End,
}

impl View for StreamMsg {
    type V = MsgModel;

    open spec fn view(&self) -> MsgModel {
        match self {
            StreamMsg::Head { status, headers, is_stream, body } => MsgModel::Head {
                status: *status,
                headers: pairs_view(headers@),
                is_stream: *is_stream,
                body: body@,
            },
            StreamMsg::Chunk(b) => MsgModel::Chunk(b@),
            StreamMsg::End => MsgModel::End,
        }
    }
}

/// What decoding a response buffer yields: the response a prefix of the
/// buffer canonically encodes, or the first error the read runs into.
pub open spec fn spec_decode_response(data: Seq<u8>) -> Result<RespModel, WireError> {
    match parse_u8(data, 0) {
        Err(e) => Err(e),
        Ok((ver, p1)) => if ver != WIRE_VERSION {
            Err(WireError::UnsupportedVersion)
        } else {
            match parse_u16(data, p1) {
                Err(e) => Err(e),
                Ok((status, p2)) => match parse_u32(data, p2) {
                    Err(e) => Err(e),
                    Ok((count, p3)) => match parse_pairs(data, p3, count as nat) {
                        Err(e) => Err(e),
                        Ok((headers, p4)) => match parse_blob(data, p4) {
                            Err(e) => Err(e),
                            Ok((body, _p5)) => Ok(RespModel { status, headers, body }),
                        },
                    },
                },
            }
        },
    }
}

/// What decoding a stream-message buffer yields.
pub open spec fn spec_decode_stream_msg(data: Seq<u8>) -> Result<MsgModel, WireError> {
    match parse_u8(data, 0) {
        Err(e) => Err(e),
        Ok((ver, p1)) => if ver != STREAM_WIRE_VERSION {
            Err(WireError::UnsupportedVersion)
        } else {
            match parse_u8(data, p1) {
                Err(e) => Err(e),
                Ok((kind, p2)) => if kind == STREAM_MSG_HEAD {
                    match parse_u16(data, p2) {
                        Err(e) => Err(e),
                        Ok((status, p3)) => match parse_u8(data, p3) {
                            Err(e) => Err(e),
                            Ok((sflag, p4)) => match parse_u32(data, p4) {
                                Err(e) => Err(e),
                                Ok((count, p5)) => match parse_pairs(data, p5, count as nat) {
                                    Err(e) => Err(e),
                                    Ok((headers, p6)) => match parse_blob(data, p6) {
                                        Err(e) => Err(e),
                                        Ok((body, _p7)) => Ok(MsgModel::Head {
                                            status,
                                            headers,
                                            is_stream: sflag != 0,
                                            body,
                                        }),
                                    },
                                },
                            },
                        },
                    }
                } else if kind == STREAM_MSG_CHUNK {
                    match parse_blob(data, p2) {
                        Err(e) => Err(e),
                        Ok((body, _p3)) => Ok(MsgModel::Chunk(body)),
                    }
                } else if kind == STREAM_MSG_END {
                    Ok(MsgModel::End)
                } else {
                    Err(WireError::UnknownMessageKind)
                },
            }
        },
    }
}

/// Reads `count` header pairs through the cursor.
#[verifier::loop_isolation(false)]
fn read_pairs<'a>(rd: &mut Reader<'a>, count: u32) -> (r: Result<
    Vec<(String, String)>,
    WireError,
>)
    requires
        old(rd).wf(),
    ensures
        final(rd).wf(),
        final(rd).data@ == old(rd).data@,
        match parse_pairs(old(rd).data@, old(rd).pos as int, count as nat) {
            Ok((hs, p)) => r matches Ok(v) && pairs_view(v@) == hs && final(rd).pos == p,
            Err(e) => r matches Err(e2) && e2 == e,
        },
{
    let ghost data = rd.data@;
    let ghost pos0 = rd.pos as int;
    let mut headers: Vec<(String, String)> = Vec::new();
    let mut i: u32 = 0;
    while i < count
        invariant
            rd.wf(),
            rd.data@ == data,
            i <= count,
            parse_pairs(data, pos0, count as nat) == (match parse_pairs(
                data,
                rd.pos as int,
                (count - i) as nat,
            ) {
                Ok((rest, p)) => Ok::<(Seq<(Seq<char>, Seq<char>)>, int), WireError>(
                    (pairs_view(headers@) + rest, p),
                ),
                Err(e) => Err::<(Seq<(Seq<char>, Seq<char>)>, int), WireError>(e),
            }),
        decreases count - i,
    {
        let ghost pos_iter = rd.pos as int;
        let k = match rd.read_string() {
            Ok(v) => v,
            Err(e) => {
                return Err(e);
            },
        };
        let v = match rd.read_string() {
            Ok(v) => v,
            Err(e) => {
                return Err(e);
            },
        };
        proof {
            if parse_pairs(data, rd.pos as int, (count - i - 1) as nat) is Ok {
                let (rest2, p2) = parse_pairs(data, rd.pos as int, (count - i - 1) as nat)->Ok_0;
                assert(parse_pairs(data, pos_iter, (count - i) as nat) == Ok::<
                    (Seq<(Seq<char>, Seq<char>)>, int),
                    WireError,
                >((seq![(k@, v@)] + rest2, p2)));
                assert(pairs_view(headers@.push((k, v))) =~= pairs_view(headers@) + seq![
                    (k@, v@),
                ]);
                assert(pairs_view(headers@) + (seq![(k@, v@)] + rest2) =~= pairs_view(
                    headers@.push((k, v)),
                ) + rest2);
            }
        }
        headers.push((k, v));
        i = i + 1;
    }
    proof {
        assert(parse_pairs(data, rd.pos as int, 0) == Ok::<
            (Seq<(Seq<char>, Seq<char>)>, int),
            WireError,
        >((Seq::empty(), rd.pos as int)));
        assert(pairs_view(headers@) + Seq::<(Seq<char>, Seq<char>)>::empty() =~= pairs_view(
            headers@,
        ));
    }
    Ok(headers)
}

/// Decodes a response buffer.
///
/// Succeeds exactly when a prefix of `bytes` is a well-formed response
/// encoding under the supported wire version, and then returns exactly the
/// response that prefix encodes; any other input yields the error
/// [`spec_decode_response`] assigns to it, and never a panic.
pub fn decode_response(bytes: &[u8]) -> (r: Result<WireResponse, WireError>)
    ensures
        r matches Ok(resp) ==> spec_decode_response(bytes@) == Ok::<RespModel, WireError>(resp@),
        r matches Err(e) ==> spec_decode_response(bytes@) == Err::<RespModel, WireError>(e),
{
    let mut rd = Reader::new(bytes);
    let ver = match rd.read_u8() {
        Ok(v) => v,
        Err(e) => {
            return Err(e);
        },
    };
    if ver != WIRE_VERSION {
        return Err(WireError::UnsupportedVersion);
    }
    let status = match rd.read_u16() {
        Ok(v) => v,
        Err(e) => {
            return Err(e);
        },
    };
    let count = match rd.read_u32() {
        Ok(v) => v,
        Err(e) => {
            return Err(e);
        },
    };
    let headers = match read_pairs(&mut rd, count) {
        Ok(v) => v,
        Err(e) => {
            return Err(e);
        },
    };
    let body = match rd.read_blob() {
        Ok(v) => v,
        Err(e) => {
            return Err(e);
        },
    };
    Ok(WireResponse { status, headers, body })
}

/// Decodes a stream-message buffer.
///
/// Succeeds exactly when a prefix of `bytes` is a well-formed stream
/// message under the supported wire version, and then returns exactly the
/// message that prefix encodes; any other input yields the error
/// [`spec_decode_stream_msg`] assigns to it, and never a panic.
pub fn decode_stream_msg(bytes: &[u8]) -> (r: Result<StreamMsg, WireError>)
    ensures
        r matches Ok(msg) ==> spec_decode_stream_msg(bytes@) == Ok::<MsgModel, WireError>(msg@),
        r matches Err(e) ==> spec_decode_stream_msg(bytes@) == Err::<MsgModel, WireError>(e),
{
    let mut rd = Reader::new(bytes);
    let ver = match rd.read_u8() {
        Ok(v) => v,
        Err(e) => {
            return Err(e);
        },
    };
    if ver != STREAM_WIRE_VERSION {
        return Err(WireError::UnsupportedVersion);
    }
    let kind = match rd.read_u8() {
        Ok(v) => v,
        Err(e) => {
            return Err(e);
        },
    };
    if kind == STREAM_MSG_HEAD {
        let status = match rd.read_u16() {
            Ok(v) => v,
            Err(e) => {
                return Err(e);
            },
        };
        let sflag = match rd.read_u8() {
            Ok(v) => v,
            Err(e) => {
                return Err(e);
            },
        };
        let count = match rd.read_u32() {
            Ok(v) => v,
            Err(e) => {
                return Err(e);
            },
        };
        let headers = match read_pairs(&mut rd, count) {
            Ok(v) => v,
            Err(e) => {
                return Err(e);
            },
        };
        let body = match rd.read_blob() {
            Ok(v) => v,
            Err(e) => {
                return Err(e);
            },
        };
        Ok(StreamMsg::Head { status, headers, is_stream: sflag != 0, body })
    } else if kind == STREAM_MSG_CHUNK {
        let body = match rd.read_blob() {
            Ok(v) => v,
            Err(e) => {
                return Err(e);
            },
        };
        Ok(StreamMsg::Chunk(body))
    } else if kind == STREAM_MSG_END {
        Ok(StreamMsg::End)
    } else {
        Err(WireError::UnknownMessageKind)
    }
}

/// Length-prefixed encoding of a byte blob.
pub open spec fn enc_blob(b: Seq<u8>) -> Seq<u8> {
    u32_bytes(b.len() as u32) + b
}

/// A blob fits the wire format when its length fits the 32-bit prefix.
pub open spec fn blob_encodable(b: Seq<u8>) -> bool {
    b.len() <= u32::MAX
}

/// Length-prefixed encoding of a string: its UTF-8 bytes.
pub open spec fn enc_string(s: Seq<char>) -> Seq<u8> {
    enc_blob(encode_utf8(s))
}

/// A string fits the wire format when its UTF-8 encoding fits the prefix.
pub open spec fn string_encodable(s: Seq<char>) -> bool {
    encode_utf8(s).len() <= u32::MAX
}

/// Encoding of a header list: each name and value in order.
pub open spec fn enc_pairs(hs: Seq<(Seq<char>, Seq<char>)>) -> Seq<u8>
    decreases hs.len(),
{
    if hs.len() == 0 {
        Seq::empty()
    } else {
        enc_string(hs[0].0) + enc_string(hs[0].1) + enc_pairs(hs.drop_first())
    }
}

/// A header pair fits the wire format when its name and value do.
pub open spec fn pair_encodable(p: (Seq<char>, Seq<char>)) -> bool {
    string_encodable(p.0) && string_encodable(p.1)
}

/// Every header name and value fits the wire format.
pub open spec fn pairs_encodable(hs: Seq<(Seq<char>, Seq<char>)>) -> bool {
    forall|i: int| 0 <= i < hs.len() ==> pair_encodable(#[trigger] hs[i])
}

/// Encoding of an optional string: a presence byte, then the string if any.
pub open spec fn enc_opt_string(s: Option<Seq<char>>) -> Seq<u8> {
    match s {
        None => seq![0u8],
        Some(v) => seq![1u8] + enc_string(v),
    }
}

/// View of an optional borrowed string.
pub open spec fn opt_str_view(s: Option<&str>) -> Option<Seq<char>> {
    match s {
        None => None,
        Some(v) => Some(v@),
    }
}

/// Mathematical view of a request to encode.
#[verifier::ext_equal]
pub struct ReqModel {
    pub method: Method,
    pub path: Seq<char>,
    pub query: Seq<char>,
    pub headers: Seq<(Seq<char>, Seq<char>)>,
    pub body: Seq<u8>,
    pub remote: Option<Seq<char>>,
}

/// A request fits the wire format when every variable-length field fits its
/// 32-bit length prefix.
pub open spec fn request_encodable(m: ReqModel) -> bool {
    &&& string_encodable(m.path)
    &&& string_encodable(m.query)
    &&& m.headers.len() <= u32::MAX
    &&& pairs_encodable(m.headers)
    &&& blob_encodable(m.body)
    &&& (m.remote matches Some(s) ==> string_encodable(s))
}

/// The canonical encoding of a request.
pub open spec fn spec_encode_request(m: ReqModel) -> Seq<u8> {
    seq![WIRE_VERSION, spec_method_code(m.method)] + enc_string(m.path) + enc_string(m.query)
        + u32_bytes(m.headers.len() as u32) + enc_pairs(m.headers) + enc_blob(m.body)
        + enc_opt_string(m.remote)
}

/// The error encoding reports for a request that does not fit: the checks
/// run in field order, so an oversized header count is only reported once
/// the path and query have passed.
pub open spec fn spec_request_error(m: ReqModel) -> WireError {
    if string_encodable(m.path) && string_encodable(m.query) && m.headers.len() > u32::MAX {
        WireError::TooManyHeaders
    } else {
        WireError::ValueTooLarge
    }
}

/// Appends a length-prefixed blob, or reports that it does not fit.
pub fn write_bytes(buf: &mut Vec<u8>, bytes: &[u8]) -> (r: Result<(), WireError>)
    ensures
        r is Ok <==> blob_encodable(bytes@),
        r is Ok ==> final(buf)@ == old(buf)@ + enc_blob(bytes@),
        r is Err ==> final(buf)@ == old(buf)@ && r == Err::<(), WireError>(
            WireError::ValueTooLarge,
        ),
{
    if bytes.len() > u32::MAX as usize {
        return Err(WireError::ValueTooLarge);
    }
    write_u32(buf, bytes.len() as u32);
    let ghost mid = buf@;
    let mut j: usize = 0;
    while j < bytes.len()
        invariant
            j <= bytes.len(),
            buf@ == mid + bytes@.take(j as int),
        decreases bytes.len() - j,
    {
        let b = bytes[j];
        proof {
            assert(mid + bytes@.take(j as int) + seq![bytes@[j as int]] =~= mid + bytes@.take(
                j as int + 1,
            ));
        }
        buf.push(b);
        j = j + 1;
    }
    proof {
        assert(bytes@.take(bytes@.len() as int) =~= bytes@);
        assert(mid + bytes@ =~= old(buf)@ + enc_blob(bytes@));
    }
    Ok(())
}

/// Appends a length-prefixed string as UTF-8, or reports that it does not
/// fit.
pub fn write_string(buf: &mut Vec<u8>, s: &str) -> (r: Result<(), WireError>)
    ensures
        r is Ok <==> string_encodable(s@),
        r is Ok ==> final(buf)@ == old(buf)@ + enc_string(s@),
        r is Err ==> final(buf)@ == old(buf)@ && r == Err::<(), WireError>(
            WireError::ValueTooLarge,
        ),
{
    write_bytes(buf, s.as_bytes())
}

/// Appends an optional string: a presence byte, then the string if present.
pub fn write_opt_string(buf: &mut Vec<u8>, s: Option<&str>) -> (r: Result<(), WireError>)
    ensures
        r is Ok <==> (s matches Some(v) ==> string_encodable(v@)),
        r is Ok ==> final(buf)@ == old(buf)@ + enc_opt_string(opt_str_view(s)),
        r is Err ==> final(buf)@ == old(buf)@ + seq![1u8] && r == Err::<(), WireError>(
            WireError::ValueTooLarge,
        ),
{
    match s {
        None => {
            write_u8(buf, 0);
            Ok(())
        },
        Some(v) => {
            write_u8(buf, 1);
            match write_string(buf, v) {
                Ok(()) => {
                    proof {
                        assert(old(buf)@ + seq![1u8] + enc_string(v@) =~= old(buf)@
                            + enc_opt_string(opt_str_view(s)));
                    }
                    Ok(())
                },
                Err(e) => Err(e),
            }
        },
    }
}

/// Splitting a header list splits its encoding.
pub proof fn lemma_enc_pairs_concat(a: Seq<(Seq<char>, Seq<char>)>, b: Seq<(Seq<char>, Seq<char>)>)
    ensures
        enc_pairs(a + b) == enc_pairs(a) + enc_pairs(b),
    decreases a.len(),
{
    if a.len() == 0 {
        assert(a + b =~= b);
        assert(enc_pairs(a) + enc_pairs(b) =~= enc_pairs(b));
    } else {
        lemma_enc_pairs_concat(a.drop_first(), b);
        assert((a + b).drop_first() =~= a.drop_first() + b);
        assert((a + b)[0] == a[0]);
        assert(enc_string(a[0].0) + enc_string(a[0].1) + (enc_pairs(a.drop_first()) + enc_pairs(b))
            =~= (enc_string(a[0].0) + enc_string(a[0].1) + enc_pairs(a.drop_first())) + enc_pairs(
            b,
        ));
    }
}

/// The encoding of a single header pair.
pub proof fn lemma_enc_pairs_singleton(p: (Seq<char>, Seq<char>))
    ensures
        enc_pairs(seq![p]) == enc_string(p.0) + enc_string(p.1),
{
    assert(seq![p].len() == 1 && seq![p][0] == p);
    assert(seq![p].drop_first() =~= Seq::<(Seq<char>, Seq<char>)>::empty());
    assert(enc_pairs(Seq::<(Seq<char>, Seq<char>)>::empty()) == Seq::<u8>::empty());
    assert(enc_pairs(seq![p]) == enc_string(p.0) + enc_string(p.1) + Seq::<u8>::empty());
    assert(enc_string(p.0) + enc_string(p.1) + Seq::<u8>::empty() =~= enc_string(p.0) + enc_string(
        p.1,
    ));
}

/// Appends every header pair in order, or reports the first name or value
/// that does not fit.
#[verifier::loop_isolation(false)]
fn write_pairs(buf: &mut Vec<u8>, headers: &[(String, String)]) -> (r: Result<(), WireError>)
    ensures
        r is Ok <==> pairs_encodable(pairs_view(headers@)),
        r is Ok ==> final(buf)@ == old(buf)@ + enc_pairs(pairs_view(headers@)),
        r is Err ==> r == Err::<(), WireError>(WireError::ValueTooLarge),
{
    let ghost hs = pairs_view(headers@);
    let ghost base = buf@;
    let mut i: usize = 0;
    while i < headers.len()
        invariant
            i <= headers.len(),
            pairs_encodable(hs.take(i as int)),
            buf@ == base + enc_pairs(hs.take(i as int)),
        decreases headers.len() - i,
    {
        let pair = &headers[i];
        match write_string(buf, pair.0.as_str()) {
            Ok(()) => (),
            Err(e) => {
                proof {
                    assert(hs.len() == headers@.len());
                    assert(hs[i as int] == (headers@[i as int].0@, headers@[i as int].1@));
                    assert(!pair_encodable(hs[i as int]));
                }
                return Err(e);
            },
        }
        match write_string(buf, pair.1.as_str()) {
            Ok(()) => (),
            Err(e) => {
                proof {
                    assert(hs.len() == headers@.len());
                    assert(hs[i as int] == (headers@[i as int].0@, headers@[i as int].1@));
                    assert(!pair_encodable(hs[i as int]));
                }
                return Err(e);
            },
        }
        proof {
            assert(hs.take(i + 1 as int) =~= hs.take(i as int) + seq![hs[i as int]]);
            lemma_enc_pairs_concat(hs.take(i as int), seq![hs[i as int]]);
            lemma_enc_pairs_singleton(hs[i as int]);
            assert(buf@ =~= base + enc_pairs(hs.take(i + 1 as int)));
            assert forall|j: int| 0 <= j < i + 1 implies pair_encodable(
                #[trigger] hs.take(i + 1 as int)[j],
            ) by {
                if j < i {
                    assert(hs.take(i as int)[j] == hs.take(i + 1 as int)[j]);
                } else {
                    assert(hs.take(i + 1 as int)[j] == hs[i as int]);
                    assert(pair_encodable(hs[i as int]));
                }
            }
        }
        i = i + 1;
    }
    proof {
        assert(hs.take(hs.len() as int) =~= hs);
    }
    Ok(())
}

/// Encodes a request into its canonical wire form.
///
/// Succeeds exactly when every field fits its 32-bit length prefix, and then
/// returns exactly the canonical encoding; otherwise reports which limit was
/// exceeded.
#[verifier::loop_isolation(false)]
#[verifier::rlimit(50)]
pub fn encode_request(
    method: &Method,
    path: &str,
    query: &str,
    headers: &[(String, String)],
    body: &[u8],
    remote: Option<&str>,
) -> (r: Result<Vec<u8>, WireError>)
    ensures
        ({
            let m = ReqModel {
                method: *method,
                path: path@,
                query: query@,
                headers: pairs_view(headers@),
                body: body@,
                remote: opt_str_view(remote),
            };
            &&& (r matches Ok(v) ==> request_encodable(m) && v@ == spec_encode_request(m))
            &&& (r matches Err(e) ==> !request_encodable(m) && e == spec_request_error(m))
        }),
{
    let ghost m = ReqModel {
        method: *method,
        path: path@,
        query: query@,
        headers: pairs_view(headers@),
        body: body@,
        remote: opt_str_view(remote),
    };
    let mut buf: Vec<u8> = Vec::new();
    write_u8(&mut buf, WIRE_VERSION);
    write_u8(&mut buf, method_to_u8(method));
    proof {
        assert(buf@ =~= seq![WIRE_VERSION, spec_method_code(*method)]);
    }
    match write_string(&mut buf, path) {
        Ok(()) => (),
        Err(e) => {
            return Err(e);
        },
    }
    match write_string(&mut buf, query) {
        Ok(()) => (),
        Err(e) => {
            return Err(e);
        },
    }
    if headers.len() > u32::MAX as usize {
        return Err(WireError::TooManyHeaders);
    }
    write_u32(&mut buf, headers.len() as u32);
    match write_pairs(&mut buf, headers) {
        Ok(()) => (),
        Err(e) => {
            return Err(e);
        },
    }
    match write_bytes(&mut buf, body) {
        Ok(()) => (),
        Err(e) => {
            return Err(e);
        },
    }
    match write_opt_string(&mut buf, remote) {
        Ok(()) => (),
        Err(e) => {
            return Err(e);
        },
    }
    proof {
        assert(buf@ =~= spec_encode_request(m));
    }
    Ok(buf)
}

/// A response fits the wire format when its header list and body do.
pub open spec fn response_encodable(m: RespModel) -> bool {
    &&& m.headers.len() <= u32::MAX
    &&& pairs_encodable(m.headers)
    &&& blob_encodable(m.body)
}

/// The canonical encoding of a response.
pub open spec fn spec_encode_response(m: RespModel) -> Seq<u8> {
    seq![WIRE_VERSION] + u16_bytes(m.status) + u32_bytes(m.headers.len() as u32) + enc_pairs(
        m.headers,
    ) + enc_blob(m.body)
}

/// A stream message fits the wire format when its variable fields do.
pub open spec fn msg_encodable(m: MsgModel) -> bool {
    match m {
        MsgModel::Head { status, headers, is_stream, body } => headers.len() <= u32::MAX
            && pairs_encodable(headers) && blob_encodable(body),
        MsgModel::Chunk(b) => blob_encodable(b),
        MsgModel::End => true,
    }
}

/// The canonical encoding of a stream message.
pub open spec fn spec_encode_stream_msg(m: MsgModel) -> Seq<u8> {
    match m {
        MsgModel::Head { status, headers, is_stream, body } => seq![
            STREAM_WIRE_VERSION,
            STREAM_MSG_HEAD,
        ] + u16_bytes(status) + seq![if is_stream { 1u8 } else { 0u8 }] + u32_bytes(
            headers.len() as u32,
        ) + enc_pairs(headers) + enc_blob(body),
        MsgModel::Chunk(b) => seq![STREAM_WIRE_VERSION, STREAM_MSG_CHUNK] + enc_blob(b),
        MsgModel::End => seq![STREAM_WIRE_VERSION, STREAM_MSG_END],
    }
}

/// The method a one-byte wire code names, if any.
pub open spec fn method_of_u8(code: u8) -> Option<Method> {
    if code == 0 {
        Some(Method::Get)
    } else if code == 1 {
        Some(Method::Post)
    } else if code == 2 {
        Some(Method::Put)
    } else if code == 3 {
        Some(Method::Patch)
    } else if code == 4 {
        Some(Method::Delete)
    } else if code == 5 {
        Some(Method::Options)
    } else if code == 6 {
        Some(Method::Head)
    } else {
        None
    }
}

/// What a request buffer decodes to, if a prefix of it is a well-formed
/// request encoding under the supported wire version.  The engine side does
/// this read; it is stated here to pin the format down.
pub open spec fn spec_decode_request(data: Seq<u8>) -> Option<ReqModel> {
    match parse_u8(data, 0) {
        Err(_) => None,
        Ok((ver, p1)) => if ver != WIRE_VERSION {
            None
        } else {
            match parse_u8(data, p1) {
                Err(_) => None,
                Ok((code, p2)) => match method_of_u8(code) {
                    None => None,
                    Some(method) => match parse_string(data, p2) {
                        Err(_) => None,
                        Ok((path, p3)) => match parse_string(data, p3) {
                            Err(_) => None,
                            Ok((query, p4)) => match parse_u32(data, p4) {
                                Err(_) => None,
                                Ok((count, p5)) => match parse_pairs(data, p5, count as nat) {
                                    Err(_) => None,
                                    Ok((headers, p6)) => match parse_blob(data, p6) {
                                        Err(_) => None,
                                        Ok((body, p7)) => match parse_u8(data, p7) {
                                            Err(_) => None,
                                            Ok((flag, p8)) => if flag == 0 {
                                                Some(
                                                    ReqModel {
                                                        method,
                                                        path,
                                                        query,
                                                        headers,
                                                        body,
                                                        remote: None,
                                                    },
                                                )
                                            } else if flag == 1 {
                                                match parse_string(data, p8) {
                                                    Err(_) => None,
                                                    Ok((remote, _p9)) => Some(
                                                        ReqModel {
                                                            method,
                                                            path,
                                                            query,
                                                            headers,
                                                            body,
                                                            remote: Some(remote),
                                                        },
                                                    ),
                                                }
                                            } else {
                                                None
                                            },
                                        },
                                    },
                                },
                            },
                        },
                    },
                },
            }
        },
    }
}

/// A window inside an already-identified window of a buffer.
proof fn lemma_subwindow(data: Seq<u8>, pos: int, w: Seq<u8>, lo: int, hi: int)
    requires
        0 <= pos,
        pos + w.len() <= data.len(),
        data.subrange(pos, pos + w.len() as int) == w,
        0 <= lo <= hi <= w.len(),
    ensures
        data.subrange(pos + lo, pos + hi) == w.subrange(lo, hi),
{
    assert forall|i: int| 0 <= i < hi - lo implies data.subrange(pos + lo, pos + hi)[i]
        == w.subrange(lo, hi)[i] by {
        assert(data.subrange(pos, pos + w.len() as int)[lo + i] == w[lo + i]);
    }
    assert(data.subrange(pos + lo, pos + hi) =~= w.subrange(lo, hi));
}

/// Splitting an identified window at a component boundary identifies both
/// halves.
proof fn lemma_split_window(data: Seq<u8>, pos: int, a: Seq<u8>, b: Seq<u8>)
    requires
        0 <= pos,
        pos + a.len() + b.len() <= data.len(),
        data.subrange(pos, pos + a.len() + b.len()) == a + b,
    ensures
        data.subrange(pos, pos + a.len() as int) == a,
        data.subrange(pos + a.len(), pos + a.len() + b.len()) == b,
{
    lemma_subwindow(data, pos, a + b, 0, a.len() as int);
    assert((a + b).subrange(0, a.len() as int) =~= a);
    lemma_subwindow(data, pos, a + b, a.len() as int, (a + b).len() as int);
    assert((a + b).subrange(a.len() as int, (a + b).len() as int) =~= b);
}

/// Reading a 16-bit value back from where its bytes were written gives the
/// value and advances past it.
proof fn lemma_parse_u16_at(data: Seq<u8>, pos: int, v: u16)
    requires
        0 <= pos,
        pos + 2 <= data.len(),
        data.subrange(pos, pos + 2) == u16_bytes(v),
    ensures
        parse_u16(data, pos) == Ok::<(u16, int), WireError>((v, pos + 2)),
{
    assert(data[pos] == u16_bytes(v)[0]);
    assert(data[pos + 1] == u16_bytes(v)[1]);
    lemma_u16_bytes_roundtrip(v);
}

/// Reading a 32-bit value back from where its bytes were written gives the
/// value and advances past it.
proof fn lemma_parse_u32_at(data: Seq<u8>, pos: int, v: u32)
    requires
        0 <= pos,
        pos + 4 <= data.len(),
        data.subrange(pos, pos + 4) == u32_bytes(v),
    ensures
        parse_u32(data, pos) == Ok::<(u32, int), WireError>((v, pos + 4)),
{
    assert(data[pos] == u32_bytes(v)[0]);
    assert(data[pos + 1] == u32_bytes(v)[1]);
    assert(data[pos + 2] == u32_bytes(v)[2]);
    assert(data[pos + 3] == u32_bytes(v)[3]);
    lemma_u32_bytes_roundtrip(v);
}

/// Reading a blob back from where its encoding was written gives the blob
/// and advances past it.
proof fn lemma_parse_blob_at(data: Seq<u8>, pos: int, b: Seq<u8>)
    requires
        blob_encodable(b),
        0 <= pos,
        pos + enc_blob(b).len() <= data.len(),
        data.subrange(pos, pos + enc_blob(b).len()) == enc_blob(b),
    ensures
        parse_blob(data, pos) == Ok::<(Seq<u8>, int), WireError>((b, pos + enc_blob(b).len())),
{
    let lenv = b.len() as u32;
    let w = enc_blob(b);
    lemma_subwindow(data, pos, w, 0, 4);
    assert(w.subrange(0, 4) =~= u32_bytes(lenv));
    lemma_parse_u32_at(data, pos, lenv);
    lemma_subwindow(data, pos, w, 4, w.len() as int);
    assert(w.subrange(4, w.len() as int) =~= b);
}

/// Reading a string back from where its encoding was written gives the
/// string and advances past it.
proof fn lemma_parse_string_at(data: Seq<u8>, pos: int, s: Seq<char>)
    requires
        string_encodable(s),
        0 <= pos,
        pos + enc_string(s).len() <= data.len(),
        data.subrange(pos, pos + enc_string(s).len()) == enc_string(s),
    ensures
        parse_string(data, pos) == Ok::<(Seq<char>, int), WireError>(
            (s, pos + enc_string(s).len()),
        ),
{
    broadcast use vstd::utf8::encode_utf8_valid_utf8, vstd::utf8::encode_utf8_decode_utf8;

    lemma_parse_blob_at(data, pos, encode_utf8(s));
}

/// Reading a header list back from where its encoding was written gives
/// the list and advances past it.
proof fn lemma_parse_pairs_at(data: Seq<u8>, pos: int, hs: Seq<(Seq<char>, Seq<char>)>)
    requires
        pairs_encodable(hs),
        0 <= pos,
        pos + enc_pairs(hs).len() <= data.len(),
        data.subrange(pos, pos + enc_pairs(hs).len()) == enc_pairs(hs),
    ensures
        parse_pairs(data, pos, hs.len()) == Ok::<(Seq<(Seq<char>, Seq<char>)>, int), WireError>(
            (hs, pos + enc_pairs(hs).len()),
        ),
    decreases hs.len(),
{
    if hs.len() == 0 {
        assert(hs =~= Seq::<(Seq<char>, Seq<char>)>::empty());
    } else {
        let k = hs[0].0;
        let v = hs[0].1;
        let ek = enc_string(k);
        let ev = enc_string(v);
        let rest = hs.drop_first();
        let er = enc_pairs(rest);
        assert(enc_pairs(hs) == ek + ev + er);
        let w = enc_pairs(hs);
        let lk = ek.len() as int;
        let lv = ev.len() as int;
        lemma_subwindow(data, pos, w, 0, lk);
        assert(w.subrange(0, lk) =~= ek);
        lemma_subwindow(data, pos, w, lk, lk + lv);
        assert(w.subrange(lk, lk + lv) =~= ev);
        lemma_subwindow(data, pos, w, lk + lv, w.len() as int);
        assert(w.subrange(lk + lv, w.len() as int) =~= er);
        lemma_parse_string_at(data, pos, k);
        lemma_parse_string_at(data, pos + ek.len() as int, v);
        assert forall|i: int| 0 <= i < rest.len() implies pair_encodable(#[trigger] rest[i]) by {
            assert(rest[i] == hs[i + 1]);
            assert(pair_encodable(hs[i + 1]));
        }
        lemma_parse_pairs_at(data, pos + ek.len() + ev.len(), rest);
        assert(seq![(k, v)] + rest =~= hs);
    }
}

/// Round trip for responses: decoding the canonical encoding of any
/// response that fits the wire format yields exactly that response.
pub proof fn lemma_response_round_trip(m: RespModel)
    requires
        response_encodable(m),
    ensures
        spec_decode_response(spec_encode_response(m)) == Ok::<RespModel, WireError>(m),
{
    let s1 = u16_bytes(m.status);
    let s2 = u32_bytes(m.headers.len() as u32);
    let s3 = enc_pairs(m.headers);
    let s4 = enc_blob(m.body);
    let data = spec_encode_response(m);
    let l3 = s3.len() as int;
    assert(data[0] == WIRE_VERSION);
    assert(data.subrange(1, 3) =~= s1);
    lemma_parse_u16_at(data, 1, m.status);
    assert(data.subrange(3, 7) =~= s2);
    lemma_parse_u32_at(data, 3, m.headers.len() as u32);
    assert(data.subrange(7, 7 + l3) =~= s3);
    lemma_parse_pairs_at(data, 7, m.headers);
    assert(data.subrange(7 + l3, 7 + l3 + s4.len()) =~= s4);
    lemma_parse_blob_at(data, 7 + l3, m.body);
    assert(spec_decode_response(data) == Ok::<RespModel, WireError>(
        (RespModel { status: m.status, headers: m.headers, body: m.body }),
    ));
    assert((RespModel { status: m.status, headers: m.headers, body: m.body }) =~= m);
}

/// Round trip for stream messages: decoding the canonical encoding of any
/// stream message that fits the wire format yields exactly that message.
#[verifier::rlimit(100)]
#[verifier::spinoff_prover]
pub proof fn lemma_stream_msg_round_trip(m: MsgModel)
    requires
        msg_encodable(m),
    ensures
        spec_decode_stream_msg(spec_encode_stream_msg(m)) == Ok::<MsgModel, WireError>(m),
{
    let data = spec_encode_stream_msg(m);
    match m {
        MsgModel::Head { status, headers, is_stream, body } => {
            let s2 = u16_bytes(status);
            let sflag: u8 = if is_stream {
                1u8
            } else {
                0u8
            };
            let s4 = u32_bytes(headers.len() as u32);
            let s5 = enc_pairs(headers);
            let s6 = enc_blob(body);
            let l5 = s5.len() as int;
            assert(data[0] == STREAM_WIRE_VERSION);
            assert(data[1] == STREAM_MSG_HEAD);
            assert(data.subrange(2, 4) =~= s2);
            lemma_parse_u16_at(data, 2, status);
            assert(data[4] == sflag);
            assert(data.subrange(5, 9) =~= s4);
            lemma_parse_u32_at(data, 5, headers.len() as u32);
            assert(data.subrange(9, 9 + l5) =~= s5);
            lemma_parse_pairs_at(data, 9, headers);
            assert(data.subrange(9 + l5, 9 + l5 + s6.len()) =~= s6);
            lemma_parse_blob_at(data, 9 + l5, body);
            assert((sflag != 0) == is_stream);
            assert(spec_decode_stream_msg(data) == Ok::<MsgModel, WireError>(
                (MsgModel::Head { status, headers, is_stream: sflag != 0, body }),
            ));
        },
        MsgModel::Chunk(b) => {
            let s2 = enc_blob(b);
            assert(data[0] == STREAM_WIRE_VERSION);
            assert(data[1] == STREAM_MSG_CHUNK);
            assert(data.subrange(2, 2 + s2.len() as int) =~= s2);
            lemma_parse_blob_at(data, 2, b);
        },
        MsgModel::End => {
            assert(data[0] == STREAM_WIRE_VERSION);
            assert(data[1] == STREAM_MSG_END);
        },
    }
}

/// The parse steps that reading back a canonically encoded request takes
/// over its fixed-position fields: version, method, path, query and header
/// count each parse to the value they were encoded from.
#[verifier::rlimit(100)]
#[verifier::spinoff_prover]
proof fn lemma_request_parse_facts_front(m: ReqModel)
    requires
        request_encodable(m),
    ensures
        ({
            let data = spec_encode_request(m);
            let lp = enc_string(m.path).len() as int;
            let lq = enc_string(m.query).len() as int;
            &&& parse_u8(data, 0) == Ok::<(u8, int), WireError>((WIRE_VERSION, 1))
            &&& parse_u8(data, 1) == Ok::<(u8, int), WireError>((spec_method_code(m.method), 2))
            &&& parse_string(data, 2) == Ok::<(Seq<char>, int), WireError>((m.path, 2 + lp))
            &&& parse_string(data, 2 + lp) == Ok::<(Seq<char>, int), WireError>(
                (m.query, 2 + lp + lq),
            )
            &&& parse_u32(data, 2 + lp + lq) == Ok::<(u32, int), WireError>(
                (m.headers.len() as u32, 6 + lp + lq),
            )
        }),
{
    let s01 = seq![WIRE_VERSION, spec_method_code(m.method)];
    let sp = enc_string(m.path);
    let sq = enc_string(m.query);
    let sc = u32_bytes(m.headers.len() as u32);
    let sh = enc_pairs(m.headers);
    let sb = enc_blob(m.body);
    let sr = enc_opt_string(m.remote);
    let x1 = s01 + sp;
    let x2 = x1 + sq;
    let x3 = x2 + sc;
    let x4 = x3 + sh;
    let x5 = x4 + sb;
    let data = spec_encode_request(m);
    assert(data == x5 + sr);
    assert(data.subrange(0, data.len() as int) =~= data);
    lemma_split_window(data, 0, x5, sr);
    lemma_split_window(data, 0, x4, sb);
    lemma_split_window(data, 0, x3, sh);
    lemma_split_window(data, 0, x2, sc);
    lemma_split_window(data, 0, x1, sq);
    lemma_split_window(data, 0, s01, sp);
    let lp = sp.len() as int;
    let lq = sq.len() as int;
    assert(data[0] == WIRE_VERSION && data[1] == spec_method_code(m.method)) by {
        assert(data.subrange(0, 2)[0] == s01[0]);
        assert(data.subrange(0, 2)[1] == s01[1]);
    }
    lemma_parse_string_at(data, 2, m.path);
    lemma_parse_string_at(data, 2 + lp, m.query);
    lemma_parse_u32_at(data, 2 + lp + lq, m.headers.len() as u32);
}

/// The parse steps over a canonically encoded request's header pairs and
/// body: each parses to the value it was encoded from.
#[verifier::rlimit(100)]
#[verifier::spinoff_prover]
proof fn lemma_request_parse_facts_mid(m: ReqModel)
    requires
        request_encodable(m),
    ensures
        ({
            let data = spec_encode_request(m);
            let lp = enc_string(m.path).len() as int;
            let lq = enc_string(m.query).len() as int;
            let lh = enc_pairs(m.headers).len() as int;
            let lb = enc_blob(m.body).len() as int;
            &&& parse_pairs(data, 6 + lp + lq, m.headers.len()) == Ok::<
                (Seq<(Seq<char>, Seq<char>)>, int),
                WireError,
            >((m.headers, 6 + lp + lq + lh))
            &&& parse_blob(data, 6 + lp + lq + lh) == Ok::<(Seq<u8>, int), WireError>(
                (m.body, 6 + lp + lq + lh + lb),
            )
        }),
{
    let s01 = seq![WIRE_VERSION, spec_method_code(m.method)];
    let sp = enc_string(m.path);
    let sq = enc_string(m.query);
    let sc = u32_bytes(m.headers.len() as u32);
    let sh = enc_pairs(m.headers);
    let sb = enc_blob(m.body);
    let sr = enc_opt_string(m.remote);
    let x1 = s01 + sp;
    let x2 = x1 + sq;
    let x3 = x2 + sc;
    let x4 = x3 + sh;
    let x5 = x4 + sb;
    let data = spec_encode_request(m);
    assert(data == x5 + sr);
    assert(data.subrange(0, data.len() as int) =~= data);
    lemma_split_window(data, 0, x5, sr);
    lemma_split_window(data, 0, x4, sb);
    lemma_split_window(data, 0, x3, sh);
    let lp = sp.len() as int;
    let lq = sq.len() as int;
    let lh = sh.len() as int;
    lemma_parse_pairs_at(data, 6 + lp + lq, m.headers);
    lemma_parse_blob_at(data, 6 + lp + lq + lh, m.body);
}

/// The parse steps over a canonically encoded request's trailing optional
/// remote address: the presence byte and, where present, the address.
#[verifier::rlimit(100)]
#[verifier::spinoff_prover]
proof fn lemma_request_parse_facts_back(m: ReqModel)
    requires
        request_encodable(m),
    ensures
        ({
            let data = spec_encode_request(m);
            let lp = enc_string(m.path).len() as int;
            let lq = enc_string(m.query).len() as int;
            let lh = enc_pairs(m.headers).len() as int;
            let lb = enc_blob(m.body).len() as int;
            let p7 = 6 + lp + lq + lh + lb;
            &&& parse_u8(data, p7) == Ok::<(u8, int), WireError>(
                (
                    if m.remote is Some {
                        1u8
                    } else {
                        0u8
                    },
                    p7 + 1,
                ),
            )
            &&& (m.remote matches Some(rem) ==> parse_string(data, p7 + 1) == Ok::<
                (Seq<char>, int),
                WireError,
            >((rem, p7 + 1 + enc_string(rem).len())))
        }),
{
    let s01 = seq![WIRE_VERSION, spec_method_code(m.method)];
    let sp = enc_string(m.path);
    let sq = enc_string(m.query);
    let sc = u32_bytes(m.headers.len() as u32);
    let sh = enc_pairs(m.headers);
    let sb = enc_blob(m.body);
    let sr = enc_opt_string(m.remote);
    let x5 = s01 + sp + sq + sc + sh + sb;
    let data = spec_encode_request(m);
    assert(data == x5 + sr);
    assert(data.subrange(0, data.len() as int) =~= data);
    lemma_split_window(data, 0, x5, sr);
    let p7 = x5.len() as int;
    match m.remote {
        None => {
            assert(data[p7] == 0u8) by {
                assert(data.subrange(p7, data.len() as int)[0] == sr[0]);
            }
        },
        Some(rem) => {
            assert(data[p7] == 1u8) by {
                assert(data.subrange(p7, data.len() as int)[0] == sr[0]);
            }
            lemma_subwindow(data, p7, sr, 1, sr.len() as int);
            assert(sr.subrange(1, sr.len() as int) =~= enc_string(rem));
            lemma_parse_string_at(data, p7 + 1, rem);
        },
    }
}

/// Round trip for requests: the engine-side read of the canonical encoding
/// of any request that fits the wire format yields exactly that request.
#[verifier::rlimit(100)]
#[verifier::spinoff_prover]
pub proof fn lemma_request_round_trip(m: ReqModel)
    requires
        request_encodable(m),
    ensures
        spec_decode_request(spec_encode_request(m)) == Some(m),
{
    lemma_request_parse_facts_front(m);
    lemma_request_parse_facts_mid(m);
    lemma_request_parse_facts_back(m);
    let data = spec_encode_request(m);
    assert(method_of_u8(spec_method_code(m.method)) == Some(m.method));
    assert((m.headers.len() as u32) as nat == m.headers.len());
    match m.remote {
        None => {
            assert((ReqModel {
                method: m.method,
                path: m.path,
                query: m.query,
                headers: m.headers,
                body: m.body,
                remote: None,
            }) =~= m);
        },
        Some(rem) => {
            assert((ReqModel {
                method: m.method,
                path: m.path,
                query: m.query,
                headers: m.headers,
                body: m.body,
                remote: Some(rem),
            }) =~= m);
        },
    }
}

/// Version gating for responses: any buffer whose first byte is not the
/// supported wire version decodes to a version error, whatever follows.
pub proof fn lemma_version_gating_response(data: Seq<u8>)
    requires
        data.len() >= 1,
        data[0] != WIRE_VERSION,
    ensures
        spec_decode_response(data) == Err::<RespModel, WireError>(WireError::UnsupportedVersion),
{
}

/// Version gating for stream messages: any buffer whose first byte is not
/// the supported wire version decodes to a version error, whatever follows.
pub proof fn lemma_version_gating_stream_msg(data: Seq<u8>)
    requires
        data.len() >= 1,
        data[0] != STREAM_WIRE_VERSION,
    ensures
        spec_decode_stream_msg(data) == Err::<MsgModel, WireError>(WireError::UnsupportedVersion),
{
}

} // verus!
