//! Message protocol: parses a payload's textual start line plus optional
//! JSON body into a [`Request`] or [`Response`], and serializes the
//! reverse direction.
//!
//! A payload is `"<startline>\n<optional-json-body>"`.  The start line is
//! exactly 4 whitespace-separated tokens.  There is no message-type tag: a
//! message is a `Response` iff its first token is exactly the protocol
//! literal `SMSG/0.1`, and a `Request` otherwise, with the protocol
//! literal expected as its last token.

use vstd::prelude::*;
use vstd::utf8::{valid_utf8, decode_utf8, encode_utf8, encode_utf8_valid_utf8,
    encode_utf8_decode_utf8, encode_scalar};
use crate::text::{is_ws, ws_free, split_ws, dec_chars, parse_usize_spec, sign_stripped,
    tokenize, parse_usize_chars, usize_dec_chars, utf8_chars, chars_to_string, str_chars,
    chars_utf8, lemma_split_ws_step, lemma_split_ws_word, lemma_dec_chars_val, is_digit};

verus! {

/// The protocol/version literal that discriminates responses from requests.
pub const PROTO_VERSION: &'static str = "SMSG/0.1";

/// Tokens a start line must have.
pub const START_LINE_ITEMS: usize = 4;

/// The characters of the protocol/version literal.
pub open spec fn proto_version_chars() -> Seq<char> {
    seq!['S', 'M', 'S', 'G', '/', '0', '.', '1']
}

/// The protocol/version literal and its character model agree.
pub proof fn lemma_proto_version_literal()
    ensures
        PROTO_VERSION@ == proto_version_chars(),
{
    reveal_strlit("SMSG/0.1");
    assert(PROTO_VERSION@ =~= proto_version_chars());
}

/// The characters of the protocol name alone.
pub open spec fn proto_name_chars() -> Seq<char> {
    seq!['S', 'M', 'S', 'G']
}

/// The characters of the protocol version alone.
pub open spec fn version_chars() -> Seq<char> {
    seq!['0', '.', '1']
}

/// Why a payload failed to parse as a message.  Protocol decode errors are
/// recoverable: the connection skips the payload and keeps reading.
#[derive(Debug)]
pub enum MessageError {
    /// The payload holds no newline, so no start line can be cut off it.
    NoStartLine,
    /// The start line does not have exactly the expected token count.
    MalformedStartLine { expected: usize, found: usize },
    /// A token that must be a non-negative id number is not one.
    InvalidId,
    /// A token that must be a non-negative status code is not one.
    InvalidCode,
    /// The start line is not valid UTF-8.
    ParseUtf8,
    /// The body after the start line is not a single JSON document.
    DecodeJson,
}

/// A request: id, action and kind, the protocol/version it speaks, and an
/// optional raw JSON body.
pub struct Request {
    pub protocol: String,
    pub version: String,
    pub id: usize,
    pub action: String,
    pub kind: String,
    pub body: Option<Vec<u8>>,
}

/// A response: the protocol/version it speaks, id, numeric code and reason
/// text, and an optional raw JSON body.
pub struct Response {
    pub protocol: String,
    pub version: String,
    pub id: usize,
    pub code: usize,
    pub text: String,
    pub body: Option<Vec<u8>>,
}

/// A parsed message.
pub enum Message {
    Request(Request),
    Response(Response),
}

/// The mathematical content of a [`Request`].
#[verifier::ext_equal]
pub ghost struct ReqData {
    pub protocol: Seq<char>,
    pub version: Seq<char>,
    pub id: int,
    pub action: Seq<char>,
    pub kind: Seq<char>,
    pub body: Option<Seq<u8>>,
}

/// The mathematical content of a [`Response`].
#[verifier::ext_equal]
pub ghost struct RespData {
    pub protocol: Seq<char>,
    pub version: Seq<char>,
    pub id: int,
    pub code: int,
    pub text: Seq<char>,
    pub body: Option<Seq<u8>>,
}

/// The mathematical content of a [`Message`].
#[verifier::ext_equal]
pub ghost enum MsgData {
    Request(ReqData),
    Response(RespData),
}

impl View for Request {
    type V = ReqData;

    open spec fn view(&self) -> ReqData {
        ReqData {
            protocol: self.protocol@,
            version: self.version@,
            id: self.id as int,
            action: self.action@,
            kind: self.kind@,
            body: match self.body {
                Some(ref b) => Some(b@),
                None => None,
            },
        }
    }
}

impl View for Response {
    type V = RespData;

    open spec fn view(&self) -> RespData {
        RespData {
            protocol: self.protocol@,
            version: self.version@,
            id: self.id as int,
            code: self.code as int,
            text: self.text@,
            body: match self.body {
                Some(ref b) => Some(b@),
                None => None,
            },
        }
    }
}

impl View for Message {
    type V = MsgData;

    open spec fn view(&self) -> MsgData {
        match self {
            Message::Request(r) => MsgData::Request(r@),
            Message::Response(r) => MsgData::Response(r@),
        }
    }
}

/// What a payload body is: `serde_json::from_slice` accepts the bytes as
/// one JSON document.
pub uninterp spec fn json_ok(b: Seq<u8>) -> bool;

/// Relies on `serde_json::from_slice::<Value>`: it succeeds exactly when
/// the bytes form one valid JSON document.
#[verifier::external_body]
pub(crate) fn json_accepts(b: &[u8]) -> (r: bool)
    ensures
        r == json_ok(b@),
{
    serde_json::from_slice::<serde_json::Value>(b).is_ok()
}

/// The start line of a request: id, action, kind, then protocol/version.
pub open spec fn req_line_chars(r: ReqData) -> Seq<char> {
    dec_chars(r.id) + seq![' '] + r.action + seq![' '] + r.kind + seq![' ']
        + r.protocol + seq!['/'] + r.version
}

/// The start line of a response: protocol/version, id, code, then text.
pub open spec fn resp_line_chars(r: RespData) -> Seq<char> {
    r.protocol + seq!['/'] + r.version + seq![' '] + dec_chars(r.id) + seq![' ']
        + dec_chars(r.code) + seq![' '] + r.text
}

/// A start line followed by a newline and the body, if any, as payload
/// bytes.
pub open spec fn payload_bytes(line: Seq<char>, body: Option<Seq<u8>>) -> Seq<u8> {
    encode_utf8(line) + seq![10u8] + match body {
        Some(b) => b,
        None => Seq::empty(),
    }
}

/// The payload a request serializes to.
pub open spec fn req_payload(r: ReqData) -> Seq<u8> {
    payload_bytes(req_line_chars(r), r.body)
}

/// The payload a response serializes to.
pub open spec fn resp_payload(r: RespData) -> Seq<u8> {
    payload_bytes(resp_line_chars(r), r.body)
}

/// Position of the first newline byte, if any.
pub open spec fn first_nl(b: Seq<u8>) -> Option<int> {
    if exists|i: int| 0 <= i < b.len() && b[i] == 10u8 {
        Some(choose|i: int| (0 <= i < b.len() && b[i] == 10u8
            && forall|j: int| 0 <= j < i ==> b[j] != 10u8))
    } else {
        None
    }
}

/// A protocol/version token split at its first `/`: the protocol before
/// it, the version after it; without a `/` the whole token is the protocol
/// and the version is empty.
pub open spec fn split_proto(t: Seq<char>) -> (Seq<char>, Seq<char>) {
    if exists|i: int| 0 <= i < t.len() && t[i] == '/' {
        let i = choose|i: int| (0 <= i < t.len() && t[i] == '/'
            && forall|j: int| 0 <= j < i ==> t[j] != '/');
        (t.subrange(0, i), t.subrange(i + 1, t.len() as int))
    } else {
        (t, Seq::empty())
    }
}

/// How a 4-token start line with the protocol literal first reads as a
/// response.
pub open spec fn parse_resp(toks: Seq<Seq<char>>, body: Option<Seq<u8>>) -> Result<
    RespData,
    MessageError,
>
    recommends
        toks.len() == 4,
{
    if parse_usize_spec(toks[1]) is None {
        Err(MessageError::InvalidId)
    } else if parse_usize_spec(toks[2]) is None {
        Err(MessageError::InvalidCode)
    } else {
        let (protocol, version) = split_proto(toks[0]);
        Ok(
            RespData {
                protocol,
                version,
                id: parse_usize_spec(toks[1]).unwrap(),
                code: parse_usize_spec(toks[2]).unwrap(),
                text: toks[3],
                body,
            },
        )
    }
}

/// How a 4-token start line without the protocol literal first reads as a
/// request.
pub open spec fn parse_req(toks: Seq<Seq<char>>, body: Option<Seq<u8>>) -> Result<
    ReqData,
    MessageError,
>
    recommends
        toks.len() == 4,
{
    if parse_usize_spec(toks[0]) is None {
        Err(MessageError::InvalidId)
    } else {
        let (protocol, version) = split_proto(toks[3]);
        Ok(
            ReqData {
                protocol,
                version,
                id: parse_usize_spec(toks[0]).unwrap(),
                action: toks[1],
                kind: toks[2],
                body,
            },
        )
    }
}

/// What a tokenized start line and body parse to: the line must hold
/// exactly 4 tokens, and the first token decides between response and
/// request.
pub open spec fn parse_line(toks: Seq<Seq<char>>, body: Option<Seq<u8>>) -> Result<
    MsgData,
    MessageError,
> {
    if toks.len() != 4 {
        Err(MessageError::MalformedStartLine { expected: 4, found: toks.len() as usize })
    } else if toks[0] == proto_version_chars() {
        match parse_resp(toks, body) {
            Ok(r) => Ok(MsgData::Response(r)),
            Err(e) => Err(e),
        }
    } else {
        match parse_req(toks, body) {
            Ok(r) => Ok(MsgData::Request(r)),
            Err(e) => Err(e),
        }
    }
}

/// What any payload parses to: the start line is cut at the first newline
/// and must be UTF-8; a non-empty remainder must be JSON and becomes the
/// body; then the tokenized line is read as [`parse_line`] says.
pub open spec fn parse_msg(p: Seq<u8>) -> Result<MsgData, MessageError> {
    match first_nl(p) {
        None => Err(MessageError::NoStartLine),
        Some(nl) => {
            let line = p.subrange(0, nl);
            let rest = p.subrange(nl + 1, p.len() as int);
            if !valid_utf8(line) {
                Err(MessageError::ParseUtf8)
            } else {
                let body = if rest.len() == 0 {
                    Option::<Seq<u8>>::None
                } else {
                    Some(rest)
                };
                if rest.len() > 0 && !json_ok(rest) {
                    Err(MessageError::DecodeJson)
                } else {
                    parse_line(split_ws(decode_utf8(line)), body)
                }
            }
        },
    }
}

/// If a newline stands at `k` and none before it, the first newline is at
/// `k`.
proof fn lemma_first_nl_at(b: Seq<u8>, k: int)
    requires
        0 <= k < b.len(),
        b[k] == 10u8,
        forall|j: int| 0 <= j < k ==> b[j] != 10u8,
    ensures
        first_nl(b) == Some(k),
{
    assert(exists|i: int| 0 <= i < b.len() && b[i] == 10u8);
    let i = choose|i: int| (0 <= i < b.len() && b[i] == 10u8
        && forall|j: int| 0 <= j < i ==> b[j] != 10u8);
    assert(0 <= k < b.len() && b[k] == 10u8 && forall|j: int| 0 <= j < k ==> b[j] != 10u8);
    if i < k {
        assert(b[i] != 10u8);
    } else if k < i {
        assert(b[k] != 10u8);
    }
}

/// If no byte is a newline, there is no first newline.
proof fn lemma_first_nl_none(b: Seq<u8>)
    requires
        forall|j: int| 0 <= j < b.len() ==> b[j] != 10u8,
    ensures
        first_nl(b) is None,
{
}

/// If a slash stands at `k` and none before it, the token splits there.
proof fn lemma_split_proto_at(t: Seq<char>, k: int)
    requires
        0 <= k < t.len(),
        t[k] == '/',
        forall|j: int| 0 <= j < k ==> t[j] != '/',
    ensures
        split_proto(t) == (t.subrange(0, k), t.subrange(k + 1, t.len() as int)),
{
    assert(exists|i: int| 0 <= i < t.len() && t[i] == '/');
    let i = choose|i: int| (0 <= i < t.len() && t[i] == '/'
        && forall|j: int| 0 <= j < i ==> t[j] != '/');
    assert(0 <= k < t.len() && t[k] == '/' && forall|j: int| 0 <= j < k ==> t[j] != '/');
    if i < k {
        assert(t[i] != '/');
    } else if k < i {
        assert(t[k] != '/');
    }
}

/// No character of the sequence is a newline.
pub open spec fn no_nl(s: Seq<char>) -> bool {
    forall|i: int| 0 <= i < s.len() ==> #[trigger] s[i] != '\n'
}

/// The UTF-8 encoding of a scalar other than the newline holds no newline
/// byte.
proof fn lemma_encode_scalar_no_nl(u: u32)
    requires
        u != 10,
    ensures
        forall|i: int| 0 <= i < encode_scalar(u).len()
            ==> #[trigger] encode_scalar(u)[i] != 10u8,
{
    assert(u <= 0x7f && u != 10 ==> (u & 0x7F) as u8 != 10) by (bit_vector);
    assert(forall|x: u8| #![auto] 0xC0 | x != 10 && 0xE0 | x != 10 && 0xF0 | x != 10
        && 0x80 | x != 10) by (bit_vector);
}

/// Encoding characters free of newlines yields bytes free of the newline
/// byte.
proof fn lemma_encode_utf8_no_nl(s: Seq<char>)
    requires
        no_nl(s),
    ensures
        forall|i: int| 0 <= i < encode_utf8(s).len() ==> #[trigger] encode_utf8(s)[i] != 10u8,
    decreases s.len(),
{
    if s.len() > 0 {
        assert(s[0] != '\n');
        assert(s[0] as u32 != 10) by {
            if s[0] as u32 == 10 {
                vstd::utf8::char_u32_cast(s[0], 10);
                assert('\n' as u32 == 10);
                vstd::utf8::char_u32_cast('\n', 10);
                assert(s[0] == '\n');
            }
        }
        lemma_encode_scalar_no_nl(s[0] as u32);
        assert(no_nl(s.drop_first()));
        lemma_encode_utf8_no_nl(s.drop_first());
        assert(forall|i: int| 0 <= i < encode_utf8(s).len()
            ==> #[trigger] encode_utf8(s)[i] != 10u8) by {
            let e0 = encode_scalar(s[0] as u32);
            let er = encode_utf8(s.drop_first());
            assert(encode_utf8(s) == e0 + er);
            assert forall|i: int| 0 <= i < encode_utf8(s).len()
                implies #[trigger] encode_utf8(s)[i] != 10u8 by {
                if i < e0.len() {
                    assert(encode_utf8(s)[i] == e0[i]);
                } else {
                    assert(encode_utf8(s)[i] == er[i - e0.len()]);
                }
            }
        }
    }
}

/// Index of the first newline byte of a payload, if any.
fn find_nl(p: &Vec<u8>) -> (r: Option<usize>)
    ensures
        r matches Some(i) ==> first_nl(p@) == Some(i as int) && i < p@.len()
            && p@[i as int] == 10u8,
        r is None ==> first_nl(p@) is None,
{
    let mut i: usize = 0;
    while i < p.len()
        invariant
            0 <= i <= p@.len(),
            forall|j: int| 0 <= j < i ==> p@[j] != 10u8,
        decreases p@.len() - i,
    {
        if p[i] == 10u8 {
            proof {
                lemma_first_nl_at(p@, i as int);
            }
            return Some(i);
        }
        i += 1;
    }
    proof {
        lemma_first_nl_none(p@);
    }
    None
}

/// Copy of a byte range.
fn copy_u8_range(v: &Vec<u8>, a: usize, b: usize) -> (r: Vec<u8>)
    requires
        a <= b <= v@.len(),
    ensures
        r@ == v@.subrange(a as int, b as int),
{
    let mut r: Vec<u8> = Vec::new();
    let mut i: usize = a;
    while i < b
        invariant
            a <= i <= b <= v@.len(),
            r@ == v@.subrange(a as int, i as int),
        decreases b - i,
    {
        r.push(v[i]);
        assert(r@ =~= v@.subrange(a as int, i + 1));
        i += 1;
    }
    r
}

/// Copy of a character range.
fn copy_char_range(v: &Vec<char>, a: usize, b: usize) -> (r: Vec<char>)
    requires
        a <= b <= v@.len(),
    ensures
        r@ == v@.subrange(a as int, b as int),
{
    let mut r: Vec<char> = Vec::new();
    let mut i: usize = a;
    while i < b
        invariant
            a <= i <= b <= v@.len(),
            r@ == v@.subrange(a as int, i as int),
        decreases b - i,
    {
        r.push(v[i]);
        assert(r@ =~= v@.subrange(a as int, i + 1));
        i += 1;
    }
    r
}

/// Does this token equal the protocol/version literal?
fn is_proto_version(t: &Vec<char>) -> (r: bool)
    ensures
        r == (t@ == proto_version_chars()),
{
    if t.len() != 8 {
        assert(t@ != proto_version_chars());
        return false;
    }
    let r = t[0] == 'S' && t[1] == 'M' && t[2] == 'S' && t[3] == 'G' && t[4] == '/'
        && t[5] == '0' && t[6] == '.' && t[7] == '1';
    if r {
        assert(t@ =~= proto_version_chars());
    } else {
        assert(t@ != proto_version_chars());
    }
    r
}

/// Cut a protocol/version token at its first slash.
fn split_proto_vec(t: &Vec<char>) -> (r: (Vec<char>, Vec<char>))
    ensures
        (r.0@, r.1@) == split_proto(t@),
{
    let mut i: usize = 0;
    while i < t.len()
        invariant
            0 <= i <= t@.len(),
            forall|j: int| 0 <= j < i ==> t@[j] != '/',
        decreases t@.len() - i,
    {
        if t[i] == '/' {
            proof {
                lemma_split_proto_at(t@, i as int);
            }
            let a = copy_char_range(t, 0, i);
            let b = copy_char_range(t, i + 1, t.len());
            return (a, b);
        }
        i += 1;
    }
    let a = copy_char_range(t, 0, t.len());
    assert(a@ =~= t@);
    (a, Vec::new())
}

/// The bytes of an optional body.
pub open spec fn opt_bytes(b: Option<Vec<u8>>) -> Option<Seq<u8>> {
    match b {
        Some(x) => Some(x@),
        None => None,
    }
}

impl Request {
    /// A request built from its parts.
    pub fn new(
        protocol: String,
        version: String,
        id: usize,
        action: String,
        kind: String,
        body: Option<Vec<u8>>,
    ) -> (r: Request)
        ensures
            r@ == (ReqData {
                protocol: protocol@,
                version: version@,
                id: id as int,
                action: action@,
                kind: kind@,
                body: opt_bytes(body),
            }),
    {
        Request { protocol, version, id, action, kind, body }
    }
}

impl Response {
    /// A response built from its parts.
    pub fn new(
        protocol: String,
        version: String,
        id: usize,
        code: usize,
        text: String,
        body: Option<Vec<u8>>,
    ) -> (r: Response)
        ensures
            r@ == (RespData {
                protocol: protocol@,
                version: version@,
                id: id as int,
                code: code as int,
                text: text@,
                body: opt_bytes(body),
            }),
    {
        Response { protocol, version, id, code, text, body }
    }
}

/// Read a 4-token start line as a request, as [`parse_req`] says.
fn build_request(toks: &Vec<Vec<char>>, body: Option<Vec<u8>>) -> (r: Result<
    Request,
    MessageError,
>)
    requires
        toks@.len() == 4,
    ensures
        ({
            let q = parse_req(toks.deep_view(), opt_bytes(body));
            &&& r is Ok <==> q is Ok
            &&& r matches Ok(m) ==> q matches Ok(d) && m@ == d
            &&& r matches Err(e) ==> q matches Err(d) && e == d
        }),
{
    proof {
        assert(toks.deep_view().len() == 4);
        assert(toks.deep_view()[0] == toks@[0]@);
        assert(toks.deep_view()[1] == toks@[1]@);
        assert(toks.deep_view()[2] == toks@[2]@);
        assert(toks.deep_view()[3] == toks@[3]@);
    }
    let id = match parse_usize_chars(&toks[0]) {
        Some(v) => v,
        None => {
            return Err(MessageError::InvalidId);
        },
    };
    let action = chars_to_string(&toks[1]);
    let kind = chars_to_string(&toks[2]);
    let pv = split_proto_vec(&toks[3]);
    let protocol = chars_to_string(&pv.0);
    let version = chars_to_string(&pv.1);
    let ghost q = parse_req(toks.deep_view(), opt_bytes(body));
    let r = Request { protocol, version, id, action, kind, body };
    proof {
        assert(r@ =~= q.unwrap());
    }
    Ok(r)
}

/// Read a 4-token start line as a response, as [`parse_resp`] says.
fn build_response(toks: &Vec<Vec<char>>, body: Option<Vec<u8>>) -> (r: Result<
    Response,
    MessageError,
>)
    requires
        toks@.len() == 4,
    ensures
        ({
            let q = parse_resp(toks.deep_view(), opt_bytes(body));
            &&& r is Ok <==> q is Ok
            &&& r matches Ok(m) ==> q matches Ok(d) && m@ == d
            &&& r matches Err(e) ==> q matches Err(d) && e == d
        }),
{
    proof {
        assert(toks.deep_view().len() == 4);
        assert(toks.deep_view()[0] == toks@[0]@);
        assert(toks.deep_view()[1] == toks@[1]@);
        assert(toks.deep_view()[2] == toks@[2]@);
        assert(toks.deep_view()[3] == toks@[3]@);
    }
    let id = match parse_usize_chars(&toks[1]) {
        Some(v) => v,
        None => {
            return Err(MessageError::InvalidId);
        },
    };
    let code = match parse_usize_chars(&toks[2]) {
        Some(v) => v,
        None => {
            return Err(MessageError::InvalidCode);
        },
    };
    let text = chars_to_string(&toks[3]);
    let pv = split_proto_vec(&toks[0]);
    let protocol = chars_to_string(&pv.0);
    let version = chars_to_string(&pv.1);
    let ghost q = parse_resp(toks.deep_view(), opt_bytes(body));
    let r = Response { protocol, version, id, code, text, body };
    proof {
        assert(r@ =~= q.unwrap());
    }
    Ok(r)
}

/// Decode one payload into a message, exactly as [`parse_msg`] reads it.
///
/// Protocol decode errors are recoverable: the caller logs them and keeps
/// reading later frames on the same connection.
#[verifier::rlimit(60)]
pub fn decode_message(payload: &Vec<u8>) -> (r: Result<Message, MessageError>)
    ensures
        ({
            let q = parse_msg(payload@);
            &&& r is Ok <==> q is Ok
            &&& r matches Ok(m) ==> q matches Ok(d) && m@ == d
            &&& r matches Err(e) ==> q matches Err(d) && e == d
        }),
{
    let nl = match find_nl(payload) {
        Some(i) => i,
        None => {
            return Err(MessageError::NoStartLine);
        },
    };
    let plen = payload.len();
    assert(nl < plen);
    let line = copy_u8_range(payload, 0, nl);
    let rest = copy_u8_range(payload, nl + 1, plen);
    proof {
        assert(line@ == payload@.subrange(0, nl as int));
        assert(rest@ == payload@.subrange(nl + 1, payload@.len() as int));
    }
    let chars = match utf8_chars(line.as_slice()) {
        Some(c) => c,
        None => {
            return Err(MessageError::ParseUtf8);
        },
    };
    let body: Option<Vec<u8>> = if rest.len() == 0 {
        None
    } else if json_accepts(rest.as_slice()) {
        Some(rest)
    } else {
        return Err(MessageError::DecodeJson);
    };
    let toks = tokenize(&chars);
    proof {
        assert(toks.deep_view() == split_ws(decode_utf8(line@)));
    }
    if toks.len() != 4 {
        return Err(
            MessageError::MalformedStartLine { expected: START_LINE_ITEMS, found: toks.len() },
        );
    }
    proof {
        assert(toks.deep_view().len() == 4);
        assert(toks.deep_view()[0] == toks@[0]@);
    }
    if is_proto_version(&toks[0]) {
        match build_response(&toks, body) {
            Ok(m) => Ok(Message::Response(m)),
            Err(e) => Err(e),
        }
    } else {
        match build_request(&toks, body) {
            Ok(m) => Ok(Message::Request(m)),
            Err(e) => Err(e),
        }
    }
}

/// Append a copy of an optional body's bytes.
fn append_body(out: &mut Vec<u8>, body: &Option<Vec<u8>>)
    ensures
        final(out)@ == old(out)@ + match *body {
            Some(ref b) => b@,
            None => Seq::<u8>::empty(),
        },
{
    match body {
        Some(b) => {
            let mut copy = copy_u8_range(b, 0, b.len());
            assert(copy@ =~= b@);
            out.append(&mut copy);
        },
        None => {
            assert(out@ =~= out@ + Seq::<u8>::empty());
        },
    }
}

impl Request {
    /// Serialize: the start line `<id> <action> <kind> <protocol>/<version>`,
    /// a newline, then the raw JSON body, if any.
    pub fn encode(&self) -> (r: Vec<u8>)
        ensures
            r@ == req_payload(self@),
    {
        let mut line: Vec<char> = usize_dec_chars(self.id);
        line.push(' ');
        let mut t = str_chars(self.action.as_str());
        line.append(&mut t);
        line.push(' ');
        let mut t = str_chars(self.kind.as_str());
        line.append(&mut t);
        line.push(' ');
        let mut t = str_chars(self.protocol.as_str());
        line.append(&mut t);
        line.push('/');
        let mut t = str_chars(self.version.as_str());
        line.append(&mut t);
        proof {
            assert(line@ =~= req_line_chars(self@));
        }
        let mut out = chars_utf8(&line);
        out.push(10u8);
        append_body(&mut out, &self.body);
        proof {
            assert(out@ =~= req_payload(self@));
        }
        out
    }
}

impl Response {
    /// Serialize: the start line `<protocol>/<version> <id> <code> <text>`,
    /// a newline, then the raw JSON body, if any.
    pub fn encode(&self) -> (r: Vec<u8>)
        ensures
            r@ == resp_payload(self@),
    {
        let mut line: Vec<char> = str_chars(self.protocol.as_str());
        line.push('/');
        let mut t = str_chars(self.version.as_str());
        line.append(&mut t);
        line.push(' ');
        let mut t = usize_dec_chars(self.id);
        line.append(&mut t);
        line.push(' ');
        let mut t = usize_dec_chars(self.code);
        line.append(&mut t);
        line.push(' ');
        let mut t = str_chars(self.text.as_str());
        line.append(&mut t);
        proof {
            assert(line@ =~= resp_line_chars(self@));
        }
        let mut out = chars_utf8(&line);
        out.push(10u8);
        append_body(&mut out, &self.body);
        proof {
            assert(out@ =~= resp_payload(self@));
        }
        out
    }
}

impl Message {
    /// Serialize either kind of message to its payload bytes.
    pub fn encode(&self) -> (r: Vec<u8>)
        ensures
            r@ == match self@ {
                MsgData::Request(d) => req_payload(d),
                MsgData::Response(d) => resp_payload(d),
            },
    {
        match self {
            Message::Request(m) => m.encode(),
            Message::Response(m) => m.encode(),
        }
    }
}

/// A body a message may carry and still round-trip: absent, or non-empty
/// bytes that one JSON document spans.
pub open spec fn body_wf(b: Option<Seq<u8>>) -> bool {
    match b {
        None => true,
        Some(x) => x.len() > 0 && json_ok(x),
    }
}

/// No character of the sequence is a slash.
pub open spec fn no_slash(s: Seq<char>) -> bool {
    forall|i: int| 0 <= i < s.len() ==> #[trigger] s[i] != '/'
}

/// A request whose encoding parses back to itself: textual fields free of
/// whitespace, action and kind non-empty, the protocol free of slashes,
/// and a well-formed body.
pub open spec fn req_wf(r: ReqData) -> bool {
    &&& 0 <= r.id <= usize::MAX
    &&& r.action.len() > 0 && ws_free(r.action)
    &&& r.kind.len() > 0 && ws_free(r.kind)
    &&& ws_free(r.protocol) && no_slash(r.protocol)
    &&& ws_free(r.version)
    &&& body_wf(r.body)
}

/// A response whose encoding parses back to itself: it must speak exactly
/// the protocol literal (any other start token would read as a request),
/// with non-empty whitespace-free text and a well-formed body.
pub open spec fn resp_wf(r: RespData) -> bool {
    &&& 0 <= r.id <= usize::MAX
    &&& 0 <= r.code <= usize::MAX
    &&& r.protocol == proto_name_chars()
    &&& r.version == version_chars()
    &&& r.text.len() > 0 && ws_free(r.text)
    &&& body_wf(r.body)
}

/// A digit character is not whitespace, a sign, a slash, or the letter
/// that opens the protocol literal.
proof fn lemma_digit_not_special(c: char)
    requires
        is_digit(c),
    ensures
        !is_ws(c),
        c != '/',
        c != '+',
        c != 'S',
{
    assert(' ' as u32 == 32 && '\t' as u32 == 9 && '\n' as u32 == 10 && '\r' as u32 == 13
        && '\u{c}' as u32 == 12 && '/' as u32 == 47 && '+' as u32 == 43 && 'S' as u32 == 83);
}

/// Digit strings are whitespace-free.
proof fn lemma_digits_ws_free(n: int)
    requires
        n >= 0,
    ensures
        ws_free(dec_chars(n)),
        no_nl(dec_chars(n)),
        dec_chars(n)[0] != '+',
        dec_chars(n)[0] != 'S',
{
    lemma_dec_chars_val(n);
    let d = dec_chars(n);
    assert forall|i: int| 0 <= i < d.len() implies !is_ws(#[trigger] d[i]) by {
        lemma_digit_not_special(d[i]);
    }
    assert forall|i: int| 0 <= i < d.len() implies #[trigger] d[i] != '\n' by {
        assert(!is_ws(d[i]));
    }
    lemma_digit_not_special(d[0]);
}

/// Whitespace-free characters are newline-free.
proof fn lemma_ws_free_no_nl(s: Seq<char>)
    requires
        ws_free(s),
    ensures
        no_nl(s),
{
    assert forall|i: int| 0 <= i < s.len() implies #[trigger] s[i] != '\n' by {
        assert(!is_ws(s[i]));
    }
}

/// Newline-freedom is preserved by concatenation.
proof fn lemma_no_nl_concat(a: Seq<char>, b: Seq<char>)
    requires
        no_nl(a),
        no_nl(b),
    ensures
        no_nl(a + b),
{
    assert forall|i: int| 0 <= i < (a + b).len() implies #[trigger] (a + b)[i] != '\n' by {
        if i < a.len() {
            assert((a + b)[i] == a[i]);
        } else {
            assert((a + b)[i] == b[i - a.len()]);
        }
    }
}

/// Whitespace-freedom is preserved by concatenation.
proof fn lemma_ws_free_concat(a: Seq<char>, b: Seq<char>)
    requires
        ws_free(a),
        ws_free(b),
    ensures
        ws_free(a + b),
{
    assert forall|i: int| 0 <= i < (a + b).len() implies !is_ws(#[trigger] (a + b)[i]) by {
        if i < a.len() {
            assert((a + b)[i] == a[i]);
        } else {
            assert((a + b)[i] == b[i - a.len()]);
        }
    }
}

/// The tokens of a well-formed request's start line, in order.
proof fn lemma_req_tokens(r: ReqData)
    requires
        req_wf(r),
    ensures
        split_ws(req_line_chars(r)) == seq![
            dec_chars(r.id),
            r.action,
            r.kind,
            r.protocol + seq!['/'] + r.version,
        ],
{
    let d = dec_chars(r.id);
    lemma_dec_chars_val(r.id);
    lemma_digits_ws_free(r.id);
    let t3 = r.protocol + seq!['/'] + r.version;
    assert(ws_free(seq!['/']));
    lemma_ws_free_concat(r.protocol, seq!['/']);
    lemma_ws_free_concat(r.protocol + seq!['/'], r.version);
    assert(ws_free(t3));
    assert(t3.len() > 0);
    let s3 = t3;
    let s2 = r.kind + seq![' '] + s3;
    let s1 = r.action + seq![' '] + s2;
    assert(req_line_chars(r) =~= d + seq![' '] + s1);
    lemma_split_ws_step(d, s1);
    lemma_split_ws_step(r.action, s2);
    lemma_split_ws_step(r.kind, s3);
    lemma_split_ws_word(t3);
    assert(split_ws(req_line_chars(r)) == seq![d] + (seq![r.action] + (seq![r.kind] + seq![
        t3,
    ])));
    assert(seq![d] + (seq![r.action] + (seq![r.kind] + seq![t3])) =~= seq![
        d,
        r.action,
        r.kind,
        t3,
    ]);
}

/// The tokens of a well-formed response's start line, in order.
proof fn lemma_resp_tokens(r: RespData)
    requires
        resp_wf(r),
    ensures
        split_ws(resp_line_chars(r)) == seq![
            proto_version_chars(),
            dec_chars(r.id),
            dec_chars(r.code),
            r.text,
        ],
{
    let t0 = r.protocol + seq!['/'] + r.version;
    assert(t0 =~= proto_version_chars());
    assert(ws_free(proto_version_chars())) by {
        assert forall|i: int| 0 <= i < proto_version_chars().len()
            implies !is_ws(#[trigger] proto_version_chars()[i]) by {
        }
    }
    lemma_dec_chars_val(r.id);
    lemma_digits_ws_free(r.id);
    lemma_dec_chars_val(r.code);
    lemma_digits_ws_free(r.code);
    let s3 = r.text;
    let s2 = dec_chars(r.code) + seq![' '] + s3;
    let s1 = dec_chars(r.id) + seq![' '] + s2;
    assert(resp_line_chars(r) =~= t0 + seq![' '] + s1);
    lemma_split_ws_step(t0, s1);
    lemma_split_ws_step(dec_chars(r.id), s2);
    lemma_split_ws_step(dec_chars(r.code), s3);
    lemma_split_ws_word(r.text);
    assert(split_ws(resp_line_chars(r)) == seq![t0] + (seq![dec_chars(r.id)] + (seq![
        dec_chars(r.code),
    ] + seq![r.text])));
    assert(seq![t0] + (seq![dec_chars(r.id)] + (seq![dec_chars(r.code)] + seq![r.text])) =~= seq![
        t0,
        dec_chars(r.id),
        dec_chars(r.code),
        r.text,
    ]);
}

/// A well-formed start line followed by newline and body cuts back into
/// exactly that line and body.
proof fn lemma_payload_cut(line: Seq<char>, body: Option<Seq<u8>>)
    requires
        no_nl(line),
    ensures
        ({
            let p = payload_bytes(line, body);
            let lb = encode_utf8(line);
            &&& first_nl(p) == Some(lb.len() as int)
            &&& p.subrange(0, lb.len() as int) == lb
            &&& p.subrange(lb.len() as int + 1, p.len() as int) == match body {
                Some(b) => b,
                None => Seq::<u8>::empty(),
            }
            &&& valid_utf8(lb)
            &&& decode_utf8(lb) == line
        }),
{
    let p = payload_bytes(line, body);
    let lb = encode_utf8(line);
    let bodyb = match body {
        Some(b) => b,
        None => Seq::<u8>::empty(),
    };
    lemma_encode_utf8_no_nl(line);
    assert(p == lb + seq![10u8] + bodyb);
    assert(p[lb.len() as int] == 10u8) by {
        assert((lb + seq![10u8])[lb.len() as int] == 10u8);
        assert(p[lb.len() as int] == (lb + seq![10u8])[lb.len() as int]);
    }
    assert forall|j: int| 0 <= j < lb.len() implies p[j] != 10u8 by {
        assert(p[j] == lb[j]);
    }
    lemma_first_nl_at(p, lb.len() as int);
    assert(p.subrange(0, lb.len() as int) =~= lb);
    assert(p.subrange(lb.len() as int + 1, p.len() as int) =~= bodyb);
    encode_utf8_valid_utf8(line);
    encode_utf8_decode_utf8(line);
}

/// Parsing a payload built from a newline-free line and a well-formed
/// body reduces to parsing the line's tokens.
proof fn lemma_parse_payload(line: Seq<char>, body: Option<Seq<u8>>)
    requires
        no_nl(line),
        body_wf(body),
    ensures
        parse_msg(payload_bytes(line, body)) == parse_line(split_ws(line), body),
{
    lemma_payload_cut(line, body);
    let p = payload_bytes(line, body);
    let lb = encode_utf8(line);
    let rest = p.subrange(lb.len() as int + 1, p.len() as int);
    match body {
        None => {
            assert(rest.len() == 0);
        },
        Some(b) => {
            assert(rest == b && rest.len() > 0 && json_ok(rest));
        },
    }
}

/// A start line with the wrong token count always fails with a
/// malformed-start-line error naming the expected and actual counts,
/// whatever those tokens hold.
pub proof fn lemma_wrong_token_count(line: Seq<char>, body: Option<Seq<u8>>)
    requires
        no_nl(line),
        body_wf(body),
        split_ws(line).len() != 4,
    ensures
        parse_msg(payload_bytes(line, body)) == Err::<MsgData, MessageError>(
            MessageError::MalformedStartLine {
                expected: 4,
                found: split_ws(line).len() as usize,
            },
        ),
{
    lemma_parse_payload(line, body);
}

/// Round-trip: a well-formed request's encoding parses back to exactly
/// that request, field for field, body included.
#[verifier::rlimit(100)]
pub proof fn lemma_request_round_trip(r: ReqData)
    requires
        req_wf(r),
    ensures
        parse_msg(req_payload(r)) == Ok::<MsgData, MessageError>(MsgData::Request(r)),
{
    let line = req_line_chars(r);
    let d = dec_chars(r.id);
    lemma_dec_chars_val(r.id);
    lemma_digits_ws_free(r.id);
    lemma_ws_free_no_nl(r.action);
    lemma_ws_free_no_nl(r.kind);
    lemma_ws_free_no_nl(r.protocol);
    lemma_ws_free_no_nl(r.version);
    assert(no_nl(seq![' ']) && no_nl(seq!['/']));
    lemma_no_nl_concat(d, seq![' ']);
    lemma_no_nl_concat(d + seq![' '], r.action);
    lemma_no_nl_concat(d + seq![' '] + r.action, seq![' ']);
    lemma_no_nl_concat(d + seq![' '] + r.action + seq![' '], r.kind);
    lemma_no_nl_concat(d + seq![' '] + r.action + seq![' '] + r.kind, seq![' ']);
    lemma_no_nl_concat(d + seq![' '] + r.action + seq![' '] + r.kind + seq![' '], r.protocol);
    lemma_no_nl_concat(
        d + seq![' '] + r.action + seq![' '] + r.kind + seq![' '] + r.protocol,
        seq!['/'],
    );
    lemma_no_nl_concat(
        d + seq![' '] + r.action + seq![' '] + r.kind + seq![' '] + r.protocol + seq!['/'],
        r.version,
    );
    assert(no_nl(line));
    lemma_parse_payload(line, r.body);
    lemma_req_tokens(r);
    let toks = split_ws(line);
    let t3 = r.protocol + seq!['/'] + r.version;
    assert(toks.len() == 4);
    assert(toks[0] == d && toks[1] == r.action && toks[2] == r.kind && toks[3] == t3);
    assert(toks[0] != proto_version_chars()) by {
        if d == proto_version_chars() {
            assert(d[0] == 'S');
            lemma_digit_not_special(d[0]);
        }
    }
    assert(parse_usize_spec(d) == Some(r.id)) by {
        lemma_digit_not_special(d[0]);
        assert(sign_stripped(d) == d);
    }
    assert(split_proto(t3) == (r.protocol, r.version)) by {
        assert(t3[r.protocol.len() as int] == '/');
        assert forall|j: int| 0 <= j < r.protocol.len() implies t3[j] != '/' by {
            assert(t3[j] == r.protocol[j]);
        }
        lemma_split_proto_at(t3, r.protocol.len() as int);
        assert(t3.subrange(0, r.protocol.len() as int) =~= r.protocol);
        assert(t3.subrange(r.protocol.len() as int + 1, t3.len() as int) =~= r.version);
    }
    assert(parse_line(toks, r.body) matches Ok(MsgData::Request(d2)) && d2 =~= r);
}

/// Round-trip: a well-formed response's encoding parses back to exactly
/// that response, field for field, body included.
/// A well-formed response's start line holds no newline.
proof fn lemma_resp_line_no_nl(r: RespData)
    requires
        resp_wf(r),
    ensures
        no_nl(resp_line_chars(r)),
{
    let t0 = r.protocol + seq!['/'] + r.version;
    lemma_dec_chars_val(r.id);
    lemma_digits_ws_free(r.id);
    lemma_dec_chars_val(r.code);
    lemma_digits_ws_free(r.code);
    lemma_ws_free_no_nl(r.text);
    assert(no_nl(t0)) by {
        assert(t0 =~= proto_version_chars());
        assert forall|i: int| 0 <= i < t0.len() implies #[trigger] t0[i] != '\n' by {
            assert(t0[i] == proto_version_chars()[i]);
        }
    }
    assert(no_nl(seq![' ']));
    lemma_no_nl_concat(t0, seq![' ']);
    lemma_no_nl_concat(t0 + seq![' '], dec_chars(r.id));
    lemma_no_nl_concat(t0 + seq![' '] + dec_chars(r.id), seq![' ']);
    lemma_no_nl_concat(t0 + seq![' '] + dec_chars(r.id) + seq![' '], dec_chars(r.code));
    lemma_no_nl_concat(
        t0 + seq![' '] + dec_chars(r.id) + seq![' '] + dec_chars(r.code),
        seq![' '],
    );
    lemma_no_nl_concat(
        t0 + seq![' '] + dec_chars(r.id) + seq![' '] + dec_chars(r.code) + seq![' '],
        r.text,
    );
}

#[verifier::rlimit(100)]
pub proof fn lemma_response_round_trip(r: RespData)
    requires
        resp_wf(r),
    ensures
        parse_msg(resp_payload(r)) == Ok::<MsgData, MessageError>(MsgData::Response(r)),
{
    let line = resp_line_chars(r);
    lemma_dec_chars_val(r.id);
    lemma_digits_ws_free(r.id);
    lemma_dec_chars_val(r.code);
    lemma_digits_ws_free(r.code);
    lemma_resp_line_no_nl(r);
    lemma_parse_payload(line, r.body);
    lemma_resp_tokens(r);
    let toks = split_ws(line);
    assert(toks.len() == 4);
    assert(toks[0] == proto_version_chars());
    assert(parse_usize_spec(dec_chars(r.id)) == Some(r.id)) by {
        lemma_digit_not_special(dec_chars(r.id)[0]);
        assert(sign_stripped(dec_chars(r.id)) == dec_chars(r.id));
    }
    assert(parse_usize_spec(dec_chars(r.code)) == Some(r.code)) by {
        lemma_digit_not_special(dec_chars(r.code)[0]);
        assert(sign_stripped(dec_chars(r.code)) == dec_chars(r.code));
    }
    assert(split_proto(proto_version_chars()) == (r.protocol, r.version)) by {
        let pv = proto_version_chars();
        assert(pv[4] == '/');
        assert(forall|j: int| 0 <= j < 4 ==> pv[j] != '/');
        lemma_split_proto_at(pv, 4);
        assert(pv.subrange(0, 4) =~= proto_name_chars());
        assert(pv.subrange(5, 8) =~= version_chars());
    }
    assert(parse_line(toks, r.body) matches Ok(MsgData::Response(d2)) && d2 =~= r);
}

} // verus!
