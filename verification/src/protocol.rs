//! JSON-RPC protocol pieces for LSP communication.
//!
//! LSP uses JSON-RPC 2.0 over stdin/stdout with Content-Length headers.
//! This module frames a serialized message with its header, reads the
//! header back, and holds the JSON-RPC message shapes.

use vstd::prelude::*;
use crate::text;
use crate::text::{
    chars_of, matches_at, next_line, parse_usize_chars, push_all, push_decimal, string_of_all,
    trim_bounds,
};

verus! {

/// `serde_json::Value`, an arbitrary JSON value carried through unchanged.
#[verifier::external_type_specification]
#[verifier::external_body]
pub struct ExJsonValue(serde_json::Value);

/// JSON-RPC request ID (can be number or string)
#[derive(Debug, Clone, PartialEq, Eq, Hash)]
pub enum RequestId {
    Number(u64),
    String(String),
}

impl From<u64> for RequestId {
    fn from(id: u64) -> (res: Self) {
        RequestId::Number(id)
    }
}

impl vstd::std_specs::convert::FromSpecImpl<u64> for RequestId {
    open spec fn obeys_from_spec() -> bool {
        true
    }

    open spec fn from_spec(id: u64) -> Self {
        RequestId::Number(id)
    }
}

/// JSON-RPC message (request, response, or notification)
pub enum JsonRpcMessage {
    Request(JsonRpcRequest),
    Response(JsonRpcResponse),
    Notification(JsonRpcNotification),
}

/// JSON-RPC request
pub struct JsonRpcRequest {
    pub jsonrpc: String,
    pub id: RequestId,
    pub method: String,
    pub params: Option<serde_json::Value>,
}

impl JsonRpcRequest {
    /// Create a new JSON-RPC request
    pub fn new(id: RequestId, method: String, params: Option<serde_json::Value>) -> (res: Self)
        ensures
            res.jsonrpc@ == "2.0"@,
            res.id == id,
            res.method@ == method@,
            res.params == params,
    {
        JsonRpcRequest { jsonrpc: String::from_str("2.0"), id, method, params }
    }
}

/// JSON-RPC response
pub struct JsonRpcResponse {
    pub jsonrpc: String,
    pub id: RequestId,
    pub result: Option<serde_json::Value>,
    pub error: Option<JsonRpcError>,
}

/// JSON-RPC error
pub struct JsonRpcError {
    pub code: i32,
    pub message: String,
    pub data: Option<serde_json::Value>,
}

/// JSON-RPC notification (no id, no response expected)
pub struct JsonRpcNotification {
    pub jsonrpc: String,
    pub method: String,
    pub params: Option<serde_json::Value>,
}

impl JsonRpcNotification {
    /// Create a new JSON-RPC notification
    pub fn new(method: String, params: Option<serde_json::Value>) -> (res: Self)
        ensures
            res.jsonrpc@ == "2.0"@,
            res.method@ == method@,
            res.params == params,
    {
        JsonRpcNotification { jsonrpc: String::from_str("2.0"), method, params }
    }
}

/// The number of bytes of the UTF-8 encoding of `s`.
pub open spec fn utf8_len(s: Seq<char>) -> nat {
    vstd::utf8::encode_utf8(s).len()
}

/// A message framed for LSP transport: its Content-Length header, a blank
/// line, then the content.
pub open spec fn framed_spec(content: Seq<char>) -> Seq<char> {
    "Content-Length: "@ + text::decimal_digits(utf8_len(content)) + "\r\n\r\n"@ + content
}

/// Frames serialized message content with its Content-Length header (the
/// length in bytes of the content's UTF-8 encoding).
pub fn frame_message(content: &str) -> (res: String)
    requires
        utf8_len(content@) <= usize::MAX,
    ensures
        res@ == framed_spec(content@),
{
    let n = content.len();
    let mut v = chars_of("Content-Length: ");
    push_decimal(&mut v, n as u64);
    push_all(&mut v, &chars_of("\r\n\r\n"));
    push_all(&mut v, &chars_of(content));
    proof {
        assert(n as nat == utf8_len(content@));
        assert(v@ =~= framed_spec(content@));
    }
    string_of_all(&v)
}

/// The value of the first `Content-Length: ` line among `lines`.
pub open spec fn content_length_in(lines: Seq<Seq<char>>) -> Option<usize>
    decreases lines.len(),
{
    if lines.len() == 0 {
        None
    } else {
        match text::strip_prefix(lines[0], "Content-Length: "@) {
            Some(value) => text::parse_usize(text::trim(value)),
            None => content_length_in(lines.drop_first()),
        }
    }
}

/// What `decode_header` reads from a header block.
pub open spec fn decode_header_spec(header: Seq<char>) -> Option<usize> {
    content_length_in(text::lines_of(header))
}

/// Parse Content-Length header and extract message content length: the
/// first line that starts with `Content-Length: ` decides, and its value must
/// be a decimal number once trimmed.
pub fn decode_header(header: &str) -> (res: Option<usize>)
    ensures
        res == decode_header_spec(header@),
{
    let v = chars_of(header);
    let prefix = chars_of("Content-Length: ");
    let mut pos: usize = 0;
    proof {
        assert(v@.subrange(0, v@.len() as int) =~= v@);
    }
    while pos < v.len()
        invariant
            pos <= v@.len(),
            decode_header_spec(header@) == content_length_in(
                text::lines_of(v@.subrange(pos as int, v@.len() as int)),
            ),
            v@ == header@,
            prefix@ == "Content-Length: "@,
        decreases v@.len() - pos,
    {
        let (end, next) = next_line(&v, pos);
        let ghost line = v@.subrange(pos as int, end as int);
        let ghost rest = text::lines_of(v@.subrange(next as int, v@.len() as int));
        proof {
            assert((seq![line] + rest)[0] == line);
            assert((seq![line] + rest).drop_first() =~= rest);
        }
        let plen = prefix.len();
        if plen <= end - pos && matches_at(&v, &prefix, pos) {
            let (a, b) = trim_bounds(&v, pos + plen, end);
            proof {
                assert(line.subrange(0, plen as int) =~= v@.subrange(pos as int, pos + plen));
                assert(line.subrange(plen as int, line.len() as int) =~= v@.subrange(
                    pos + plen,
                    end as int,
                ));
            }
            return parse_usize_chars(&v, a, b);
        }
        proof {
            if plen <= end - pos {
                assert(line.subrange(0, plen as int) =~= v@.subrange(pos as int, pos + plen));
            }
        }
        pos = next;
    }
    proof {
        assert(v@.subrange(pos as int, v@.len() as int) =~= Seq::<char>::empty());
    }
    None
}

/// What a frame's header says is what it was framed with: `decode_header`
/// reads back, from the start of a framed message, the byte length of its
/// content.
pub proof fn lemma_decode_framed(content: Seq<char>)
    requires
        utf8_len(content) <= usize::MAX,
    ensures
        decode_header_spec(framed_spec(content)) == Some(utf8_len(content) as usize),
{
    reveal_strlit("Content-Length: ");
    reveal_strlit("\r\n\r\n");
    let p = "Content-Length: "@;
    let n = utf8_len(content);
    let d = text::decimal_digits(n);
    let t = "\r\n\r\n"@;
    let s = framed_spec(content);
    text::lemma_decimal_digits_value(n);
    let k = (p.len() + d.len() + 1) as int;
    assert(s =~= p + d + t + content);
    assert forall|i: int| 0 <= i < k implies #[trigger] s[i] != '\n' by {
        if i < p.len() {
            assert(s[i] == p[i]);
        } else if i < p.len() + d.len() {
            assert(s[i] == d[i - p.len()]);
            assert(text::is_digit(d[i - p.len()]));
        } else {
            assert(s[i] == t[0]);
        }
    }
    assert(s[k] == t[1]);
    text::lemma_newline_index_at(s, k);
    let line = s.subrange(0, k);
    assert(line.last() == '\r');
    assert(text::strip_cr(line) =~= p + d);
    let first = text::strip_cr(line);
    assert(text::lines_of(s)[0] == first);
    assert(first.subrange(0, p.len() as int) =~= p);
    assert(first.subrange(p.len() as int, first.len() as int) =~= d);
    assert forall|i: int| 0 <= i < d.len() implies !text::is_ws(#[trigger] d[i]) by {
        assert(text::is_digit(d[i]));
    }
    text::lemma_trim_no_ws(d);
    text::lemma_parse_usize_decimal_digits(n as usize);
}

} // verus!
