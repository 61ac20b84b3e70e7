use termide_logic::protocol::{decode_header, frame_message, JsonRpcNotification, JsonRpcRequest, RequestId};

#[test]
fn test_decode_header() {
    assert_eq!(decode_header("Content-Length: 42\r\n"), Some(42));
    assert_eq!(decode_header("Content-Length: 100"), Some(100));
    assert_eq!(decode_header("Invalid-Header: 42"), None);
}

#[test]
fn decode_header_first_match_decides() {
    assert_eq!(decode_header("Content-Type: x\r\nContent-Length:  7 \r\n"), Some(7));
    assert_eq!(decode_header("Content-Length: abc\r\nContent-Length: 5\r\n"), None);
    assert_eq!(decode_header("Content-Length: +5"), Some(5));
    assert_eq!(decode_header("Content-Length: -5"), None);
    assert_eq!(decode_header(""), None);
    assert_eq!(decode_header("Content-Length: 99999999999999999999999"), None);
}

#[test]
fn frame_message_counts_bytes() {
    let framed = frame_message("{\"a\":\"é\"}");
    assert_eq!(framed, "Content-Length: 10\r\n\r\n{\"a\":\"é\"}");
    assert_eq!(decode_header(&framed), Some(10));
    let content = "{\"jsonrpc\":\"2.0\",\"method\":\"test/method\"}";
    let framed = frame_message(content);
    assert!(framed.starts_with("Content-Length: "));
    assert!(framed.contains("\r\n\r\n"));
    assert_eq!(decode_header(&framed), Some(content.len()));
}

#[test]
fn constructors() {
    let req = JsonRpcRequest::new(RequestId::from(1u64), "initialize".to_string(), None);
    assert_eq!(req.jsonrpc, "2.0");
    assert_eq!(req.id, RequestId::Number(1));
    assert_eq!(req.method, "initialize");
    assert!(req.params.is_none());
    let n = JsonRpcNotification::new("initialized".to_string(), Some(serde_json::Value::Null));
    assert_eq!(n.jsonrpc, "2.0");
    assert_eq!(n.method, "initialized");
}
