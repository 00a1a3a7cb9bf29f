use symposium_rust_analyzer::framing::encode_frame;
use symposium_rust_analyzer::protocol::{
    decode_inbound, encode_notification, encode_request, LspMessage, LspNotification,
};

#[test]
fn request_envelope_bytes() {
    let frame = encode_request(1, "initialize", b"{}");
    let body = br#"{"id":1,"jsonrpc":"2.0","method":"initialize","params":{}}"#;
    assert_eq!(frame, encode_frame(body));
    let text = String::from_utf8(frame).unwrap();
    assert!(text.starts_with("Content-Length: 58\r\n\r\n"));
}

#[test]
fn method_name_is_quoted() {
    let frame = encode_request(18446744073709551615, "a\"b", b"null");
    let body = br#"{"id":18446744073709551615,"jsonrpc":"2.0","method":"a\"b","params":null}"#;
    assert_eq!(frame, encode_frame(body));
}

#[test]
fn notification_envelope_bytes() {
    assert_eq!(
        encode_notification("initialized", Some(b"{}")),
        encode_frame(br#"{"jsonrpc":"2.0","method":"initialized","params":{}}"#)
    );
    assert_eq!(
        encode_notification("exit", None),
        encode_frame(br#"{"jsonrpc":"2.0","method":"exit"}"#)
    );
}

#[test]
fn queued_messages_become_frames() {
    let request = LspMessage::Request {
        id: 5,
        method: "shutdown".to_string(),
        params: b"null".to_vec(),
    };
    assert_eq!(request.to_frame(), encode_request(5, "shutdown", b"null"));
    let note = LspMessage::Notification(LspNotification {
        method: "exit".to_string(),
        params: None,
    });
    assert_eq!(note.to_frame(), encode_notification("exit", None));
}

#[test]
fn inbound_members_are_read() {
    let m = decode_inbound(br#"{"jsonrpc":"2.0","id":3,"result":{"a":1}}"#).unwrap();
    assert_eq!(m.id, Some(3));
    assert_eq!(m.result, Some(serde_json::from_str(r#"{"a":1}"#).unwrap()));
    assert_eq!(m.error, None);

    let m = decode_inbound(br#"{"id":4,"error":{"code":-32601}}"#).unwrap();
    assert_eq!(m.id, Some(4));
    assert_eq!(m.result, None);
    assert_eq!(m.error, Some(serde_json::from_str(r#"{"code":-32601}"#).unwrap()));

    let m = decode_inbound(br#"{"method":"window/logMessage","params":{}}"#).unwrap();
    assert_eq!(m.id, None);

    let m = decode_inbound(br#"{"id":"abc","result":null}"#).unwrap();
    assert_eq!(m.id, None);
    assert_eq!(m.result, Some(serde_json::Value::Null));
}

#[test]
fn malformed_payload_is_dropped() {
    assert!(decode_inbound(b"{not json").is_none());
    assert!(decode_inbound(b"").is_none());
}

#[test]
fn members_present_exactly_when_sent() {
    let m = decode_inbound(br#"{"id":9,"result":null,"error":null}"#).unwrap();
    assert_eq!(m.id, Some(9));
    assert_eq!(m.result, Some(serde_json::Value::Null));
    assert_eq!(m.error, Some(serde_json::Value::Null));
    let m = decode_inbound(br#"[1,2]"#).unwrap();
    assert_eq!(m.id, None);
    assert_eq!(m.result, None);
    assert_eq!(m.error, None);
    let m = decode_inbound(br#"{"id":-1}"#).unwrap();
    assert_eq!(m.id, None);
}
