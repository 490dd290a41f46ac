use lsp_dispatch::framing::{decode_frame, encode_frame, encode_message, DecodeResult, FrameError};
use lsp_dispatch::message::{classify_body, read_message, ReadOutcome};
use lsp_dispatch::types::ServerMessage;

fn decoded_frame(wire: &Vec<u8>) -> (Vec<u8>, usize) {
    match decode_frame(wire) {
        DecodeResult::Frame(body, used) => (body, used),
        _ => panic!("expected a complete frame"),
    }
}

#[test]
fn encode_then_decode_reproduces_the_body() {
    let body: Vec<u8> = br#"{"jsonrpc":"2.0","id":7,"result":5}"#.to_vec();
    let wire = encode_frame(&body);
    let (decoded, used) = decoded_frame(&wire);
    assert_eq!(decoded, body);
    assert_eq!(used, wire.len());
}

#[test]
fn encode_message_counts_utf8_bytes() {
    let wire = encode_message("{\"a\":\"é\"}");
    let text = String::from_utf8(wire.clone()).unwrap();
    assert!(text.starts_with("Content-Length: 10\r\n\r\n"));
    let (decoded, used) = decoded_frame(&wire);
    assert_eq!(decoded, "{\"a\":\"é\"}".as_bytes().to_vec());
    assert_eq!(used, wire.len());
}

#[test]
fn decode_leaves_trailing_bytes_for_the_next_frame() {
    let mut wire = encode_frame(&b"one".to_vec());
    let second = encode_frame(&b"two!".to_vec());
    wire.extend_from_slice(&second);
    let (decoded, used) = decoded_frame(&wire);
    assert_eq!(decoded, b"one".to_vec());
    let rest: Vec<u8> = wire[used..].to_vec();
    let (decoded2, used2) = decoded_frame(&rest);
    assert_eq!(decoded2, b"two!".to_vec());
    assert_eq!(used2, rest.len());
}

#[test]
fn overlong_content_length_is_never_parsed() {
    let wire = b"Content-Length: 10\r\n\r\nabc".to_vec();
    assert!(matches!(decode_frame(&wire), DecodeResult::Incomplete));
    assert!(matches!(read_message(&wire), ReadOutcome::Incomplete));
}

#[test]
fn lf_only_headers_are_accepted() {
    let wire = b"Content-Length: 3\n\nabc".to_vec();
    let (decoded, used) = decoded_frame(&wire);
    assert_eq!(decoded, b"abc".to_vec());
    assert_eq!(used, wire.len());
}

#[test]
fn last_content_length_wins() {
    let wire = b"Content-Length: 3\r\nContent-Length: 2\r\n\r\nab".to_vec();
    let (decoded, _) = decoded_frame(&wire);
    assert_eq!(decoded, b"ab".to_vec());
}

#[test]
fn other_headers_are_ignored() {
    let wire = b"Content-Type: application/json\r\nContent-Length: 2\r\n\r\nok".to_vec();
    let (decoded, _) = decoded_frame(&wire);
    assert_eq!(decoded, b"ok".to_vec());
}

#[test]
fn missing_content_length_is_fatal() {
    let wire = b"Content-Type: application/json\r\n\r\n".to_vec();
    assert!(matches!(
        decode_frame(&wire),
        DecodeResult::Bad(FrameError::MissingLength)
    ));
}

#[test]
fn header_without_separator_is_fatal() {
    let wire = b"NoSeparatorHere\r\n\r\n".to_vec();
    assert!(matches!(
        decode_frame(&wire),
        DecodeResult::Bad(FrameError::BadHeader)
    ));
}

#[test]
fn unparsable_content_length_is_fatal() {
    let wire = b"Content-Length: 12x\r\n\r\n".to_vec();
    assert!(matches!(
        decode_frame(&wire),
        DecodeResult::Bad(FrameError::BadLength)
    ));
}

#[test]
fn truncated_headers_ask_for_more_bytes() {
    let wire = b"Content-Length: 3\r\n".to_vec();
    assert!(matches!(decode_frame(&wire), DecodeResult::Incomplete));
}

#[test]
fn invalid_utf8_body_breaks_the_stream() {
    let mut wire = b"Content-Length: 1\r\n\r\n".to_vec();
    wire.push(0xFF);
    assert!(matches!(
        read_message(&wire),
        ReadOutcome::Broken(FrameError::BadUtf8)
    ));
}

#[test]
fn undecodable_body_breaks_the_stream() {
    let wire = encode_message("this is not json-rpc at all");
    assert!(matches!(
        read_message(&wire),
        ReadOutcome::Broken(FrameError::BadJson)
    ));
}

#[test]
fn a_response_is_classified_with_its_numeric_id() {
    let msg = classify_body(r#"{"jsonrpc":"2.0","id":7,"result":{"x":1}}"#.to_string()).unwrap();
    match msg {
        ServerMessage::Response { id, payload } => {
            assert_eq!(id, Some(7));
            assert!(payload.contains("result"));
        }
        _ => panic!("expected a response"),
    }
}

#[test]
fn a_string_id_response_has_no_numeric_id() {
    let msg = classify_body(r#"{"jsonrpc":"2.0","id":"abc","error":{"code":1,"message":"m"}}"#.to_string())
        .unwrap();
    assert!(matches!(msg, ServerMessage::Response { id: None, .. }));
}

#[test]
fn a_call_is_classified_as_a_request() {
    let msg =
        classify_body(r#"{"jsonrpc":"2.0","method":"initialized","params":{}}"#.to_string()).unwrap();
    assert!(matches!(msg, ServerMessage::Request { .. }));
}

#[test]
fn a_full_framed_response_reads_as_one_message() {
    let wire = encode_message(r#"{"jsonrpc":"2.0","id":42,"result":null}"#);
    match read_message(&wire) {
        ReadOutcome::Message(ServerMessage::Response { id, .. }, used) => {
            assert_eq!(id, Some(42));
            assert_eq!(used, wire.len());
        }
        _ => panic!("expected a framed response"),
    }
}
