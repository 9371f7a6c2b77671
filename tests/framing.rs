use ra_bridge::framing::{encode_message, extract_message, extract_message_at_eof, FramingError, MessageFraming};

#[test]
fn test_extract_ndjson_message() {
    let mut buffer = br#"{"jsonrpc":"2.0","id":1}"#.to_vec();
    buffer.push(b'\n');

    let message = extract_message(&mut buffer)
        .expect("parse failed")
        .expect("message missing");

    assert_eq!(message.1, MessageFraming::JsonLine);
    assert_eq!(message.0, r#"{"jsonrpc":"2.0","id":1}"#);
    assert!(buffer.is_empty());
}

#[test]
fn test_extract_content_length_message() {
    let body = r#"{"jsonrpc":"2.0","id":1}"#;
    let frame = format!("Content-Length: {}\r\n\r\n{}", body.len(), body);
    let mut buffer = frame.into_bytes();

    let message = extract_message(&mut buffer)
        .expect("parse failed")
        .expect("message missing");

    assert_eq!(message.1, MessageFraming::ContentLength);
    assert_eq!(message.0, body);
    assert!(buffer.is_empty());
}

#[test]
fn test_extract_multiple_content_length_messages() {
    let first = r#"{"id":1}"#;
    let second = r#"{"id":2}"#;
    let frame = format!(
        "Content-Length: {}\r\n\r\n{}Content-Length: {}\r\n\r\n{}",
        first.len(),
        first,
        second.len(),
        second
    );
    let mut buffer = frame.into_bytes();

    let first_message = extract_message(&mut buffer)
        .expect("first parse failed")
        .expect("first message missing");
    let second_message = extract_message(&mut buffer)
        .expect("second parse failed")
        .expect("second message missing");

    assert_eq!(first_message.0, first);
    assert_eq!(second_message.0, second);
    assert!(buffer.is_empty());
}

#[test]
fn test_extract_message_at_eof_for_ndjson_without_newline() {
    let mut buffer = br#"{"jsonrpc":"2.0","id":42}"#.to_vec();
    let message = extract_message_at_eof(&mut buffer)
        .expect("parse failed")
        .expect("message missing");

    assert_eq!(message.1, MessageFraming::JsonLine);
    assert_eq!(message.0, r#"{"jsonrpc":"2.0","id":42}"#);
    assert!(buffer.is_empty());
}

#[test]
fn test_extract_message_returns_none_for_partial_content_length() {
    let body = r#"{"jsonrpc":"2.0","id":1}"#;
    let frame = format!("Content-Length: {}\r\n\r\n{}", body.len() + 10, body);
    let mut buffer = frame.into_bytes();

    let message = extract_message(&mut buffer).expect("parse failed");
    assert!(message.is_none());
}

#[test]
fn split_frame_is_incomplete_until_last_byte() {
    let body = "{\"id\":3,\"text\":\"h\u{e9}llo\"}";
    let frame = encode_message(body, MessageFraming::ContentLength);
    for cut in 0..frame.len() {
        let mut partial = frame[..cut].to_vec();
        let result = extract_message(&mut partial).expect("prefix must not fail");
        assert!(result.is_none(), "prefix of {} bytes", cut);
        assert_eq!(partial, frame[..cut].to_vec());
    }
    let mut whole = frame.clone();
    let message = extract_message(&mut whole).unwrap().unwrap();
    assert_eq!(message, (body.to_string(), MessageFraming::ContentLength));
    assert!(whole.is_empty());
}

#[test]
fn truncated_frame_at_eof_is_an_error() {
    let mut buffer = b"Content-Length: 50\r\n\r\n{\"id\":1}".to_vec();
    assert_eq!(extract_message_at_eof(&mut buffer), Err(FramingError::UnexpectedEof));
}

#[test]
fn blank_lines_are_skipped_and_crlf_stripped() {
    let mut buffer = b"\n\r\n  {\"a\":1}  \r\nrest".to_vec();
    let message = extract_message(&mut buffer).unwrap().unwrap();
    assert_eq!(message.0, "{\"a\":1}");
    assert_eq!(buffer, b"rest".to_vec());
}

#[test]
fn lowercase_header_and_lf_terminator() {
    let mut buffer = b"content-length: 2\n\n{}".to_vec();
    let message = extract_message(&mut buffer).unwrap().unwrap();
    assert_eq!(message, ("{}".to_string(), MessageFraming::ContentLength));
}

#[test]
fn header_errors() {
    let mut missing = b"Content-Length: \xff\r\nOther: 1\r\n\r\n{}".to_vec();
    assert_eq!(extract_message(&mut missing), Err(FramingError::MissingContentLength));
    let mut invalid = b"Content-Length: two\r\n\r\n{}".to_vec();
    assert_eq!(extract_message(&mut invalid), Err(FramingError::InvalidContentLength));
    let mut bad_body = b"Content-Length: 1\r\n\r\n\xff".to_vec();
    assert_eq!(extract_message(&mut bad_body), Err(FramingError::InvalidUtf8));
    let mut bad_line = b"\xfe\n".to_vec();
    assert_eq!(extract_message(&mut bad_line), Err(FramingError::InvalidUtf8));
}

#[test]
fn eof_on_empty_or_blank_buffer_ends_cleanly() {
    let mut empty: Vec<u8> = Vec::new();
    assert_eq!(extract_message_at_eof(&mut empty), Ok(None));
    let mut blank = b" \r\n\t".to_vec();
    assert_eq!(extract_message_at_eof(&mut blank), Ok(None));
}

#[test]
fn encode_both_framings() {
    assert_eq!(encode_message("{}", MessageFraming::JsonLine), b"{}\n".to_vec());
    assert_eq!(
        encode_message("{\"id\":12}", MessageFraming::ContentLength),
        b"Content-Length: 9\r\n\r\n{\"id\":12}".to_vec()
    );
}

#[test]
fn first_blank_line_ends_the_header() {
    let mut buffer = b"Content-Length: 2\n\n{}Content-Length: 2\r\n\r\n[]".to_vec();
    let message = extract_message(&mut buffer).unwrap().unwrap();
    assert_eq!(message, ("{}".to_string(), MessageFraming::ContentLength));
    assert_eq!(buffer, b"Content-Length: 2\r\n\r\n[]".to_vec());
    let second = extract_message(&mut buffer).unwrap().unwrap();
    assert_eq!(second.0, "[]");
    assert!(buffer.is_empty());
}

#[test]
fn lf_framed_body_may_hold_crlf_blank_line() {
    let mut buffer = b"content-length: 6\n\na\r\n\r\nb".to_vec();
    let message = extract_message(&mut buffer).unwrap().unwrap();
    assert_eq!(message.0, "a\r\n\r\nb");
    assert!(buffer.is_empty());
}
