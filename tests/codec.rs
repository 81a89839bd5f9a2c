use lsp_transport::codec::{
    check_body, classify_header_line, decode_frame, encode_frame, DecodeError, Frame, HeaderBlock,
    HeaderLine, HeaderStep,
};

#[test]
fn header_line_blank_ends_block() {
    assert_eq!(classify_header_line(b"\r\n"), HeaderLine::End);
}

#[test]
fn header_line_content_length() {
    assert_eq!(classify_header_line(b"Content-Length: 42\r\n"), HeaderLine::ContentLength(42));
    assert_eq!(classify_header_line(b"  Content-Length: 7  \n"), HeaderLine::ContentLength(7));
    assert_eq!(classify_header_line(b"Content-Length: +5\r\n"), HeaderLine::ContentLength(5));
}

#[test]
fn header_line_bad_length() {
    assert_eq!(classify_header_line(b"Content-Length: abc\r\n"), HeaderLine::InvalidLength);
    assert_eq!(classify_header_line(b"Content-Length:  \r\n"), HeaderLine::Stray);
    assert_eq!(classify_header_line(b"Content-Length: +\r\n"), HeaderLine::InvalidLength);
    assert_eq!(classify_header_line(b"Content-Length: -1\r\n"), HeaderLine::InvalidLength);
    assert_eq!(
        classify_header_line(b"Content-Length: 99999999999999999999999\r\n"),
        HeaderLine::InvalidLength
    );
}

#[test]
fn header_line_largest_length() {
    let line = format!("Content-Length: {}\r\n", usize::MAX);
    assert_eq!(classify_header_line(line.as_bytes()), HeaderLine::ContentLength(usize::MAX));
}

#[test]
fn header_line_other_and_stray() {
    assert_eq!(
        classify_header_line(b"Content-Type: application/vscode-jsonrpc\r\n"),
        HeaderLine::Other
    );
    assert_eq!(classify_header_line(b"starting server...\n"), HeaderLine::Stray);
    assert_eq!(classify_header_line(b"\n"), HeaderLine::Stray);
    assert_eq!(classify_header_line(b"content-length: 5\r\n"), HeaderLine::Other);
}

#[test]
fn header_block_later_length_wins() {
    let mut block = HeaderBlock::new();
    assert_eq!(block.feed(b"Content-Length: 3\r\n"), HeaderStep::NeedMore);
    assert_eq!(block.feed(b"garbage\n"), HeaderStep::NeedMore);
    assert_eq!(block.feed(b"Content-Length: 9\r\n"), HeaderStep::NeedMore);
    assert_eq!(block.feed(b"\r\n"), HeaderStep::Complete(9));
}

#[test]
fn header_block_missing_length() {
    let mut block = HeaderBlock::new();
    assert_eq!(block.feed(b"X: y\r\n"), HeaderStep::NeedMore);
    assert_eq!(block.feed(b"\r\n"), HeaderStep::Failed(DecodeError::MissingContentLength));
}

#[test]
fn header_block_invalid_length_fails_at_once() {
    let mut block = HeaderBlock::new();
    assert_eq!(
        block.feed(b"Content-Length: x\r\n"),
        HeaderStep::Failed(DecodeError::InvalidContentLength)
    );
}

#[test]
fn decode_five_byte_body() {
    let input = b"Content-Length: 5\r\n\r\n[1,2]";
    assert_eq!(decode_frame(input), Ok(Frame { start: 21, len: 5 }));
}

#[test]
fn decode_invalid_text_fails() {
    let input = b"Content-Length: 5\r\n\r\n\xff\xfe\xfd\xfc\xfb";
    assert_eq!(decode_frame(input), Err(DecodeError::InvalidUtf8));
}

#[test]
fn decode_stray_line_then_length() {
    let input = b"this is not a header\r\nContent-Length: 2\r\n\r\n{}";
    let frame = decode_frame(input).unwrap();
    assert_eq!(&input[frame.start..frame.start + frame.len], b"{}");
}

#[test]
fn decode_errors() {
    assert_eq!(decode_frame(b""), Err(DecodeError::StreamClosed));
    assert_eq!(decode_frame(b"Content-Length: 5\r\n"), Err(DecodeError::StreamClosed));
    assert_eq!(decode_frame(b"Content-Length: 5"), Err(DecodeError::StreamClosed));
    assert_eq!(decode_frame(b"Content-Length: z"), Err(DecodeError::InvalidContentLength));
    assert_eq!(decode_frame(b"Content-Length: 5\r\n\r\nabc"), Err(DecodeError::TruncatedBody));
    assert_eq!(decode_frame(b"A: b\r\n\r\n{}"), Err(DecodeError::MissingContentLength));
}

#[test]
fn decode_empty_body() {
    assert_eq!(decode_frame(b"Content-Length: 0\r\n\r\n"), Ok(Frame { start: 21, len: 0 }));
}

#[test]
fn encode_exact_bytes() {
    assert_eq!(encode_frame(b"[1,2]"), b"Content-Length: 5\r\n\r\n[1,2]".to_vec());
    assert_eq!(encode_frame(b""), b"Content-Length: 0\r\n\r\n".to_vec());
    let body = vec![b'x'; 1234];
    let frame = encode_frame(&body);
    assert!(frame.starts_with(b"Content-Length: 1234\r\n\r\nx"));
    assert_eq!(frame.len(), 24 + 1234);
}

#[test]
fn encode_then_decode() {
    let body = br#"{"jsonrpc":"2.0","id":1,"method":"textDocument/hover","params":{}}"#;
    let frame = encode_frame(body);
    let decoded = decode_frame(&frame).unwrap();
    assert_eq!(&frame[decoded.start..decoded.start + decoded.len], &body[..]);
}

#[test]
fn body_check() {
    assert_eq!(check_body("héllo".as_bytes()), Ok(()));
    assert_eq!(check_body(b"\xc3\x28"), Err(DecodeError::InvalidUtf8));
    assert!(DecodeError::InvalidUtf8.is_malformed());
    assert!(!DecodeError::StreamClosed.is_malformed());
}
