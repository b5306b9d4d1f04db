use reqparse::response::get_default_headers;
use reqparse::response::write_headers;
use reqparse::response::write_status_line;
use reqparse::response::StatusCode;

#[test]
fn test_status_line_bytes() {
    let mut out: Vec<u8> = Vec::new();
    write_status_line(&mut out, StatusCode::OK);
    assert_eq!(out, b"HTTP/1.1 200 Ok\r\n".to_vec());

    let mut out: Vec<u8> = Vec::new();
    write_status_line(&mut out, StatusCode::BadRequest);
    assert_eq!(out, b"HTTP/1.1 400 Bad Request\r\n".to_vec());

    let mut out: Vec<u8> = Vec::new();
    write_status_line(&mut out, StatusCode::InternalServerError);
    assert_eq!(out, b"HTTP/1.1 500 Internal Server Error\r\n".to_vec());
}

#[test]
fn test_status_codes() {
    assert_eq!(StatusCode::OK.code(), 200);
    assert_eq!(StatusCode::BadRequest.code(), 400);
    assert_eq!(StatusCode::InternalServerError.code(), 500);
}

#[test]
fn test_default_headers_contents() {
    let headers = get_default_headers(42);
    assert_eq!(headers.len(), 3);
    assert_eq!(headers.get("content-length"), Some(&"42".to_string()));
    assert_eq!(headers.get("connection"), Some(&"close".to_string()));
    assert_eq!(headers.get("content-type"), Some(&"text/plain".to_string()));

    let zero = get_default_headers(0);
    assert_eq!(zero.get("content-length"), Some(&"0".to_string()));

    let big = get_default_headers(123456789);
    assert_eq!(big.get("content-length"), Some(&"123456789".to_string()));
}

#[test]
fn test_write_headers_block() {
    let headers = get_default_headers(13);
    let mut out: Vec<u8> = Vec::new();
    write_headers(&mut out, &headers);
    let expected = "content-length: 13\r\nconnection: close\r\ncontent-type: text/plain\r\n\r\n";
    assert_eq!(out, expected.as_bytes().to_vec());
}

#[test]
fn test_status_line_then_headers_roundtrip() {
    // What the response writer emits is itself a parseable header block:
    // feed the header bytes back through the header parser.
    let headers = get_default_headers(7);
    let mut out: Vec<u8> = Vec::new();
    write_headers(&mut out, &headers);

    let mut parsed = reqparse::headers::Headers::new();
    let mut offset = 0usize;
    loop {
        let (n, done) = parsed.parse(&out[offset..]).expect("own output must parse");
        offset += n;
        if done {
            break;
        }
        assert!(n > 0);
    }
    assert_eq!(offset, out.len());
    assert_eq!(parsed.len(), 3);
    assert_eq!(parsed.get("content-length"), Some(&"7".to_string()));
    assert_eq!(parsed.get("connection"), Some(&"close".to_string()));
    assert_eq!(parsed.get("content-type"), Some(&"text/plain".to_string()));
}
