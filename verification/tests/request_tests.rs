use reqparse::errors::RequestError;
use reqparse::request::request_from_reader;
use reqparse::request::ChunkReader;
use reqparse::request::ParseState;
use reqparse::request::Request;

#[test]
fn test_good_get_request_line() {
    let input = "\
    GET / HTTP/1.1\r\n\
    Host: localhost:42069\r\n\
    User-Agent: curl/7.81.0\r\n\
    Accept: */*\r\n\
    \r\n";

    let chunk_reader = ChunkReader {
        data: input.as_bytes().to_vec(),
        num_bytes_per_read: 3,
        pos: 0,
    };

    let r = request_from_reader(chunk_reader).expect("Expected no error for valid GET request");
    let request_line = r.request_line.unwrap();
    assert_eq!(request_line.method, "GET");
    assert_eq!(request_line.request_target, "/");
    assert_eq!(request_line.http_version, "1.1");
}

#[test]
fn test_good_get_request_line_with_path() {
    let input = "\
    GET /coffee HTTP/1.1\r\n\
    Host: localhost:42069\r\n\
    User-Agent: curl/7.81.0\r\n\
    Accept: */*\r\n\
    \r\n";

    let chunk_reader = ChunkReader {
        data: input.as_bytes().to_vec(),
        num_bytes_per_read: 4,
        pos: 0,
    };

    let r = request_from_reader(chunk_reader).expect("Expected no error for GET /coffee");
    let request_line = r.request_line.unwrap();
    assert_eq!(request_line.method, "GET");
    assert_eq!(request_line.request_target, "/coffee");
    assert_eq!(request_line.http_version, "1.1");
}

#[test]
fn test_invalid_request_line_not_enough_parts() {
    let input = "\
    /coffee HTTP/1.1\r\n\
    Host: localhost:42069\r\n\
    User-Agent: curl/7.81.0\r\n\
    Accept: */*\r\n\
    \r\n";

    let chunk_reader = ChunkReader {
        data: input.as_bytes().to_vec(),
        num_bytes_per_read: 8,
        pos: 0,
    };

    let err = request_from_reader(chunk_reader).unwrap_err();

    assert!(matches!(err, RequestError::InvalidRequestLine));
}

#[test]
fn test_every_chunk_size_parses_identically() {
    // One logical message, split across every read size from 1 byte up to
    // the whole message, must parse to the identical request.
    let input = "GET /coffee HTTP/1.1\r\nHost: localhost:42069\r\n\r\n";
    for size in 1..=input.len() {
        let reader = ChunkReader {
            data: input.as_bytes().to_vec(),
            num_bytes_per_read: size,
            pos: 0,
        };
        let r = request_from_reader(reader)
            .unwrap_or_else(|_| panic!("chunk size {} failed", size));
        let request_line = r.request_line.unwrap();
        assert_eq!(request_line.method, "GET");
        assert_eq!(request_line.request_target, "/coffee");
        assert_eq!(request_line.http_version, "1.1");
        assert_eq!(r.headers.get("host").map(|s| s.as_str()), Some("localhost:42069"));
    }
}

#[test]
fn test_consumed_total_reaches_end_of_blank_line() {
    // Driving the parser by hand: the bytes consumed across all attempts
    // must add up to the offset one past the terminating blank line.
    let head = "GET / HTTP/1.1\r\nHost: localhost:42069\r\nAccept: */*\r\n\r\n";
    let trailing = "leftover body bytes";
    let input = format!("{}{}", head, trailing);
    let data = input.as_bytes();

    let mut request = Request::new();
    let mut offset = 0usize;
    loop {
        if matches!(request.state, ParseState::Done) {
            break;
        }
        let consumed = request.parse(&data[offset..]).expect("no error in valid message");
        assert!(consumed > 0, "a full message must keep the parser moving");
        offset += consumed;
    }
    assert_eq!(offset, head.len());
}

#[test]
fn test_insufficient_data_consumes_nothing() {
    // A buffer without a CRLF is not an error and consumes nothing, and
    // the session keeps awaiting input.
    let mut request = Request::new();
    let consumed = request.parse(b"GET / HT").expect("incomplete data is no error");
    assert_eq!(consumed, 0);
    assert!(matches!(request.state, ParseState::AwaitingRequestLine));

    // The same holds in the header phase.
    let n = request.parse(b"GET / HTTP/1.1\r\n").unwrap();
    assert_eq!(n, 16);
    assert!(matches!(request.state, ParseState::AwaitingHeaders));
    let consumed = request.parse(b"Host: localhost:42069").expect("incomplete header is no error");
    assert_eq!(consumed, 0);
    assert!(matches!(request.state, ParseState::AwaitingHeaders));
}

#[test]
fn test_parse_after_done_is_rejected() {
    let mut request = Request::new();
    assert!(request.parse(b"GET / HTTP/1.1\r\n").is_ok());
    assert!(request.parse(b"\r\n").is_ok());
    assert!(matches!(request.state, ParseState::Done));
    let err = request.parse(b"GET / HTTP/1.1\r\n").unwrap_err();
    assert!(matches!(err, RequestError::DoneState));
}

#[test]
fn test_empty_stream() {
    let reader = ChunkReader {
        data: Vec::new(),
        num_bytes_per_read: 1,
        pos: 0,
    };
    let err = request_from_reader(reader).unwrap_err();
    assert!(matches!(err, RequestError::InvalidRequest));
}

#[test]
fn test_end_of_stream_before_any_crlf() {
    let reader = ChunkReader {
        data: b"GET / HTTP".to_vec(),
        num_bytes_per_read: 4,
        pos: 0,
    };
    let err = request_from_reader(reader).unwrap_err();
    assert!(matches!(err, RequestError::InvalidRequest));
}

#[test]
fn test_end_of_stream_before_blank_line() {
    let reader = ChunkReader {
        data: b"GET / HTTP/1.1\r\nHost: localhost:42069\r\n".to_vec(),
        num_bytes_per_read: 8,
        pos: 0,
    };
    let err = request_from_reader(reader).unwrap_err();
    assert!(matches!(err, RequestError::InvalidRequest));
}

#[test]
fn test_invalid_method_character() {
    let reader = ChunkReader {
        data: b"G3T / HTTP/1.1\r\n\r\n".to_vec(),
        num_bytes_per_read: 5,
        pos: 0,
    };
    let err = request_from_reader(reader).unwrap_err();
    assert!(matches!(err, RequestError::InvalidRequestMethod));
}

#[test]
fn test_invalid_target_without_slash() {
    let reader = ChunkReader {
        data: b"GET coffee HTTP/1.1\r\n\r\n".to_vec(),
        num_bytes_per_read: 5,
        pos: 0,
    };
    let err = request_from_reader(reader).unwrap_err();
    assert!(matches!(err, RequestError::InvalidRequestTarget));
}

#[test]
fn test_invalid_http_version() {
    let reader = ChunkReader {
        data: b"GET / HTTP/1.2\r\n\r\n".to_vec(),
        num_bytes_per_read: 5,
        pos: 0,
    };
    let err = request_from_reader(reader).unwrap_err();
    assert!(matches!(err, RequestError::InvalidRequestHttpVersion));
}

#[test]
fn test_version_token_is_lenient() {
    // The version check looks only at the final `/`-segment, so a bare
    // `1.1` passes too.
    let reader = ChunkReader {
        data: b"GET / 1.1\r\n\r\n".to_vec(),
        num_bytes_per_read: 3,
        pos: 0,
    };
    let r = request_from_reader(reader).expect("bare 1.1 version is accepted");
    assert_eq!(r.request_line.unwrap().http_version, "1.1");
}

#[test]
fn test_extra_request_line_tokens_are_ignored() {
    let reader = ChunkReader {
        data: b"GET / HTTP/1.1 extra tokens here\r\n\r\n".to_vec(),
        num_bytes_per_read: 7,
        pos: 0,
    };
    let r = request_from_reader(reader).expect("extra tokens are accepted");
    let request_line = r.request_line.unwrap();
    assert_eq!(request_line.method, "GET");
    assert_eq!(request_line.request_target, "/");
}

#[test]
fn test_blank_line_instead_of_request_line() {
    let reader = ChunkReader {
        data: b"\r\nGET / HTTP/1.1\r\n\r\n".to_vec(),
        num_bytes_per_read: 6,
        pos: 0,
    };
    let err = request_from_reader(reader).unwrap_err();
    assert!(matches!(err, RequestError::InvalidRequestLine));
}

#[test]
fn test_multiple_logical_units_in_one_read() {
    // The whole message arrives in a single read; the driver must drain
    // it without waiting for more input.
    let input = "GET / HTTP/1.1\r\nHost: localhost:42069\r\n\r\n";
    let reader = ChunkReader {
        data: input.as_bytes().to_vec(),
        num_bytes_per_read: input.len(),
        pos: 0,
    };
    let r = request_from_reader(reader).expect("single-read message parses");
    assert!(matches!(r.state, ParseState::Done));
    assert_eq!(r.headers.get("host").map(|s| s.as_str()), Some("localhost:42069"));
}
