use reqparse::headers::Headers;

#[test]
fn test_valid_single_header() {
    let mut headers = Headers::new();
    let data = b"Host: localhost:42069\r\n\r\n";
    let result = headers.parse(data);

    assert!(result.is_ok(), "expected no error for valid header");
    let (n, done) = result.unwrap();

    assert_eq!(headers.get("Host").map(|s| s.as_str()), Some("localhost:42069"));
    assert_eq!(n, 23);
    assert!(!done);
}

#[test]
fn test_valid_single_header_with_extra_whitespace() {
    let mut headers = Headers::new();
    // Extra leading and trailing whitespace in the value
    let data = b"Host:    localhost:42069    \r\n\r\n";
    let result = headers.parse(data);

    assert!(result.is_ok(), "expected no error with extra whitespace");
    let (n, done) = result.unwrap();

    // Value should be trimmed
    assert_eq!(headers.get("Host").map(|s| s.as_str()), Some("localhost:42069"));
    assert_eq!(n, 30);
    assert!(!done);
}

#[test]
fn test_valid_single_header_with_leading_whitespace_on_key() {
    let mut headers = Headers::new();
    // Leading whitespace before key is valid
    let data = b"          Host: localhost:42069    \r\n\r\n";
    let result = headers.parse(data);

    assert!(result.is_ok(), "expected no error with leading whitespace on key");
    let (n, done) = result.unwrap();

    assert_eq!(headers.get("Host").map(|s| s.as_str()), Some("localhost:42069"));
    assert_eq!(n, 37);
    assert!(!done);
}

#[test]
fn test_valid_2_headers_with_existing_headers() {
    let mut headers = Headers::new();

    // Parse first header
    let data1 = b"Host: localhost:42069\r\n";
    let result1 = headers.parse(data1);
    assert!(result1.is_ok());
    let (n1, done1) = result1.unwrap();
    assert_eq!(n1, 23);
    assert!(!done1);
    assert_eq!(headers.get("Host").map(|s| s.as_str()), Some("localhost:42069"));

    // Parse second header (headers already exist from first parse)
    let data2 = b"Content-Type: application/json\r\n";
    let result2 = headers.parse(data2);
    assert!(result2.is_ok());
    let (n2, done2) = result2.unwrap();
    assert_eq!(n2, 32);
    assert!(!done2);

    // Both headers should be present
    assert_eq!(headers.get("Host").map(|s| s.as_str()), Some("localhost:42069"));
    assert_eq!(headers.get("Content-Type").map(|s| s.as_str()), Some("application/json"));
    assert_eq!(headers.len(), 2);
}

#[test]
fn test_valid_done() {
    let mut headers = Headers::new();

    // Parse a header first
    let data1 = b"Host: localhost:42069\r\n";
    let result1 = headers.parse(data1);
    assert!(result1.is_ok());
    let (n1, done1) = result1.unwrap();
    assert_eq!(n1, 23);
    assert!(!done1);

    // Now parse the empty line (end of headers)
    let data2 = b"\r\n";
    let result2 = headers.parse(data2);
    assert!(result2.is_ok());
    let (n2, done2) = result2.unwrap();
    assert_eq!(n2, 2); // Consumed 2 bytes (\r\n)
    assert!(done2); // Should signal done=true

    // Header should still be present
    assert_eq!(headers.get("Host").map(|s| s.as_str()), Some("localhost:42069"));
}

#[test]
fn test_invalid_spacing_header() {
    let mut headers = Headers::new();
    // Space before colon is invalid
    let data = b"       Host : localhost:42069       \r\n\r\n";
    let result = headers.parse(data);

    assert!(result.is_err(), "expected error due to invalid spacing");
    assert!(headers.is_empty());
}

#[test]
fn test_not_enough_data() {
    let mut headers = Headers::new();
    // No CRLF present, so not enough data
    let data = b"Host: localhost:42069";
    let result = headers.parse(data);

    assert!(result.is_ok());
    let (n, done) = result.unwrap();
    assert_eq!(n, 0); // No bytes consumed
    assert!(!done); // Not done
    assert!(headers.is_empty()); // Nothing parsed yet
}

#[test]
fn test_case_insensitive_headers() {
    let mut headers = Headers::new();
    let data = b"Content-Length: 42\r\n\r\n";
    let result = headers.parse(data);

    assert!(result.is_ok());
    // Should be stored as lowercase
    assert_eq!(headers.get("content-length"), Some(&"42".to_string()));
}

#[test]
fn test_mixed_case_headers() {
    let mut headers = Headers::new();
    let data = b"CoNtEnT-TyPe: application/json\r\n\r\n";
    let result = headers.parse(data);

    assert!(result.is_ok());
    // Should be stored as lowercase
    assert_eq!(headers.get("content-type"), Some(&"application/json".to_string()));
}

#[test]
fn test_invalid_character_in_key() {
    let mut headers = Headers::new();
    // © is an invalid character in header names
    let data = b"H\xc2\xa9st: localhost:42069\r\n\r\n"; // H©st in UTF-8
    let result = headers.parse(data);

    assert!(result.is_err(), "expected error for invalid character in header key");
}

#[test]
fn test_duplicate_header_combining() {
    let mut headers = Headers::new();

    // Parse the first header (Set-Cookie: session_id=abc)
    let data1 = b"Set-Cookie: session_id=abc\r\n";
    let result1 = headers.parse(data1);
    assert!(result1.is_ok());

    // Parse the second header (Set-Cookie: expires=never)
    let data2 = b"Set-Cookie: expires=never\r\n";
    let result2 = headers.parse(data2);
    assert!(result2.is_ok());

    // Assert that there is only ONE entry in the map
    assert_eq!(headers.len(), 1);

    // Assert that the value is correctly combined with ", "
    assert_eq!(
        headers.get("set-cookie"),
        Some(&"session_id=abc, expires=never".to_string()),
        "Duplicate headers should be combined with a comma and space."
    );
}

#[test]
fn test_header_without_colon_is_rejected() {
    let mut headers = Headers::new();
    let data = b"NoColonOnThisLine\r\n\r\n";
    let result = headers.parse(data);
    assert!(matches!(result, Err(reqparse::errors::RequestError::InvalidHeader)));
    assert!(headers.is_empty());
}

#[test]
fn test_header_value_must_be_text() {
    let mut headers = Headers::new();
    // 0xff never occurs in UTF-8 text
    let data = b"X-Raw: \xff\xfe\r\n\r\n";
    let result = headers.parse(data);
    assert!(matches!(result, Err(reqparse::errors::RequestError::InvalidHeader)));
}

#[test]
fn test_header_value_keeps_non_ascii_text() {
    let mut headers = Headers::new();
    // "café", UTF-8 encoded: the value must come back decoded, not raw
    let data = b"X-Drink: caf\xc3\xa9\r\n\r\n";
    let result = headers.parse(data);
    assert!(result.is_ok());
    assert_eq!(headers.get("x-drink"), Some(&"caf\u{e9}".to_string()));
}

#[test]
fn test_get_folds_the_queried_name() {
    let mut headers = Headers::new();
    let data = b"Host: localhost:42069\r\n";
    assert!(headers.parse(data).is_ok());
    // lookups are case-insensitive, in every spelling
    assert_eq!(headers.get("HOST").map(|s| s.as_str()), Some("localhost:42069"));
    assert_eq!(headers.get("hOsT").map(|s| s.as_str()), Some("localhost:42069"));
    assert_eq!(headers.get("ghost"), None);
}
