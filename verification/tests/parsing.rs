use rangefetch::errors::DownloadError;
use rangefetch::headers::parse_headers;
use rangefetch::response::{download_chunk, get_total_length, parse_status_code, split_response};

#[test]
fn test_parse_headers() {
    let header_str = "Content-Length: 123\r\nContent-Type: text/plain\r\n\r\n";

    let headers = parse_headers(header_str).unwrap();
    assert_eq!(headers.get(b"content-length").unwrap(), b"123");
    assert_eq!(headers.get(b"content-type").unwrap(), b"text/plain");
}

#[test]
fn test_parse_headers_should_fail() {
    let header_str = "Content-Length: 456\r\nContent-Type: text/json\r\n\r\n";

    let headers = parse_headers(header_str).unwrap();
    assert_ne!(headers.get(b"content-length").unwrap(), b"123");
    assert_ne!(headers.get(b"content-type").unwrap(), b"text/plain");
}

#[test]
fn test_parse_status_code() {
    let response = "HTTP/1.1 206 Partial Content";
    let code = parse_status_code(response).unwrap();
    assert_eq!(code, 206);
}

#[test]
fn test_parse_status_code_not_equal() {
    let response = "HTTP/1.1 206 Partial Content";
    let code = parse_status_code(response).unwrap();
    assert_ne!(code, 200);
}

#[test]
fn test_split_response() {
    let response = b"HTTP/1.1 200 OK\r\nContent-Length: 5\r\n\r\nHello";
    let (headers, body) = split_response(response).expect("Should parse correctly");

    assert!(headers.contains("HTTP/1.1 200 OK"));
    assert!(headers.contains("Content-Length: 5"));
    assert_eq!(body, b"Hello");
}

#[test]
fn test_split_response_no_separator_fail() {
    let response = b"HTTP/1.1 200 OK\r\nContent-Length: 5";
    let result = split_response(response);

    assert!(result.is_err(), "Should fail if no \\r\\n\\r\\n separator is found");
}

#[test]
fn test_split_response_empty_body() {
    let response = b"HTTP/1.1 200 OK\r\nContent-Length: 0\r\n\r\n";
    let (headers, body) = split_response(response).expect("Should parse correctly");

    assert!(headers.contains("HTTP/1.1 200 OK"));
    assert!(headers.contains("Content-Length: 0"));
    assert!(body.is_empty(), "Body should be empty");
}

#[test]
fn header_lookup_is_case_insensitive() {
    let headers = parse_headers("Content-Length: 42\r\n\r\n").unwrap();
    assert_eq!(headers.get(b"Content-Length"), headers.get(b"content-length"));
    assert_eq!(headers.get(b"CONTENT-LENGTH").unwrap(), b"42");
}

#[test]
fn header_values_are_trimmed_and_later_lines_win() {
    let headers = parse_headers("X-Tag:   padded value  \r\nX-Tag: second\r\n\r\n").unwrap();
    assert_eq!(headers.get(b"x-tag").unwrap(), b"second");
    let headers = parse_headers("X-Tag:   padded value  \r\n\r\n").unwrap();
    assert_eq!(headers.get(b"x-tag").unwrap(), b"padded value");
}

#[test]
fn header_lines_after_blank_line_are_ignored() {
    let headers = parse_headers("Early: 1\r\n\r\nLate: 2\r\n\r\n").unwrap();
    assert_eq!(headers.get(b"early").unwrap(), b"1");
    assert!(headers.get(b"late").is_none());
    assert_eq!(headers.len(), 1);
}

#[test]
fn header_lines_without_colon_are_skipped() {
    let headers = parse_headers("HTTP/1.1 200 OK\r\nContent-Length: 9\r\n\r\n").unwrap();
    assert_eq!(headers.get(b"content-length").unwrap(), b"9");
    assert_eq!(headers.len(), 1);
}

#[test]
fn split_response_rejects_invalid_header_encoding() {
    let mut response = Vec::new();
    response.extend_from_slice(b"HTTP/1.1 200 OK\r\nContent-Length: ");
    response.push(0xff);
    response.extend_from_slice(b"\r\n\r\n");
    assert_eq!(split_response(&response).unwrap_err(), DownloadError::MalformedResponse);
}

#[test]
fn split_response_rejects_empty_input() {
    assert_eq!(split_response(b"").unwrap_err(), DownloadError::MalformedResponse);
}

#[test]
fn status_line_needs_exactly_four_tokens() {
    assert_eq!(
        parse_status_code("HTTP/1.1 200 OK").unwrap_err(),
        DownloadError::InvalidStatusLine
    );
    assert_eq!(
        parse_status_code("HTTP/1.1 206 Partial Content Extra").unwrap_err(),
        DownloadError::InvalidStatusLine
    );
    assert_eq!(parse_status_code("").unwrap_err(), DownloadError::InvalidStatusLine);
}

#[test]
fn status_code_must_be_numeric() {
    assert_eq!(
        parse_status_code("HTTP/1.1 abc Partial Content").unwrap_err(),
        DownloadError::InvalidStatusLine
    );
    assert_eq!(
        parse_status_code("HTTP/1.1 99999 Partial Content").unwrap_err(),
        DownloadError::InvalidStatusLine
    );
}

#[test]
fn scenario_header_text_parses_to_status_map_and_body() {
    let raw = b"HTTP/1.1 206 Partial Content\r\nContent-Length: 5\r\n\r\nHello";
    let (headers, body) = split_response(raw).unwrap();
    assert_eq!(parse_status_code(&headers).unwrap(), 206);
    let map = parse_headers(&headers).unwrap();
    assert_eq!(map.get(b"content-length").unwrap(), b"5");
    assert_eq!(body, b"Hello");
}

#[test]
fn scenario_missing_content_length_fails_length_discovery() {
    let raw = b"HTTP/1.1 200 OK\r\nContent-Type: text/plain\r\n\r\nbody";
    assert_eq!(get_total_length(raw).unwrap_err(), DownloadError::MissingHeader);
}

#[test]
fn length_discovery_reads_content_length() {
    let raw = b"HTTP/1.1 200 OK\r\nContent-Length: 150000\r\n\r\n";
    assert_eq!(get_total_length(raw).unwrap(), 150000);
}

#[test]
fn length_discovery_rejects_non_numeric_length() {
    let raw = b"HTTP/1.1 200 OK\r\nContent-Length: abc\r\n\r\n";
    assert_eq!(get_total_length(raw).unwrap_err(), DownloadError::ParseError);
    let raw = b"HTTP/1.1 200 OK\r\nContent-Length: 99999999999999999999999999\r\n\r\n";
    assert_eq!(get_total_length(raw).unwrap_err(), DownloadError::ParseError);
}

#[test]
fn length_discovery_accepts_plus_sign() {
    let raw = b"HTTP/1.1 200 OK\r\nContent-Length: +5\r\n\r\n";
    assert_eq!(get_total_length(raw).unwrap(), 5);
}

#[test]
fn chunk_with_unexpected_status_aborts() {
    let raw = b"HTTP/1.1 404 Not Found\r\nContent-Length: 5\r\n\r\nHello";
    assert_eq!(download_chunk(raw).unwrap_err(), DownloadError::UnexpectedStatus);
}

#[test]
fn chunk_accepts_declared_prefix_of_body() {
    let raw = b"HTTP/1.1 206 Partial Content\r\nContent-Length: 3\r\n\r\nHello";
    assert_eq!(download_chunk(raw).unwrap(), b"Hel");
}

#[test]
fn chunk_accepts_short_body_as_it_stands() {
    let mut raw = Vec::new();
    raw.extend_from_slice(b"HTTP/1.1 206 Partial Content\r\nContent-Length: 1000\r\n\r\n");
    raw.extend_from_slice(&[7u8; 400]);
    let chunk = download_chunk(&raw).unwrap();
    assert_eq!(chunk.len(), 400);
    assert_eq!(chunk, vec![7u8; 400]);
}

#[test]
fn chunk_without_content_length_aborts() {
    let raw = b"HTTP/1.1 206 Partial Content\r\nContent-Type: text/plain\r\n\r\nHello";
    assert_eq!(download_chunk(raw).unwrap_err(), DownloadError::MissingHeader);
}

#[test]
fn error_descriptions_are_not_empty() {
    let all = [
        DownloadError::ConnectionError,
        DownloadError::MalformedResponse,
        DownloadError::InvalidStatusLine,
        DownloadError::MissingHeader,
        DownloadError::ParseError,
        DownloadError::UnexpectedStatus,
    ];
    for e in all {
        assert!(!e.describe().is_empty());
    }
}
