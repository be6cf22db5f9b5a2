use duma::headers::{add_header, parse_length, set_header, supports_bytes, HeaderError, LengthError};
use duma::numbers::NumberError;
use reqwest::header::{HeaderMap, HeaderValue, ACCEPT_RANGES, USER_AGENT};

#[test]
fn a_server_says_that_it_serves_bytes() {
    let mut headers = HeaderMap::new();
    assert!(!supports_bytes(&headers));
    headers.insert(ACCEPT_RANGES, HeaderValue::from_static("bytes"));
    assert!(supports_bytes(&headers));
    headers.insert(ACCEPT_RANGES, HeaderValue::from_static("none"));
    assert!(!supports_bytes(&headers));
    headers.insert(ACCEPT_RANGES, HeaderValue::from_static("Bytes"));
    assert!(!supports_bytes(&headers));
    headers.append(ACCEPT_RANGES, HeaderValue::from_static("bytes"));
    assert!(!supports_bytes(&headers));
    headers.insert(ACCEPT_RANGES, HeaderValue::from_static("bytes"));
    headers.append(ACCEPT_RANGES, HeaderValue::from_static("none"));
    assert!(supports_bytes(&headers));
}

#[test]
fn lengths_are_read() {
    assert_eq!(parse_length(b"0"), Ok(0));
    assert_eq!(parse_length(b"2500000"), Ok(2_500_000));
    assert_eq!(parse_length(b"18446744073709551615"), Ok(u64::MAX));
}

#[test]
fn other_values_are_no_lengths() {
    assert_eq!(parse_length("12\u{00e9}".as_bytes()), Err(LengthError::NotText));
    assert_eq!(parse_length(b""), Err(LengthError::NotNumber(NumberError::Empty)));
    assert_eq!(parse_length(b"12 "), Err(LengthError::NotNumber(NumberError::InvalidDigit)));
    assert_eq!(parse_length(b"1\t"), Err(LengthError::NotNumber(NumberError::InvalidDigit)));
    assert_eq!(
        parse_length(b"18446744073709551616"),
        Err(LengthError::NotNumber(NumberError::Overflow))
    );
}

#[test]
fn a_header_is_set_or_added_to() {
    let mut headers = HeaderMap::new();
    assert_eq!(set_header(&mut headers, "user-agent", "Duma/1"), Ok(()));
    assert_eq!(add_header(&mut headers, "user-agent", "Duma/2"), Ok(()));
    let agents: Vec<&HeaderValue> = headers.get_all(USER_AGENT).iter().collect();
    assert_eq!(agents, vec!["Duma/1", "Duma/2"]);
    assert_eq!(set_header(&mut headers, "user-agent", "Duma/3"), Ok(()));
    let agents: Vec<&HeaderValue> = headers.get_all(USER_AGENT).iter().collect();
    assert_eq!(agents, vec!["Duma/3"]);
}

#[test]
fn control_characters_cannot_be_set() {
    let mut headers = HeaderMap::new();
    for text in ["a\nb", "\0", "\u{7f}", "\r"] {
        assert_eq!(set_header(&mut headers, "user-agent", text), Err(HeaderError::InvalidValue));
        assert_eq!(add_header(&mut headers, "user-agent", text), Err(HeaderError::InvalidValue));
    }
    assert!(headers.is_empty());
    assert_eq!(set_header(&mut headers, "user-agent", "tab\tand \u{00fc}"), Ok(()));
    assert_eq!(headers.get(USER_AGENT).unwrap().as_bytes(), "tab\tand \u{00fc}".as_bytes());
}
