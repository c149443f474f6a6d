use ratioup::text::{hex_encode, percent_encoding, push_decimal, push_escaped_quotes, starts_with};
use ratioup::tracker::is_supported_url;

#[test]
fn hex_is_lower_case() {
    assert_eq!(hex_encode(&[0x00, 0x0f, 0xa0, 0xff]), "000fa0ff");
    assert_eq!(hex_encode(&[]), "");
}

#[test]
fn percent_encoding_keeps_unreserved() {
    assert_eq!(percent_encoding(b"aZ09-._~"), "aZ09-._~");
    assert_eq!(percent_encoding(&[0x00, 0x20, 0xff, b'/']), "%00%20%FF%2F");
}

#[test]
fn decimal_text() {
    let mut s = String::from("n=");
    push_decimal(&mut s, 0);
    push_decimal(&mut s, 18446744073709551615);
    assert_eq!(s, "n=018446744073709551615");
}

#[test]
fn quote_escaping() {
    let mut s = String::new();
    push_escaped_quotes(&mut s, "\"é\"x\"");
    assert_eq!(s, "\\\"é\\\"x\\\"");
}

#[test]
fn prefixes_and_supported_urls() {
    assert!(starts_with("héllo", "hé"));
    assert!(!starts_with("he", "hello"));
    assert!(is_supported_url("http://t/announce"));
    assert!(is_supported_url("https://t/announce"));
    assert!(is_supported_url("udp://t:80"));
    assert!(!is_supported_url("wss://t"));
    assert!(!is_supported_url("HTTP://t"));
}
