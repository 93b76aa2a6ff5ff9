use fastly::http::HeaderValue;
use range_splitter::config::Config;
use range_splitter::range::{RangeError, RequestRange};
use range_splitter::text::is_header_text;

#[test]
fn header_text_agrees_with_header_value() {
    let samples: [&[u8]; 7] = [
        b"bytes=0-1",
        b"b=1048576,p=2",
        b"tab\there",
        b"",
        b"caf\xc3\xa9",
        b"\x80",
        b"~ !",
    ];
    for bytes in samples {
        let value = HeaderValue::from_bytes(bytes).unwrap();
        assert_eq!(is_header_text(value.as_bytes()), value.to_str().is_ok());
    }
}

#[test]
fn every_byte_a_header_value_can_hold_is_judged_alike() {
    for b in 0u8..=255 {
        if let Ok(value) = HeaderValue::from_bytes(&[b'a', b, b'z']) {
            assert_eq!(is_header_text(value.as_bytes()), value.to_str().is_ok(), "byte {}", b);
        }
    }
}

#[test]
fn range_of_header_value() {
    let value = HeaderValue::from_static("bytes=5-9");
    let values = vec![value.as_bytes().to_vec()];
    assert_eq!(RequestRange::new(&values), Ok(Some(RequestRange::Closed { first: 5, last: 9 })));
    let value = HeaderValue::from_bytes(b"bytes=5-\xff").unwrap();
    let values = vec![value.as_bytes().to_vec()];
    assert_eq!(RequestRange::new(&values), Err(RangeError::HeaderValue));
}

#[test]
fn config_of_header_value() {
    let value = HeaderValue::from_static("p=2,r=2048");
    let c = Config::new(Some(value.as_bytes()));
    assert_eq!(c.parallelism, 2);
    assert_eq!(c.read_chunk_size, 2048);
    let value = HeaderValue::from_bytes(b"p=2,r=2048,\xff").unwrap();
    assert_eq!(Config::new(Some(value.as_bytes())), Config::new(None));
}
