use range_splitter::text::{
    find_byte, is_header_text, parse_usize, push_bytes, push_decimal, split_at_first,
};

#[test]
fn parse_usize_reads_plain_digits() {
    assert_eq!(parse_usize(b"0"), Some(0));
    assert_eq!(parse_usize(b"42"), Some(42));
    assert_eq!(parse_usize(b"007"), Some(7));
    assert_eq!(parse_usize(b"10000000"), Some(10_000_000));
}

#[test]
fn parse_usize_takes_one_plus_sign() {
    assert_eq!(parse_usize(b"+5"), Some(5));
    assert_eq!(parse_usize(b"+"), None);
    assert_eq!(parse_usize(b"++5"), None);
}

#[test]
fn parse_usize_refuses_what_is_no_number() {
    assert_eq!(parse_usize(b""), None);
    assert_eq!(parse_usize(b"-5"), None);
    assert_eq!(parse_usize(b"5 "), None);
    assert_eq!(parse_usize(b" 5"), None);
    assert_eq!(parse_usize(b"5a"), None);
    assert_eq!(parse_usize(b"*"), None);
}

#[test]
fn parse_usize_agrees_with_std_at_the_limit() {
    let max = usize::MAX.to_string();
    assert_eq!(parse_usize(max.as_bytes()), Some(usize::MAX));
    let over = format!("{}0", max);
    assert_eq!(parse_usize(over.as_bytes()), None);
    let mut next = max.clone().into_bytes();
    let n = next.len();
    next[n - 1] += 1;
    assert_eq!(parse_usize(&next), std::str::from_utf8(&next).unwrap().parse::<usize>().ok());
    assert_eq!(parse_usize(&next), None);
}

#[test]
fn parse_usize_agrees_with_std_on_samples() {
    for s in ["0", "1", "+1", "-1", "", "+", "12345678901234567890123", "18446744073709551615", "4294967295", "4294967296", "1_0", "0x10"] {
        assert_eq!(parse_usize(s.as_bytes()), s.parse::<usize>().ok(), "{}", s);
    }
}

#[test]
fn push_decimal_writes_shortest_form() {
    for n in [0usize, 7, 10, 99, 100, 1048575, 10_000_000, usize::MAX] {
        let mut out = b"x".to_vec();
        push_decimal(&mut out, n);
        assert_eq!(out, format!("x{}", n).into_bytes());
        assert_eq!(parse_usize(&out[1..]), Some(n));
    }
}

#[test]
fn push_bytes_appends() {
    let mut out = b"ab".to_vec();
    push_bytes(&mut out, b"cd");
    assert_eq!(out, b"abcd".to_vec());
    push_bytes(&mut out, b"");
    assert_eq!(out, b"abcd".to_vec());
}

#[test]
fn find_byte_gives_first_place() {
    assert_eq!(find_byte(b"a=b=c", b'='), Some(1));
    assert_eq!(find_byte(b"=", b'='), Some(0));
    assert_eq!(find_byte(b"abc", b'='), None);
    assert_eq!(find_byte(b"", b'='), None);
}

#[test]
fn split_at_first_leaves_separator_out() {
    assert_eq!(split_at_first(b"a=b=c", b'='), Some((&b"a"[..], &b"b=c"[..])));
    assert_eq!(split_at_first(b"=", b'='), Some((&b""[..], &b""[..])));
    assert_eq!(split_at_first(b"abc", b'='), None);
}

#[test]
fn header_text_is_visible_ascii() {
    assert!(is_header_text(b"bytes=0-1"));
    assert!(is_header_text(b"a\tb c~"));
    assert!(is_header_text(b""));
    assert!(!is_header_text(b"a\x7fb"));
    assert!(!is_header_text(b"a\nb"));
    assert!(!is_header_text(&[0xc3, 0xa9]));
    assert!(!is_header_text(&[31]));
}
