use relay_board_five_chn::bytes::{
    ascii_bytes, bytes_equal, contains_bytes, count_digits, find_bytes, parse_decimal, push_bytes,
    strip_prefix,
};

#[test]
fn finds_the_leftmost_occurrence() {
    assert_eq!(find_bytes(b"a\r\nb\r\nc", b"\r\n"), Some(1));
    assert_eq!(find_bytes(b"\r\r\n", b"\r\n"), Some(1));
    assert_eq!(find_bytes(b"abc", b"c"), Some(2));
    assert_eq!(find_bytes(b"abc", b"d"), None);
    assert_eq!(find_bytes(b"", b"d"), None);
    assert_eq!(find_bytes(b"ab", b"abc"), None);
    assert_eq!(find_bytes(b"abc", b"abc"), Some(0));
}

#[test]
fn contains_looks_everywhere() {
    assert!(contains_bytes(b"GET / HTTP/1.1\r\n\r\n", b"\r\n\r\n"));
    assert!(contains_bytes(b"\r\n\r\nrest", b"\r\n\r\n"));
    assert!(!contains_bytes(b"GET / HTTP/1.1\r\n\r", b"\r\n\r\n"));
    assert!(!contains_bytes(b"", b"x"));
}

#[test]
fn equality_compares_length_and_content() {
    assert!(bytes_equal(b"", b""));
    assert!(bytes_equal(b"GET", b"GET"));
    assert!(!bytes_equal(b"GET", b"GE"));
    assert!(!bytes_equal(b"GET", b"get"));
}

#[test]
fn prefix_is_stripped_once() {
    assert_eq!(strip_prefix(b"/api/relays/3/on", b"/api/relays/"), Some(&b"3/on"[..]));
    assert_eq!(strip_prefix(b"/api/relays/", b"/api/relays/"), Some(&b""[..]));
    assert_eq!(strip_prefix(b"/api/relay", b"/api/relays/"), None);
    assert_eq!(strip_prefix(b"xyz", b"ab"), None);
}

#[test]
fn digits_are_counted_from_the_left() {
    assert_eq!(count_digits(b"12/on"), 2);
    assert_eq!(count_digits(b"/12"), 0);
    assert_eq!(count_digits(b""), 0);
    assert_eq!(count_digits(b"0123456789"), 10);
    assert_eq!(count_digits(b"1:2"), 1);
    assert_eq!(count_digits(b"1/2"), 1);
}

#[test]
fn decimal_numbers_are_read_until_they_overflow() {
    assert_eq!(parse_decimal(b""), Some(0));
    assert_eq!(parse_decimal(b"0"), Some(0));
    assert_eq!(parse_decimal(b"007"), Some(7));
    assert_eq!(parse_decimal(b"1234567890"), Some(1234567890));
    let largest = format!("{}", usize::MAX);
    assert_eq!(parse_decimal(largest.as_bytes()), Some(usize::MAX));
    let ten_times = format!("{}0", usize::MAX);
    assert_eq!(parse_decimal(ten_times.as_bytes()), None);
    let next = format!("{}", usize::MAX as u128 + 1);
    assert_eq!(parse_decimal(next.as_bytes()), None);
}

#[test]
fn bytes_are_pushed_behind() {
    let mut text = vec![1u8, 2];
    push_bytes(&mut text, &[3, 4]);
    push_bytes(&mut text, &[]);
    assert_eq!(text, vec![1, 2, 3, 4]);
    assert_eq!(ascii_bytes("ab"), b"ab");
}
