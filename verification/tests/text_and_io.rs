use tavtop::io::{read, strip_newline, window_fits_in};
use tavtop::text::{
    decimal_string, has_prefix, parse_u16, parse_u32, parse_u64, parse_usize,
    split_bytes, split_text,
};
use tavtop::{sleep_micros, STEP};

#[test]
fn parse_reads_plain_and_signed_digits() {
    assert_eq!(parse_u16("1234"), Some(1234));
    assert_eq!(parse_u16("+7"), Some(7));
    assert_eq!(parse_u16("65535"), Some(65535));
    assert_eq!(parse_u32("4294967295"), Some(4294967295));
    assert_eq!(parse_usize("42"), Some(42));
    assert_eq!(parse_u64(b"18446744073709551615"), Some(u64::MAX));
}

#[test]
fn parse_refuses_what_from_str_refuses() {
    assert_eq!(parse_u16("65536"), None);
    assert_eq!(parse_u16(""), None);
    assert_eq!(parse_u16("+"), None);
    assert_eq!(parse_u16("-1"), None);
    assert_eq!(parse_u16("12a"), None);
    assert_eq!(parse_u16(" 12"), None);
    assert_eq!(parse_u32("4294967296"), None);
    assert_eq!(parse_u64(b"18446744073709551616"), None);
}

#[test]
fn parse_agrees_with_std() {
    for s in ["0", "00", "+0", "255", "65535", "65536", "+65535", "-0", "1 2", "99999"] {
        assert_eq!(parse_u16(s), s.parse::<u16>().ok(), "{s}");
    }
}

#[test]
fn decimal_numerals() {
    assert_eq!(decimal_string(0), "0");
    assert_eq!(decimal_string(7), "7");
    assert_eq!(decimal_string(1200), "1200");
    assert_eq!(decimal_string(u64::MAX), u64::MAX.to_string());
}

#[test]
fn decimal_reads_back() {
    for n in [0u64, 9, 10, 65535, 123456789] {
        assert_eq!(parse_u64(decimal_string(n).as_bytes()), Some(n));
    }
}


#[test]
fn split_bytes_keeps_empty_pieces() {
    let pieces = split_bytes(b"a\n\nbc\n", b'\n');
    assert_eq!(pieces, vec![b"a".to_vec(), b"".to_vec(), b"bc".to_vec(), b"".to_vec()]);
    assert_eq!(split_bytes(b"", b'\n'), vec![Vec::<u8>::new()]);
}

#[test]
fn split_text_matches_str_split() {
    for s in ["192.168.1.20", "a..b", "", "."] {
        let expected: Vec<String> = s.split('.').map(str::to_string).collect();
        assert_eq!(split_text(s, '.'), expected);
    }
}

#[test]
fn prefix_test() {
    assert!(has_prefix(b"MemTotal: 1 kB", b"Mem"));
    assert!(!has_prefix(b"Me", b"Mem"));
    assert!(!has_prefix(b"Cached: 1 kB", b"Mem"));
}

#[test]
fn read_keeps_the_window() {
    assert_eq!(read(Some("3400000\n"), 0, 3), "3400");
    assert_eq!(read(Some("0-15\n"), 2, 0), "15");
    assert_eq!(read(Some("42\n"), 0, 0), "42");
    assert_eq!(read(None, 0, 0), "0");
}

#[test]
fn read_window_limits() {
    assert!(window_fits_in("42\n", 0, 0));
    assert!(window_fits_in("42\n", 2, 0));
    assert!(!window_fits_in("42\n", 3, 0));
    assert!(!window_fits_in("", 0, 0));
    assert!(!window_fits_in("é\n", 1, 0));
    assert!(window_fits_in("é\n", 2, 0));
}

#[test]
fn sleep_fills_the_step() {
    assert_eq!(sleep_micros(0), STEP);
    assert_eq!(sleep_micros(30_000), STEP - 30_000);
    assert_eq!(sleep_micros(STEP), 0);
    assert_eq!(sleep_micros(STEP * 3), 0);
}

#[test]
fn split_then_join_gives_back_text() {
    for s in ["192.168.1.20", "a..b", "", ".x."] {
        assert_eq!(split_text(s, '.').join("."), s);
    }
}

#[test]
fn strip_one_newline() {
    assert_eq!(strip_newline("1000\n"), "1000");
    assert_eq!(strip_newline("1000"), "1000");
    assert_eq!(strip_newline("a\n\n"), "a\n");
    assert_eq!(strip_newline(""), "");
    assert_eq!(strip_newline("é\n"), "é");
}
