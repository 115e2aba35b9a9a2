use kanaweb_server::text::{
    chars_of, end_without_newlines, find_byte, find_char, leading_slashes, lower_between,
    read_number, same_bytes, same_text, string_of, trim_between, white_space, write_number,
};

#[test]
fn white_space_is_the_unicode_property() {
    for v in 0u32..=0x10ffff {
        if let Some(c) = char::from_u32(v) {
            assert_eq!(white_space(c), c.is_whitespace(), "{v:x}");
        }
    }
}

#[test]
fn numbers_are_read_as_std_reads_them() {
    for s in [
        "0", "7", "+7", "007", "65535", "65536", "", "+", "-", "-0", "++1", "1 ", " 1", "1a",
        "00000000000000000000000000001", "99999999999999999999", "６",
    ] {
        assert_eq!(read_number(s, 65535), s.parse::<u16>().ok().map(|n| n as u64), "{s}");
    }
    for s in ["18446744073709551615", "18446744073709551616", "18446744073709551609"] {
        assert_eq!(read_number(s, usize::MAX as u64), s.parse::<usize>().ok().map(|n| n as u64));
    }
    assert_eq!(read_number("18446744073709551615", u64::MAX), Some(u64::MAX));
    assert_eq!(read_number("5", 4), None);
    assert_eq!(read_number("4", 4), Some(4));
}

#[test]
fn numbers_are_written_in_decimal() {
    for n in [0u64, 1, 9, 10, 99, 100, 204, 8388608, u64::MAX] {
        assert_eq!(write_number(n), n.to_string());
        assert_eq!(read_number(&write_number(n), u64::MAX), Some(n));
    }
}

#[test]
fn texts_are_compared_by_their_characters() {
    assert!(same_text("", ""));
    assert!(same_text("かな", "かな"));
    assert!(!same_text("かな", "かに"));
    assert!(!same_text("GET", "get"));
    assert!(!same_text("GET", "GETS"));
    assert!(same_bytes(b"a\0b", b"a\0b"));
    assert!(!same_bytes(b"ab", b"ac"));
}

#[test]
fn characters_are_found_and_trimmed() {
    let s = chars_of("//a b:\u{3000}ÄB \r\n\r");
    assert_eq!(leading_slashes(&s), 2);
    assert_eq!(find_char(&s, ' '), 3);
    assert_eq!(find_char(&s, 'x'), s.len());
    assert_eq!(end_without_newlines(&s), s.len() - 3);
    let (a, b) = trim_between(&s, 6, s.len());
    assert_eq!(string_of(&s, a, b), "ÄB");
    assert_eq!(lower_between(&s, a, b), "Äb");
    let (a, b) = trim_between(&s, s.len() - 4, s.len());
    assert_eq!(string_of(&s, a, b), "");
    assert_eq!(find_byte(b"ab\ncd", b'\n'), 2);
    assert_eq!(find_byte(b"", b'\n'), 0);
}
