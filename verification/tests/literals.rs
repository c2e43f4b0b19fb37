use ensourcel::{hex_prefix_end, i32_text_len, parse_i32_from, parse_usize};

#[test]
fn usize_literals() {
    assert_eq!(parse_usize("42"), Some(42));
    assert_eq!(parse_usize("+7"), Some(7));
    assert_eq!(parse_usize("007"), Some(7));
    assert_eq!(parse_usize("0"), Some(0));
    assert_eq!(parse_usize(""), None);
    assert_eq!(parse_usize("+"), None);
    assert_eq!(parse_usize("-1"), None);
    assert_eq!(parse_usize("1a"), None);
    assert_eq!(parse_usize(" 1"), None);
    assert_eq!(parse_usize(&usize::MAX.to_string()), Some(usize::MAX));
    assert_eq!(parse_usize("99999999999999999999999"), None);
}

#[test]
fn usize_literals_agree_with_std() {
    for s in ["12", "+0", "-0", "x", "", "00000000000000000000001", "18446744073709551615", "18446744073709551616", "٣"] {
        assert_eq!(parse_usize(s), s.parse::<usize>().ok(), "{}", s);
    }
}

#[test]
fn i32_literals() {
    assert_eq!(parse_i32_from("-2147483648", 0, 10), Some(i32::MIN));
    assert_eq!(parse_i32_from("2147483647", 0, 10), Some(i32::MAX));
    assert_eq!(parse_i32_from("2147483648", 0, 10), None);
    assert_eq!(parse_i32_from("-2147483649", 0, 10), None);
    assert_eq!(parse_i32_from("-", 0, 10), None);
    assert_eq!(parse_i32_from("ff", 0, 16), Some(255));
    assert_eq!(parse_i32_from("0xFF", 2, 16), Some(255));
    assert_eq!(parse_i32_from("-80000000", 0, 16), Some(i32::MIN));
    assert_eq!(parse_i32_from("80000000", 0, 16), None);
    assert_eq!(parse_i32_from("fg", 0, 16), None);
}

#[test]
fn i32_literals_agree_with_std() {
    for s in ["0", "-0", "+5", "-17", "abc", "7fffffff", "-7FFFFFFF", "1_0", ""] {
        assert_eq!(parse_i32_from(s, 0, 16), i32::from_str_radix(s, 16).ok(), "{}", s);
        assert_eq!(parse_i32_from(s, 0, 10), s.parse::<i32>().ok(), "{}", s);
    }
}

#[test]
fn hex_prefixes() {
    assert_eq!(hex_prefix_end("0x1F"), 2);
    assert_eq!(hex_prefix_end("0x0x1F"), 4);
    assert_eq!(hex_prefix_end("1F"), 0);
    assert_eq!(hex_prefix_end("0"), 0);
    assert_eq!(hex_prefix_end("0x"), 2);
    for s in ["0x0x0xA", "x0", "00x"] {
        assert_eq!(&s[hex_prefix_end(s)..], s.trim_start_matches("0x"));
    }
}

#[test]
fn decimal_text_lengths() {
    for v in [0, 7, 10, -1, -10, 12345, i32::MAX, i32::MIN] {
        assert_eq!(i32_text_len(v), v.to_string().chars().count(), "{}", v);
    }
}
