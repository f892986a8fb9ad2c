use mcast_probe::text::{chars_of, dec_digit, hex_digit, push_all, push_decimal, push_hex, string_of};

#[test]
fn chars_and_strings_convert_both_ways() {
    let text = "ff02::1 \u{e9}\u{1F600}";
    let chars = chars_of(text);
    assert_eq!(chars, text.chars().collect::<Vec<char>>());
    assert_eq!(string_of(&chars), text);
    assert_eq!(string_of(&Vec::new()), "");
}

#[test]
fn hex_digits() {
    for (i, c) in "0123456789abcdef".chars().enumerate() {
        assert_eq!(hex_digit(c), Some(i as u8));
    }
    for (i, c) in "ABCDEF".chars().enumerate() {
        assert_eq!(hex_digit(c), Some(10 + i as u8));
    }
    for c in ['g', 'G', ':', '.', ' ', '/', '@', '`', '\u{ff10}'] {
        assert_eq!(hex_digit(c), None);
    }
}

#[test]
fn decimal_digits() {
    for (i, c) in "0123456789".chars().enumerate() {
        assert_eq!(dec_digit(c), Some(i as u8));
    }
    for c in ['a', '/', ':', '+', '-', '\u{663}'] {
        assert_eq!(dec_digit(c), None);
    }
}

#[test]
fn hex_groups_have_no_leading_zeros() {
    for (v, text) in [(0u16, "0"), (1, "1"), (0xf, "f"), (0x10, "10"), (0xab, "ab"), (0x100, "100"), (0x909, "909"), (0x1000, "1000"), (0xffff, "ffff"), (0xa0b0, "a0b0")] {
        let mut out = vec!['>'];
        push_hex(&mut out, v);
        assert_eq!(out.iter().collect::<String>(), format!(">{}", text));
    }
}

#[test]
fn decimal_numbers() {
    for v in [0u64, 1, 9, 10, 11, 99, 100, 101, 65535, 4294967296, u64::MAX] {
        let mut out = b"n=".to_vec();
        push_decimal(&mut out, v);
        assert_eq!(out, format!("n={}", v).into_bytes());
    }
}

#[test]
fn push_all_appends() {
    let mut out = b"ab".to_vec();
    push_all(&mut out, b"cd");
    push_all(&mut out, b"");
    assert_eq!(out, b"abcd".to_vec());
}
