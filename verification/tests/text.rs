use abs_screens::text::{chars_of, contains, decimal, padded, shifted_decimal, text_of, trim};

#[test]
fn decimal_writes_every_digit() {
    for n in [0, 1, 9, 10, 99, 100, 1234567890, u64::MAX] {
        assert_eq!(decimal(n), n.to_string());
    }
}

#[test]
fn padded_has_two_digits_at_least() {
    for n in [0, 5, 9, 10, 59, 60, 100, 123456] {
        assert_eq!(padded(n), format!("{n:02}"));
    }
}

#[test]
fn shifted_decimal_multiplies_by_a_power_of_two() {
    assert_eq!(shifted_decimal(1, 0), "1");
    assert_eq!(shifted_decimal(3, 100), (3u128 << 100).to_string());
    assert_eq!(shifted_decimal(u64::MAX, 64), ((u64::MAX as u128) << 64).to_string());
}

#[test]
fn trim_takes_off_what_std_calls_white_space() {
    for code in 0..0x11_0000u32 {
        if let Some(c) = char::from_u32(code) {
            if c.is_whitespace() || code < 0x3100 {
                let text = format!("{c}a{c} b{c}");
                assert_eq!(trim(&text), text.trim(), "{code:x}");
            }
        }
    }
    assert_eq!(trim(""), "");
    assert_eq!(trim(" \t\r\n "), "");
    assert_eq!(trim("  my agent  "), "my agent");
}

#[test]
fn contains_finds_a_part() {
    for (hay, needle) in [("", ""), ("", "a"), ("abc", ""), ("abc", "abc"), ("abc", "abcd"), ("aab", "ab"), ("projekt ä", "ä"), ("abab", "ba"), ("xyz", "zy")] {
        assert_eq!(contains(hay, needle), hay.contains(needle), "{hay} {needle}");
    }
}

#[test]
fn texts_are_cut_by_characters() {
    let v = chars_of("Ästhetik");
    assert_eq!(v.len(), 8);
    assert_eq!(text_of(&v, 0, 1), "Ä");
    assert_eq!(text_of(&v, 3, 8), "hetik");
    assert_eq!(text_of(&v, 2, 2), "");
}
