use gall_rs::chars::{to_chars, trim_chars};
use gall_rs::numbers::{decimal_digits, parse_usize, signed_decimal_digits, to_hex_lower};

fn text(v: Vec<char>) -> String {
    v.into_iter().collect()
}

#[test]
fn parses_unsigned_numbers() {
    assert_eq!(parse_usize(&to_chars("0")), Some(0));
    assert_eq!(parse_usize(&to_chars("007")), Some(7));
    assert_eq!(parse_usize(&to_chars("+42")), Some(42));
    assert_eq!(parse_usize(&to_chars("+")), None);
    assert_eq!(parse_usize(&to_chars("")), None);
    assert_eq!(parse_usize(&to_chars("-1")), None);
    assert_eq!(parse_usize(&to_chars("1 2")), None);
    assert_eq!(parse_usize(&to_chars(&usize::MAX.to_string())), Some(usize::MAX));
    assert_eq!(parse_usize(&to_chars("99999999999999999999999999")), None);
}

#[test]
fn writes_decimal_and_hex() {
    assert_eq!(text(decimal_digits(0)), "0");
    assert_eq!(text(decimal_digits(907)), "907");
    assert_eq!(text(decimal_digits(u128::MAX)), u128::MAX.to_string());
    assert_eq!(text(signed_decimal_digits(-42)), "-42");
    assert_eq!(text(signed_decimal_digits(i32::MIN)), "-2147483648");
    assert_eq!(text(to_hex_lower(&[0x00, 0x0f, 0xa0, 0xff])), "000fa0ff");
    for n in [0usize, 1, 10, 65535, usize::MAX] {
        let written = decimal_digits(n as u128);
        assert_eq!(parse_usize(&written), Some(n));
    }
}

#[test]
fn trims_unicode_white_space() {
    assert_eq!(text(trim_chars(&to_chars(" \t\u{a0}x y\u{3000}\r\n"))), "x y");
    assert_eq!(text(trim_chars(&to_chars("   "))), "");
}
