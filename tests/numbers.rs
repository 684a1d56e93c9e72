use filepwn::number::{parse_u32, NumberError};
use filepwn::run::{parse_mode, ModeError};

#[test]
fn decimal_reads() {
    assert_eq!(parse_u32(b"42", 10), Ok(42));
    assert_eq!(parse_u32(b"0", 10), Ok(0));
    assert_eq!(parse_u32(b"+7", 10), Ok(7));
    assert_eq!(parse_u32(b"4294967295", 10), Ok(4294967295));
}

#[test]
fn decimal_errors() {
    assert_eq!(parse_u32(b"", 10), Err(NumberError::Empty));
    assert_eq!(parse_u32(b"+", 10), Err(NumberError::InvalidDigit));
    assert_eq!(parse_u32(b"-1", 10), Err(NumberError::InvalidDigit));
    assert_eq!(parse_u32(b"1x", 10), Err(NumberError::InvalidDigit));
    assert_eq!(parse_u32(b"4294967296", 10), Err(NumberError::Overflow));
    assert_eq!(parse_u32(b"99999999999x", 10), Err(NumberError::Overflow));
    assert_eq!(parse_u32(b"x99999999999", 10), Err(NumberError::InvalidDigit));
}

#[test]
fn same_as_std() {
    let samples = ["", "+", "-", "0", "+0", "12", "0755", "777", "8", "++1", " 1", "4294967295", "4294967296", "1a", "ff"];
    for s in samples {
        for radix in [8u32, 10, 16] {
            let ours = parse_u32(s.as_bytes(), radix).ok();
            let theirs = u32::from_str_radix(s, radix).ok();
            assert_eq!(ours, theirs, "{} in radix {}", s, radix);
        }
    }
}

#[test]
fn modes_in_octal() {
    assert_eq!(parse_mode("644"), Ok(0o644));
    assert_eq!(parse_mode("755"), Ok(0o755));
    assert_eq!(parse_mode("0"), Ok(0));
    assert_eq!(parse_mode("777"), Ok(511));
}

#[test]
fn mode_with_nine_is_refused() {
    assert_eq!(parse_mode("999"), Err(ModeError::NotOctal(NumberError::InvalidDigit)));
}

#[test]
fn mode_errors() {
    assert_eq!(parse_mode("1000"), Err(ModeError::TooLarge(512)));
    assert_eq!(parse_mode(""), Err(ModeError::NotOctal(NumberError::Empty)));
    assert_eq!(parse_mode("rwx"), Err(ModeError::NotOctal(NumberError::InvalidDigit)));
}
