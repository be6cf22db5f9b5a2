use duma::numbers::{decimal_text, parse_number, NumberError};

#[test]
fn decimal_text_has_no_leading_zeros() {
    assert_eq!(decimal_text(0), "0");
    assert_eq!(decimal_text(7), "7");
    assert_eq!(decimal_text(10), "10");
    assert_eq!(decimal_text(1_024_000), "1024000");
    assert_eq!(decimal_text(u64::MAX), "18446744073709551615");
}

#[test]
fn numbers_are_read_as_std_reads_them() {
    let texts = [
        "", "+", "-", "0", "00", "+0", "+12", "12", "-12", "++1", " 1", "1 ", "1x", "x",
        "18446744073709551615", "18446744073709551616", "99999999999999999999999x",
        "1844674407370955161x", "\u{0663}", "é",
    ];
    for text in texts {
        let ours = parse_number(text, u64::MAX);
        let theirs = text.parse::<u64>();
        match theirs {
            Ok(n) => assert_eq!(ours, Ok(n), "{:?}", text),
            Err(e) => {
                let kind = match e.kind() {
                    std::num::IntErrorKind::Empty => NumberError::Empty,
                    std::num::IntErrorKind::InvalidDigit => NumberError::InvalidDigit,
                    _ => NumberError::Overflow,
                };
                assert_eq!(ours, Err(kind), "{:?}", text);
            }
        }
    }
}

#[test]
fn a_smaller_bound_is_kept() {
    assert_eq!(parse_number("255", 255), Ok(255));
    assert_eq!(parse_number("256", 255), Err(NumberError::Overflow));
    assert_eq!(parse_number("9", 5), Err(NumberError::Overflow));
    assert_eq!(parse_number("0", 0), Ok(0));
}

#[test]
fn what_is_written_is_read_back() {
    for n in [0u64, 1, 9, 10, 99, 100, 2048, 1_024_000, u64::MAX - 1, u64::MAX] {
        assert_eq!(parse_number(&decimal_text(n), u64::MAX), Ok(n));
    }
}
