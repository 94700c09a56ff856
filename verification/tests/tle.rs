use astro_data_vault::record::tle::TleError;
use astro_data_vault::record::Tle;

/// Test TLE sample, from the Basic Info section of the Space-Track TLE documentation.
const SAMPLE_TLE_NAME: &str = "ISS (ZARYA)";
const SAMPLE_TLE_LINE1: &str =
    "1 25544U 98067A   04236.56031392  .00020137  00000-0  16538-3 0  9993";
const SAMPLE_TLE_LINE2: &str =
    "2 25544  51.6335 344.7760 0007976 126.2523 325.9359 15.70406856328906";

#[test]
fn test_validate_checksum() {
    let line1_result = Tle::validate_checksum(SAMPLE_TLE_LINE1.as_bytes());
    assert!(line1_result.is_ok());

    let line2_result = Tle::validate_checksum(SAMPLE_TLE_LINE2.as_bytes());
    assert!(line2_result.is_ok());
}

#[test]
fn test_validate_line1() {
    let result = Tle::validate_line1(SAMPLE_TLE_LINE1);
    assert!(result.is_ok(), "Failed to validate line1: {:?}", result.err());
}

#[test]
fn test_validate_line2() {
    let result = Tle::validate_line2(SAMPLE_TLE_LINE2);
    assert!(result.is_ok(), "Failed to validate line2: {:?}", result.err());
}

#[test]
fn test_validate_fmt() {
    let result = Tle::validate_fmt(SAMPLE_TLE_LINE1, SAMPLE_TLE_LINE2);
    assert!(result.is_ok());
}

#[test]
fn test_empty() {
    let bytes = b"";
    let checksum = Tle::compute_checksum(bytes);
    assert_eq!(checksum, 0);
}

#[test]
fn test_space() {
    let bytes = b" ";
    let checksum = Tle::compute_checksum(bytes);
    assert_eq!(checksum, 0);
}

#[test]
fn test_plus() {
    let bytes = b"+";
    let checksum = Tle::compute_checksum(bytes);
    assert_eq!(checksum, 0);
}

#[test]
fn test_minus() {
    let bytes = b"-";
    let checksum = Tle::compute_checksum(bytes);
    assert_eq!(checksum, 1);
}

#[test]
fn test_digits() {
    let bytes = b"0123456789";
    let checksum = Tle::compute_checksum(bytes);
    assert_eq!(checksum, 5);
}

#[test]
fn test_alphabet() {
    let bytes = b"qwertyuiopasdfghjklzxcvbnm";
    let checksum = Tle::compute_checksum(bytes);
    assert_eq!(checksum, 0);
}

#[test]
fn test_exact_ten() {
    // '5' (5) + '5' (5) = 10 -> 10 % 10 = 0
    let bytes = b"55";
    let checksum = Tle::compute_checksum(bytes);
    assert_eq!(checksum, 0);
}

#[test]
fn test_modulo_ten() {
    // '9' (9) + '9' (9) = 18 -> 18 % 10 = 8
    let bytes = b"99";
    let checksum = Tle::compute_checksum(bytes);
    assert_eq!(checksum, 8);
}

/// `line` with the byte at `idx` replaced by `b`.
fn with_byte(line: &str, idx: usize, b: u8) -> String {
    let mut bytes = line.as_bytes().to_vec();
    bytes[idx] = b;
    String::from_utf8(bytes).unwrap()
}

/// `line` with its checksum digit recomputed.
fn with_fixed_checksum(line: &str) -> String {
    let bytes = line.as_bytes();
    let body = &bytes[..bytes.len() - 1];
    let digit = b'0' + Tle::compute_checksum(body);
    let mut out = body.to_vec();
    out.push(digit);
    String::from_utf8(out).unwrap()
}

#[test]
fn checksum_of_sample_bodies_matches_their_digits() {
    let b1 = SAMPLE_TLE_LINE1.as_bytes();
    assert_eq!(Tle::compute_checksum(&b1[..b1.len() - 1]), 3);
    let b2 = SAMPLE_TLE_LINE2.as_bytes();
    assert_eq!(Tle::compute_checksum(&b2[..b2.len() - 1]), 6);
}

#[test]
fn checksum_counts_multibyte_characters_as_zero() {
    assert_eq!(Tle::compute_checksum("é7".as_bytes()), 7);
    assert_eq!(Tle::compute_checksum(b"1-2-3"), 8);
}

#[test]
fn appended_checksum_digit_is_accepted() {
    for body in [&b""[..], b"abc", b"9-9-9", b"12345678901234567890"] {
        let mut line = body.to_vec();
        line.push(b'0' + Tle::compute_checksum(body));
        assert_eq!(Tle::validate_checksum(&line), Ok(()));
    }
}

#[test]
fn checksum_errors() {
    assert_eq!(Tle::validate_checksum(b""), Err(TleError::EmptyLine));
    assert_eq!(Tle::validate_checksum(b"12x"), Err(TleError::ChecksumNotDigit));
    assert_eq!(
        Tle::validate_checksum(b"12"),
        Err(TleError::ChecksumMismatch { expected: 2, actual: 1 })
    );
}

#[test]
fn check_expected_char_reports_first_mismatch_in_index_order() {
    let bytes = b"a.b.c";
    assert_eq!(Tle::check_expected_char(bytes, &[1, 3], b'.'), Ok(()));
    assert_eq!(Tle::check_expected_char(bytes, &[1, 4, 0], b'.'), Err(4));
    assert_eq!(Tle::check_expected_char(bytes, &[], b'.'), Ok(()));
}

#[test]
fn check_any_char_reports_first_mismatch_in_index_order() {
    let bytes = b"+- x";
    assert_eq!(Tle::check_any_char(bytes, &[0, 1, 2], b" +-"), Ok(()));
    assert_eq!(Tle::check_any_char(bytes, &[0, 3, 1], b" +-"), Err(3));
    assert_eq!(Tle::check_any_char(bytes, &[0], b""), Err(0));
}

#[test]
fn line1_errors() {
    assert_eq!(Tle::validate_line1("1 25544U"), Err(TleError::TooShort { line: 1 }));
    let l = with_byte(SAMPLE_TLE_LINE1, 0, b'2');
    assert_eq!(Tle::validate_line1(&l), Err(TleError::BadLineStart { line: 1 }));
    let l = with_byte(SAMPLE_TLE_LINE1, 17, b'X');
    assert_eq!(Tle::validate_line1(&l), Err(TleError::ExpectedSpace { line: 1, column: 18 }));
    let l = with_byte(SAMPLE_TLE_LINE1, 23, b'0');
    assert_eq!(Tle::validate_line1(&l), Err(TleError::ExpectedDot { line: 1, column: 24 }));
    let l = with_byte(SAMPLE_TLE_LINE1, 44, b'x');
    assert_eq!(Tle::validate_line1(&l), Err(TleError::ExpectedSignOrSpace { column: 45 }));
    let l = with_byte(SAMPLE_TLE_LINE1, 50, b' ');
    assert_eq!(
        Tle::validate_line1(&l),
        Err(TleError::ExpectedConsecutiveSpaces { column: 51 })
    );
    let l = with_byte(SAMPLE_TLE_LINE1, 68, b'4');
    assert_eq!(
        Tle::validate_line1(&l),
        Err(TleError::ChecksumMismatch { expected: 4, actual: 3 })
    );
    let l = with_byte(SAMPLE_TLE_LINE1, 68, b'Z');
    assert_eq!(Tle::validate_line1(&l), Err(TleError::ChecksumNotDigit));
}

#[test]
fn line1_with_blank_exponent_and_fixed_checksum_is_accepted() {
    let l = with_byte(&with_byte(SAMPLE_TLE_LINE1, 50, b' '), 51, b' ');
    let l = with_fixed_checksum(&l);
    assert_eq!(Tle::validate_line1(&l), Ok(()));
}

#[test]
fn line2_errors() {
    assert_eq!(Tle::validate_line2(""), Err(TleError::TooShort { line: 2 }));
    let l = with_byte(SAMPLE_TLE_LINE2, 1, b'x');
    assert_eq!(Tle::validate_line2(&l), Err(TleError::BadLineStart { line: 2 }));
    let l = with_byte(SAMPLE_TLE_LINE2, 51, b'7');
    assert_eq!(Tle::validate_line2(&l), Err(TleError::ExpectedSpace { line: 2, column: 52 }));
    let l = with_byte(SAMPLE_TLE_LINE2, 54, b'5');
    assert_eq!(Tle::validate_line2(&l), Err(TleError::ExpectedDot { line: 2, column: 55 }));
    let l = with_byte(SAMPLE_TLE_LINE2, 68, b'0');
    assert_eq!(
        Tle::validate_line2(&l),
        Err(TleError::ChecksumMismatch { expected: 0, actual: 6 })
    );
}

#[test]
fn validate_fmt_checks_line1_first() {
    assert_eq!(
        Tle::validate_fmt("short", "also short"),
        Err(TleError::TooShort { line: 1 })
    );
    assert_eq!(
        Tle::validate_fmt(SAMPLE_TLE_LINE1, "also short"),
        Err(TleError::TooShort { line: 2 })
    );
    assert_eq!(
        Tle::validate_fmt(SAMPLE_TLE_LINE2, SAMPLE_TLE_LINE1),
        Err(TleError::BadLineStart { line: 1 })
    );
}

#[test]
fn try_new_trims_and_validates() {
    let line1 = format!("  {}\t", SAMPLE_TLE_LINE1);
    let line2 = format!("\u{3000}{}\r", SAMPLE_TLE_LINE2);
    let tle = Tle::try_new(" ISS (ZARYA) ", &line1, &line2).unwrap();
    assert_eq!(tle.name, SAMPLE_TLE_NAME);
    assert_eq!(tle.line1, SAMPLE_TLE_LINE1);
    assert_eq!(tle.line2, SAMPLE_TLE_LINE2);
    assert_eq!(
        Tle::try_new("x", SAMPLE_TLE_LINE2, SAMPLE_TLE_LINE2).unwrap_err(),
        TleError::BadLineStart { line: 1 }
    );
}

#[test]
fn try_from_str_with_three_lines() {
    let text = format!(
        "\n{}\r\n  {}\n\n{}  \n",
        SAMPLE_TLE_NAME, SAMPLE_TLE_LINE1, SAMPLE_TLE_LINE2
    );
    let tle = Tle::try_from_str(&text).unwrap();
    assert_eq!(tle.name, SAMPLE_TLE_NAME);
    assert_eq!(tle.line1, SAMPLE_TLE_LINE1);
    assert_eq!(tle.line2, SAMPLE_TLE_LINE2);
}

#[test]
fn try_from_str_with_two_lines_is_unknown() {
    let text = format!("{}\n{}", SAMPLE_TLE_LINE1, SAMPLE_TLE_LINE2);
    let tle = Tle::try_from_str(&text).unwrap();
    assert_eq!(tle.name, "UNKNOWN");
    assert_eq!(tle.line1, SAMPLE_TLE_LINE1);
    assert_eq!(tle.line2, SAMPLE_TLE_LINE2);
}

#[test]
fn try_from_str_refuses_other_line_counts() {
    assert_eq!(
        Tle::try_from_str("").unwrap_err(),
        TleError::WrongLineCount { count: 0 }
    );
    assert_eq!(
        Tle::try_from_str(" \n\t\n").unwrap_err(),
        TleError::WrongLineCount { count: 0 }
    );
    assert_eq!(
        Tle::try_from_str(SAMPLE_TLE_LINE1).unwrap_err(),
        TleError::WrongLineCount { count: 1 }
    );
    let text = format!("a\nb\n{}\n{}", SAMPLE_TLE_LINE1, SAMPLE_TLE_LINE2);
    assert_eq!(
        Tle::try_from_str(&text).unwrap_err(),
        TleError::WrongLineCount { count: 4 }
    );
}

#[test]
fn try_from_str_reports_validation_errors() {
    let text = format!("{}\n{}", SAMPLE_TLE_LINE2, SAMPLE_TLE_LINE1);
    assert_eq!(
        Tle::try_from_str(&text).unwrap_err(),
        TleError::BadLineStart { line: 1 }
    );
}

#[test]
fn try_from_matches_try_from_str() {
    let text = format!("{}\n{}\n{}", SAMPLE_TLE_NAME, SAMPLE_TLE_LINE1, SAMPLE_TLE_LINE2);
    let tle = Tle::try_from(text.as_str()).unwrap();
    assert_eq!(tle.name, SAMPLE_TLE_NAME);
    assert!(Tle::try_from("one line").is_err());
}

#[test]
fn joined_lines_read_back_as_try_new_builds_them() {
    let cases = [
        (SAMPLE_TLE_NAME, SAMPLE_TLE_LINE1, SAMPLE_TLE_LINE2),
        (" name ", SAMPLE_TLE_LINE1, SAMPLE_TLE_LINE1),
        ("x", "bad line", SAMPLE_TLE_LINE2),
    ];
    for (name, l1, l2) in cases {
        let text = format!("{}\n{}\n{}", name, l1, l2);
        let read = Tle::try_from_str(&text);
        let built = Tle::try_new(name, l1, l2);
        match (read, built) {
            (Ok(a), Ok(b)) => {
                assert_eq!(a.name, b.name);
                assert_eq!(a.line1, b.line1);
                assert_eq!(a.line2, b.line2);
            }
            (Err(a), Err(b)) => assert_eq!(a, b),
            (a, b) => panic!("{:?} vs {:?}", a, b),
        }
    }
}

#[test]
fn exponent_sign_must_be_plus_minus_or_blank_pair() {
    let l = with_fixed_checksum(&with_byte(SAMPLE_TLE_LINE1, 50, b'0'));
    assert_eq!(Tle::validate_line1(&l), Err(TleError::ExpectedExponentSign { column: 51 }));
    let l = "1 25544U 98067A   04236.56031392  .00020137  0000000  16538-3 0  9992";
    assert_eq!(Tle::validate_line1(l), Err(TleError::ExpectedExponentSign { column: 51 }));
    let l = with_fixed_checksum(&with_byte(SAMPLE_TLE_LINE1, 59, b'x'));
    assert_eq!(Tle::validate_line1(&l), Err(TleError::ExpectedExponentSign { column: 60 }));
    let l = with_fixed_checksum(&with_byte(SAMPLE_TLE_LINE1, 50, b'+'));
    assert_eq!(Tle::validate_line1(&l), Ok(()));
}

#[test]
fn lines_longer_than_69_bytes_are_refused() {
    let l1 = with_fixed_checksum(&format!("{}00", &SAMPLE_TLE_LINE1[..68]));
    assert_eq!(l1.len(), 70);
    assert_eq!(Tle::validate_line1(&l1), Err(TleError::TooLong { line: 1 }));
    let l2 = with_fixed_checksum(&format!("{}00", &SAMPLE_TLE_LINE2[..68]));
    assert_eq!(Tle::validate_line2(&l2), Err(TleError::TooLong { line: 2 }));
    assert_eq!(
        Tle::validate_fmt(SAMPLE_TLE_LINE1, &l2),
        Err(TleError::TooLong { line: 2 })
    );
}

#[test]
fn blank_lines_padding_and_crlf_change_nothing() {
    let plain = format!("{}\n{}\n{}", SAMPLE_TLE_NAME, SAMPLE_TLE_LINE1, SAMPLE_TLE_LINE2);
    let noisy = format!(
        " \t\n{}\r\n\n  {} \r\n\u{a0}\r\n{}\t",
        SAMPLE_TLE_NAME, SAMPLE_TLE_LINE1, SAMPLE_TLE_LINE2
    );
    let a = Tle::try_from_str(&plain).unwrap();
    let b = Tle::try_from_str(&noisy).unwrap();
    assert_eq!((a.name, a.line1, a.line2), (b.name, b.line1, b.line2));
    let bad_plain = format!("{}\n{}", SAMPLE_TLE_LINE2, SAMPLE_TLE_LINE1);
    let bad_noisy = format!("\n{}\r\n \n{}\r\n", SAMPLE_TLE_LINE2, SAMPLE_TLE_LINE1);
    assert_eq!(
        Tle::try_from_str(&bad_plain).unwrap_err(),
        Tle::try_from_str(&bad_noisy).unwrap_err()
    );
}
