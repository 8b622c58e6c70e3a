use ict_query::serial::{dated_log_dir, generate_serials, get_pos_from_logname, parse_decimal, parse_unsigned, CodecError};

#[test]
fn generates_serials_around_the_scanned_board() {
    let v = generate_serials("ABCDEF0001234GHI".to_string(), 1, 3).unwrap();
    assert_eq!(
        v,
        vec![
            "ABCDEF0001233GHI".to_string(),
            "ABCDEF0001234GHI".to_string(),
            "ABCDEF0001235GHI".to_string()
        ]
    );
}

#[test]
fn generated_serial_at_own_position_is_the_serial() {
    for p in 0u8..5 {
        let v = generate_serials("XYZ0000012345PRODUCT".to_string(), p, 5).unwrap();
        assert_eq!(v.len(), 5);
        assert_eq!(v[p as usize], "XYZ0000012345PRODUCT");
    }
}

#[test]
fn generated_sequence_fields_increase_with_seven_digits() {
    let v = generate_serials("ABCDEF0000009GHI".to_string(), 0, 4).unwrap();
    let mut last: Option<u32> = None;
    for s in &v {
        let field = &s[6..13];
        assert_eq!(field.len(), 7);
        let n: u32 = field.parse().unwrap();
        if let Some(l) = last {
            assert!(n > l);
        }
        last = Some(n);
    }
    assert_eq!(v[1], "ABCDEF0000010GHI");
}

#[test]
fn generated_serials_pad_with_zeros() {
    let v = generate_serials("ABCDEF0000002GHI".to_string(), 2, 3).unwrap();
    assert_eq!(v[0], "ABCDEF0000000GHI");
    assert_eq!(v[2], "ABCDEF0000002GHI");
}

#[test]
fn serial_too_short_is_malformed() {
    assert_eq!(generate_serials("ABCDEF00012".to_string(), 0, 2), Err(CodecError::MalformedSerial));
}

#[test]
fn serial_with_letters_in_sequence_is_malformed() {
    assert_eq!(
        generate_serials("ABCDEF00A1234GHI".to_string(), 0, 2),
        Err(CodecError::MalformedSerial)
    );
}

#[test]
fn serial_sequence_below_position_is_malformed() {
    assert_eq!(
        generate_serials("ABCDEF0000001GHI".to_string(), 2, 3),
        Err(CodecError::MalformedSerial)
    );
}

#[test]
fn serial_of_exactly_thirteen_characters() {
    let v = generate_serials("ABCDEF0000005".to_string(), 0, 2).unwrap();
    assert_eq!(v, vec!["ABCDEF0000005".to_string(), "ABCDEF0000006".to_string()]);
}

#[test]
fn position_from_windows_path() {
    assert_eq!(get_pos_from_logname("C:\\logs\\3-20240101-xyz.log"), Ok(2));
}

#[test]
fn position_from_unix_path() {
    assert_eq!(get_pos_from_logname("/var/log/ict/12-240101-a.log"), Ok(11));
}

#[test]
fn position_from_bare_name() {
    assert_eq!(get_pos_from_logname("1-x.log"), Ok(0));
}

#[test]
fn position_without_dash_fails() {
    assert_eq!(get_pos_from_logname("nodash.log"), Err(CodecError::MalformedReference));
}

#[test]
fn position_dash_only_in_directory_fails() {
    assert_eq!(get_pos_from_logname("C:\\a-b\\log.txt"), Err(CodecError::MalformedReference));
}

#[test]
fn position_zero_fails() {
    assert_eq!(get_pos_from_logname("0-x.log"), Err(CodecError::MalformedReference));
}

#[test]
fn position_not_numeric_fails() {
    assert_eq!(get_pos_from_logname("a1-x.log"), Err(CodecError::MalformedReference));
    assert_eq!(get_pos_from_logname("-x.log"), Err(CodecError::MalformedReference));
}

#[test]
fn position_too_large_fails() {
    assert_eq!(get_pos_from_logname("256-x.log"), Err(CodecError::MalformedReference));
    assert_eq!(get_pos_from_logname("255-x.log"), Ok(254));
}

#[test]
fn decimal_parsing() {
    assert_eq!(parse_decimal("0042", 100), Some(42));
    assert_eq!(parse_decimal("101", 100), None);
    assert_eq!(parse_decimal("", 100), None);
    assert_eq!(parse_decimal("4x", 100), None);
    assert_eq!(parse_decimal("4294967295", u32::MAX), Some(u32::MAX));
}

#[test]
fn dated_directory_of_log_name() {
    assert_eq!(dated_log_dir("3-240115-xyz.log"), Some("2024_01_15".to_string()));
    assert_eq!(dated_log_dir("12-991231"), Some("2099_12_31".to_string()));
    assert_eq!(dated_log_dir("3-2401"), None);
    assert_eq!(dated_log_dir("nodash.log"), None);
}

#[test]
fn sequence_beyond_seven_digits_widens_the_field() {
    let v = generate_serials("ABCDEF9999999GHI".to_string(), 0, 2).unwrap();
    assert_eq!(v, vec!["ABCDEF9999999GHI".to_string(), "ABCDEF10000000GHI".to_string()]);
}

#[test]
fn panel_of_no_boards_has_no_serials() {
    assert_eq!(generate_serials("ABCDEF0000001GHI".to_string(), 0, 0), Ok(Vec::new()));
}

#[test]
fn numbers_may_carry_a_plus_sign() {
    assert_eq!(parse_unsigned("+42", 100), Some(42));
    assert_eq!(parse_unsigned("42", 100), Some(42));
    assert_eq!(parse_unsigned("+", 100), None);
    assert_eq!(parse_unsigned("++4", 100), None);
    assert_eq!(parse_unsigned("-4", 100), None);
    assert_eq!(get_pos_from_logname("C:\\logs\\+3-x.log"), Ok(2));
}

#[test]
fn sequence_field_with_plus_sign() {
    let v = generate_serials("ABCDEF+001234GHI".to_string(), 0, 2).unwrap();
    assert_eq!(v, vec!["ABCDEF0001234GHI".to_string(), "ABCDEF0001235GHI".to_string()]);
}
