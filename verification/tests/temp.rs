use liquidtempd::temp::{
    first_token, input_name_for, is_hwmon_dir, is_label_file, parse_decimal, TempError,
    TemperatureParser,
};

#[test]
fn test_parse_reading() {
    let p = TemperatureParser::new(&String::from("Tctl"));
    assert_eq!(p.parse(b"48000\n"), Ok(48000));
    assert_eq!(p.parse(b"0\n"), Ok(0));
    assert_eq!(p.parse(b"-5500\n"), Ok(-5500));
    assert_eq!(p.parse(b"  42 \n"), Ok(42));
    assert_eq!(p.parse(b"0048000\n"), Ok(48000));
}

#[test]
fn test_parse_rejects_garbage() {
    let p = TemperatureParser::new(&String::from("Tctl"));
    assert_eq!(p.parse(b"abc\n"), Err(TempError::Malformed));
    assert_eq!(p.parse(b"4-2\n"), Err(TempError::Malformed));
    assert_eq!(p.parse(b"-\n"), Err(TempError::Malformed));
    assert_eq!(p.parse(b"\n \t"), Err(TempError::NoToken));
    assert_eq!(p.parse(b""), Err(TempError::NoToken));
}

#[test]
fn test_parse_range() {
    assert_eq!(parse_decimal(b"9223372036854775807"), Ok(i64::MAX));
    assert_eq!(parse_decimal(b"9223372036854775808"), Err(TempError::OutOfRange));
    assert_eq!(parse_decimal(b"-9223372036854775808"), Ok(i64::MIN));
    assert_eq!(parse_decimal(b"-9223372036854775809"), Err(TempError::OutOfRange));
    assert_eq!(parse_decimal(b"99999999999999999999999"), Err(TempError::OutOfRange));
    assert_eq!(parse_decimal(b"-0"), Ok(0));
    assert_eq!(parse_decimal(b""), Err(TempError::Malformed));
}

#[test]
fn test_first_token_strips_whitespace() {
    assert_eq!(first_token(b"48000\n"), Some(b"48000".to_vec()));
    assert_eq!(first_token(b"  Package id\n"), Some(b"Package".to_vec()));
    assert_eq!(first_token(b" \t\n"), None);
}

#[test]
fn test_label_match_takes_first_token() {
    let p = TemperatureParser::new(&String::from("Tctl"));
    assert!(p.matches_label(b"Tctl\n"));
    assert!(!p.matches_label(b"Tdie\n"));
    assert!(!p.matches_label(b"\n"));
    assert!(!p.matches_label(b"Tctl2\n"));
}

#[test]
fn test_hwmon_entry_names() {
    assert!(is_hwmon_dir(b"hwmon3"));
    assert!(is_hwmon_dir(b"hwmon"));
    assert!(!is_hwmon_dir(b"cooling_device0"));
    assert!(!is_hwmon_dir(b"hw"));
}

#[test]
fn test_label_file_names() {
    assert!(is_label_file(b"temp1_label"));
    assert!(!is_label_file(b"temp1_input"));
    assert!(!is_label_file(b"label"));
    assert_eq!(input_name_for(b"temp1_label"), Some(b"temp1_input".to_vec()));
    assert_eq!(input_name_for(b"temp1_input"), None);
    assert_eq!(input_name_for(b"_label"), Some(b"_input".to_vec()));
}
