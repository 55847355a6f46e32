use one_wire_thermo::format::{FormatError, Formatter};

#[test]
fn formatter_collects_writes() {
    let mut f = Formatter::new(vec![0u8; 64]);
    assert_eq!(f.write_str("temperature:\n "), Ok(()));
    assert_eq!(f.write_str("25.0625"), Ok(()));
    assert_eq!(f.covert_to_str(), Ok("temperature:\n 25.0625".to_string()));
}

#[test]
fn formatter_of_nothing_is_empty() {
    let f = Formatter::new(vec![0u8; 4]);
    assert_eq!(f.covert_to_str(), Ok(String::new()));
    let f = Formatter::new(Vec::new());
    assert_eq!(f.covert_to_str(), Ok(String::new()));
}

#[test]
fn formatter_fills_exactly() {
    let mut f = Formatter::new(vec![0u8; 5]);
    assert_eq!(f.write_str("ab"), Ok(()));
    assert_eq!(f.write_str("cde"), Ok(()));
    assert_eq!(f.covert_to_str(), Ok("abcde".to_string()));
}

#[test]
fn formatter_overflow_fails_for_good() {
    let mut f = Formatter::new(vec![0u8; 4]);
    assert_eq!(f.write_str("abc"), Ok(()));
    assert_eq!(f.write_str("de"), Err(FormatError));
    assert_eq!(f.write_str(""), Err(FormatError));
    assert_eq!(f.covert_to_str(), Err(FormatError));
}

#[test]
fn formatter_counts_bytes_not_chars() {
    let mut f = Formatter::new(vec![0u8; 3]);
    assert_eq!(f.write_str("°C"), Ok(()));
    assert_eq!(f.covert_to_str(), Ok("°C".to_string()));
    let mut f = Formatter::new(vec![0u8; 2]);
    assert_eq!(f.write_str("°C"), Err(FormatError));
}

#[test]
fn format_joins_pieces() {
    assert_eq!(
        one_wire_thermo::format::format(vec![0u8; 64], &["temperature:\n ", "85"]),
        Ok("temperature:\n 85".to_string())
    );
    assert_eq!(one_wire_thermo::format::format(vec![0u8; 0], &[]), Ok(String::new()));
}

#[test]
fn format_too_long_fails() {
    assert_eq!(one_wire_thermo::format::format(vec![0u8; 8], &["temperature:", "1"]), Err(FormatError));
    assert_eq!(one_wire_thermo::format::format(vec![0u8; 13], &["temperature:", "1"]), Ok("temperature:1".to_string()));
    assert_eq!(one_wire_thermo::format::format(vec![0u8; 12], &["temperature:", "1"]), Err(FormatError));
}
