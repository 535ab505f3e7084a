use ulmake::parser::{compose_from_str, parse_to_string};

#[test]
fn test_parse_to_string() {
    let buffer = vec![0x66, 0x6f, 0x6f, 0x00, 0x00];
    let parsed = parse_to_string(&buffer, 0, 5);
    assert_eq!(parsed, String::from("foo"));
}

#[test]
fn test_compose_from_string() {
    let bytes = compose_from_str("foo", 5);
    let expected = vec![0x66, 0x6f, 0x6f, 0x00, 0x00];
    let matching = expected.iter().zip(bytes.iter()).all(|(x, y)| x == y);
    assert!(matching);
}

#[test]
fn test_compose_parse_roundtrip() {
    let bytes = compose_from_str("Some Game", 32);
    assert_eq!(bytes.len(), 32);
    let parsed = parse_to_string(&bytes, 0, 32);
    assert_eq!(parsed, String::from("Some Game"));
}

#[test]
fn test_parse_keeps_interior_nulls() {
    // only the trailing padding is stripped; an interior null stays
    let buffer = vec![0x66, 0x00, 0x6f, 0x00, 0x00];
    let parsed = parse_to_string(&buffer, 0, 5);
    assert_eq!(parsed, String::from("f\0o"));
}

#[test]
fn test_parse_reads_window_only() {
    let buffer = vec![0x61, 0x62, 0x63, 0x64, 0x65];
    let parsed = parse_to_string(&buffer, 1, 3);
    assert_eq!(parsed, String::from("bcd"));
}
