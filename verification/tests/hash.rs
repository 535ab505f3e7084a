use ulmake::crc::get_game_name_crc;
use ulmake::numfmt::{u32_to_hex, u64_to_dec};

#[test]
fn test_shortest_allowed_lowercase() {
    let name = String::from("f");
    let name_crc = get_game_name_crc(&name);
    assert_eq!(name_crc, String::from("8433E5CC"));
}

#[test]
fn test_shortest_allowed_uppercase() {
    let name = String::from("F");
    let name_crc = get_game_name_crc(&name);
    assert_eq!(name_crc, String::from("A490D3EA"));
}

#[test]
fn test_longest_allowed_lowercase() {
    let name = String::from("fooooooooooooooooooooooooooooooo");
    let name_crc = get_game_name_crc(&name);
    assert_eq!(name_crc, String::from("84BA9D95"));
}

#[test]
fn test_longest_allowed_uppercase() {
    // really shouting now
    let name = String::from("FOOOOOOOOOOOOOOOOOOOOOOOOOOOOOOO");
    let name_crc = get_game_name_crc(&name);
    assert_eq!(name_crc, String::from("8CAF0142"));
}

#[test]
fn test_hash_is_deterministic() {
    let name = String::from("Some Game (Disc 2)");
    assert_eq!(get_game_name_crc(&name), get_game_name_crc(&name));
}

#[test]
fn test_hex_rendering() {
    assert_eq!(u32_to_hex(0), "0");
    assert_eq!(u32_to_hex(0x84BA9D95), "84BA9D95");
    assert_eq!(u32_to_hex(0x1A), "1A");
}

#[test]
fn test_dec_rendering() {
    assert_eq!(u64_to_dec(0), "0");
    assert_eq!(u64_to_dec(10), "10");
    assert_eq!(u64_to_dec(1073741824), "1073741824");
}
