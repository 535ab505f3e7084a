use ulmake::crc::get_game_name_crc;
use ulmake::error::UlError;
use ulmake::game::{Game, CHUNK_SIZE};
use ulmake::iso::{list_game_chunks, str_contains, str_lex_le, GameChunk};

#[test]
fn test_gamechunk_get_serial() {
    let chunk = GameChunk::from(String::from("ul.84BA9D95.SLXS_123.45.00"));
    let serial = chunk.serial().unwrap();
    assert_eq!(serial, String::from("SLXS_123.45"))
}

#[test]
fn test_gamechunk_get_serial_file_not_found() {
    // a name that is no fragment filename yields no serial
    let chunk = GameChunk::from(String::from("00000000"));
    let serial = chunk.serial();
    assert!(serial.is_err());
}

#[test]
fn test_gamechunk_serial_wrong_segments() {
    let chunk = GameChunk::from(String::from("ul.84BA9D95.SLXS_12345.00"));
    assert_eq!(chunk.serial().unwrap_err(), UlError::InvalidData);
    let chunk = GameChunk::from(String::from("foo"));
    assert_eq!(chunk.serial().unwrap_err(), UlError::InvalidData);
}

#[test]
fn test_str_contains() {
    assert!(str_contains("ul.84BA9D95.SLXS_123.45.00", "84BA9D95"));
    assert!(!str_contains("ul.00000000.SLXS_123.45.00", "84BA9D95"));
    assert!(str_contains("abc", ""));
    assert!(!str_contains("ab", "abc"));
}

#[test]
fn test_str_lex_le() {
    let a = String::from("ul.x.00");
    let b = String::from("ul.x.01");
    assert!(str_lex_le(&a, &b));
    assert!(!str_lex_le(&b, &a));
    assert!(str_lex_le(&a, &a));
    assert!(str_lex_le(&String::from("ab"), &String::from("abc")));
}

#[test]
fn test_list_game_chunks_sorts_matches() {
    let files = vec![
        String::from("ul.84BA9D95.SLXS_123.45.01"),
        String::from("ul.cfg"),
        String::from("ul.84BA9D95.SLXS_123.45.00"),
        String::from("ul.00000000.SLXS_999.99.00"),
    ];
    let tag = String::from("84BA9D95");
    let chunks = list_game_chunks(&files, &tag).unwrap();
    assert_eq!(
        chunks,
        vec![
            String::from("ul.84BA9D95.SLXS_123.45.00"),
            String::from("ul.84BA9D95.SLXS_123.45.01"),
        ]
    );
}

#[test]
fn test_list_game_chunks_no_match() {
    let files = vec![String::from("ul.cfg")];
    let tag = String::from("84BA9D95");
    assert_eq!(list_game_chunks(&files, &tag).unwrap_err(), UlError::NotFound);
}

#[test]
fn test_from_iso_single_chunk() {
    let game = Game::from_iso(String::from("game.iso"), String::from("Foo"));
    assert_eq!(game.num_chunks(), 1);
    assert_eq!(game.serial(), String::from("NOT FOUND"));
    assert_eq!(game.crc_name, get_game_name_crc(&String::from("Foo")));
}

#[test]
fn test_from_config_discovers_fragments() {
    let tag = get_game_name_crc(&String::from("Foo"));
    let files = vec![
        format!("ul.{}.SLXS_123.45.01", tag),
        format!("ul.{}.SLXS_123.45.00", tag),
        String::from("ul.cfg"),
    ];
    let game = Game::from_config(&files, String::from("Foo"));
    assert_eq!(game.num_chunks(), 2);
    assert_eq!(game.serial(), String::from("SLXS_123.45"));
}

#[test]
fn test_create_chunks_two_and_a_half_gigs() {
    // a 2.5 GiB image splits into three fragments: two full, one half
    let mut game = Game::from_iso(String::from("foo.iso"), String::from("Foo"));
    let serial = String::from("SLXS_123.45");
    let size: u64 = 2_684_354_560;
    let plans = game.create_chunks(size, &serial).unwrap();
    let tag = get_game_name_crc(&String::from("Foo"));
    assert_eq!(plans.len(), 3);
    assert_eq!(plans[0].name, format!("ul.{}.SLXS_123.45.00", tag));
    assert_eq!(plans[1].name, format!("ul.{}.SLXS_123.45.01", tag));
    assert_eq!(plans[2].name, format!("ul.{}.SLXS_123.45.02", tag));
    assert_eq!(plans[0].offset, 0);
    assert_eq!(plans[1].offset, CHUNK_SIZE);
    assert_eq!(plans[2].offset, 2 * CHUNK_SIZE);
    assert_eq!(plans[0].size, CHUNK_SIZE);
    assert_eq!(plans[1].size, CHUNK_SIZE);
    assert_eq!(plans[2].size, 536_870_912);
    let total: u64 = plans.iter().map(|p| p.size).sum();
    assert_eq!(total, size);
    assert_eq!(game.num_chunks(), 3);
    assert_eq!(game.serial(), serial);
}

#[test]
fn test_create_chunks_exact_multiple() {
    let mut game = Game::from_iso(String::from("foo.iso"), String::from("Foo"));
    let serial = String::from("SLXS_123.45");
    let plans = game.create_chunks(2 * CHUNK_SIZE, &serial).unwrap();
    assert_eq!(plans.len(), 2);
    assert_eq!(plans[1].size, CHUNK_SIZE);
}

#[test]
fn test_create_chunks_rejects_resplit() {
    let tag = get_game_name_crc(&String::from("Foo"));
    let files = vec![
        format!("ul.{}.SLXS_123.45.00", tag),
        format!("ul.{}.SLXS_123.45.01", tag),
    ];
    let mut game = Game::from_config(&files, String::from("Foo"));
    let serial = String::from("SLXS_123.45");
    let err = game.create_chunks(CHUNK_SIZE, &serial).unwrap_err();
    assert_eq!(err, UlError::InvalidInput);
    assert_eq!(game.num_chunks(), 2);
}

#[test]
fn test_delete_chunks_lists_paths() {
    let tag = get_game_name_crc(&String::from("Foo"));
    let files = vec![
        format!("ul.{}.SLXS_123.45.00", tag),
        format!("ul.{}.SLXS_123.45.01", tag),
    ];
    let game = Game::from_config(&files, String::from("Foo"));
    let paths = game.delete_chunks();
    assert_eq!(paths, files);
}

#[test]
fn test_formatted_size() {
    assert_eq!(Game::formatted_size(0), "0.00GB");
    assert_eq!(Game::formatted_size(358_400), "0.00GB");
    assert_eq!(Game::formatted_size(5_000_000), "0.01GB");
    assert_eq!(Game::formatted_size(1_000_000_000), "1.00GB");
    assert_eq!(Game::formatted_size(1_500_000_000), "1.50GB");
    assert_eq!(Game::formatted_size(2_684_354_560), "2.68GB");
}
