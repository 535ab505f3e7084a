use ulmake::crc::get_game_name_crc;
use ulmake::error::UlError;
use ulmake::game::{Game, CHUNK_SIZE};
use ulmake::status::GameStatus;
use ulmake::ulcfg::Ulcfg;

fn fragment_files(name: &str, serial: &str, count: usize) -> Vec<String> {
    let tag = get_game_name_crc(&String::from(name));
    (0..count).map(|k| format!("ul.{}.{}.0{}", tag, serial, k)).collect()
}

fn catalog_with(entries: &[(&str, &str, usize)]) -> (Ulcfg, Vec<String>) {
    let mut files: Vec<String> = vec![String::from("ul.cfg")];
    let mut ulcfg = Ulcfg::new();
    for (name, serial, count) in entries {
        let frags = fragment_files(name, serial, *count);
        files.extend(frags.iter().cloned());
        let game = Game::from_config(&files, String::from(*name));
        ulcfg.game_list.push(game);
    }
    (ulcfg, files)
}

#[test]
fn test_new_catalog_is_empty() {
    let ulcfg = Ulcfg::new();
    assert_eq!(ulcfg.game_list.len(), 0);
    assert_eq!(ulcfg.save(), Vec::<u8>::new());
}

#[test]
fn test_record_layout() {
    let (ulcfg, _) = catalog_with(&[("Foo", "SLXS_123.45", 2)]);
    let data = ulcfg.save();
    assert_eq!(data.len(), 64);
    // display name, null-padded to 32 bytes
    assert_eq!(&data[0..3], b"Foo");
    assert!(data[3..32].iter().all(|b| *b == 0));
    // the fixed `ul.` bytes and the padded serial
    assert_eq!(&data[32..35], b"ul.");
    assert_eq!(&data[35..46], b"SLXS_123.45");
    assert_eq!(data[46], 0x00);
    // fragment count, media type, reserved, magic, reserved
    assert_eq!(data[47], 2);
    assert_eq!(data[48], 0x14);
    assert!(data[49..53].iter().all(|b| *b == 0));
    assert_eq!(data[53], 0x08);
    assert!(data[54..64].iter().all(|b| *b == 0));
}

#[test]
fn test_save_load_roundtrip() {
    let (ulcfg, files) = catalog_with(&[
        ("Foo", "SLXS_123.45", 2),
        ("Bar", "SLXS_999.99", 1),
    ]);
    let data = ulcfg.save();
    assert_eq!(data.len(), 128);
    let loaded = Ulcfg::load(&data, &files).unwrap();
    assert_eq!(loaded.game_list.len(), 2);
    for k in 0..2 {
        assert_eq!(loaded.game_list[k].opl_name, ulcfg.game_list[k].opl_name);
        assert_eq!(loaded.game_list[k].serial(), ulcfg.game_list[k].serial());
        assert_eq!(
            loaded.game_list[k].num_chunks(),
            ulcfg.game_list[k].num_chunks()
        );
        assert!(matches!(loaded.states[k], GameStatus::Good));
    }
}

#[test]
fn test_load_ignores_short_tail() {
    let (ulcfg, files) = catalog_with(&[("Foo", "SLXS_123.45", 1)]);
    let mut data = ulcfg.save();
    data.push(0x42);
    let loaded = Ulcfg::load(&data, &files).unwrap();
    assert_eq!(loaded.game_list.len(), 1);
}

#[test]
fn test_load_flags_missing_fragments() {
    let (ulcfg, _) = catalog_with(&[("Foo", "SLXS_123.45", 2)]);
    let data = ulcfg.save();
    let empty_dir = vec![String::from("ul.cfg")];
    let loaded = Ulcfg::load(&data, &empty_dir).unwrap();
    assert_eq!(loaded.game_list[0].num_chunks(), 0);
    assert_eq!(loaded.states[0].text(), "NO DATA");
}

#[test]
fn test_load_flags_lost_fragments() {
    let (ulcfg, mut files) = catalog_with(&[("Foo", "SLXS_123.45", 2)]);
    let data = ulcfg.save();
    files.pop();
    let loaded = Ulcfg::load(&data, &files).unwrap();
    assert_eq!(loaded.game_list[0].num_chunks(), 1);
    assert_eq!(loaded.states[0].text(), "LOST DATA");
}

#[test]
fn test_load_rejects_invalid_name_bytes() {
    let mut data = vec![0u8; 64];
    data[0] = 0xFF;
    let files = vec![String::from("ul.cfg")];
    assert_eq!(Ulcfg::load(&data, &files).unwrap_err(), UlError::InvalidData);
}

#[test]
fn test_add_game_plans_and_appends() {
    // the 2.5 GiB registration scenario: three fragments and one record
    let mut ulcfg = Ulcfg::new();
    let serial = String::from("SLXS_123.45");
    let size: u64 = 2_684_354_560;
    let plans = ulcfg
        .add_game(
            String::from("foo.iso"),
            String::from("Foo"),
            size,
            1_000_000_000_000,
            &serial,
        )
        .unwrap();
    assert_eq!(plans.len(), 3);
    assert_eq!(plans[2].size, 536_870_912);
    let total: u64 = plans.iter().map(|p| p.size).sum();
    assert_eq!(total, size);
    assert_eq!(ulcfg.game_list.len(), 1);
    let data = ulcfg.save();
    assert_eq!(data.len(), 64);
    assert_eq!(data[47], 3);
}

#[test]
fn test_add_game_rejects_long_name() {
    let mut ulcfg = Ulcfg::new();
    let serial = String::from("SLXS_123.45");
    let long_name = String::from("fooooooooooooooooooooooooooooooo!");
    assert_eq!(long_name.len(), 33);
    let err = ulcfg
        .add_game(String::from("foo.iso"), long_name, CHUNK_SIZE, u64::MAX, &serial)
        .unwrap_err();
    assert_eq!(err, UlError::InvalidInput);
    assert_eq!(ulcfg.game_list.len(), 0);
}

#[test]
fn test_add_game_rejects_full_destination() {
    let mut ulcfg = Ulcfg::new();
    let serial = String::from("SLXS_123.45");
    let err = ulcfg
        .add_game(
            String::from("foo.iso"),
            String::from("Foo"),
            CHUNK_SIZE,
            CHUNK_SIZE,
            &serial,
        )
        .unwrap_err();
    assert_eq!(err, UlError::OutOfMemory);
    assert_eq!(ulcfg.game_list.len(), 0);
}

#[test]
fn test_delete_by_index_shifts_entries() {
    let (mut ulcfg, _) = catalog_with(&[
        ("Foo", "SLXS_123.45", 2),
        ("Bar", "SLXS_999.99", 1),
        ("Baz", "SLXS_111.11", 1),
    ]);
    let paths = ulcfg.delete_game_by_index(1).unwrap();
    assert_eq!(paths, fragment_files("Bar", "SLXS_999.99", 1));
    assert_eq!(ulcfg.game_list.len(), 2);
    assert_eq!(ulcfg.game_list[0].opl_name, "Foo");
    assert_eq!(ulcfg.game_list[1].opl_name, "Baz");
}

#[test]
fn test_delete_by_index_out_of_range() {
    let (mut ulcfg, _) = catalog_with(&[("Foo", "SLXS_123.45", 1)]);
    let err = ulcfg.delete_game_by_index(1).unwrap_err();
    assert_eq!(err, UlError::InvalidInput);
    assert_eq!(ulcfg.game_list.len(), 1);
}

#[test]
fn test_delete_by_name() {
    let (mut ulcfg, _) = catalog_with(&[
        ("Foo", "SLXS_123.45", 2),
        ("Bar", "SLXS_999.99", 1),
    ]);
    let paths = ulcfg.delete_game_by_name(String::from("Foo")).unwrap();
    assert_eq!(paths, fragment_files("Foo", "SLXS_123.45", 2));
    assert_eq!(ulcfg.game_list.len(), 1);
    assert_eq!(ulcfg.game_list[0].opl_name, "Bar");
}

#[test]
fn test_delete_by_name_not_found() {
    let (mut ulcfg, _) = catalog_with(&[("Foo", "SLXS_123.45", 1)]);
    let err = ulcfg.delete_game_by_name(String::from("Qux")).unwrap_err();
    assert_eq!(err, UlError::InvalidInput);
    assert_eq!(ulcfg.game_list.len(), 1);
}
