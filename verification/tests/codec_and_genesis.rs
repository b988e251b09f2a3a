//! Byte-level encoding of the numeric values, and the bootstrap state.

use metasave::codec;
use metasave::Access;
use metasave::GenesisConfig;
use metasave::Route;

#[test]
fn encode_decode_little_endian() {
    assert_eq!(codec::encode_word(1), vec![1, 0, 0, 0]);
    assert_eq!(codec::encode_word(0x0403_0201), vec![1, 2, 3, 4]);
    assert_eq!(codec::decode_word(&vec![1, 2, 3, 4]), 0x0403_0201);
    assert_eq!(codec::decode_word(&vec![0x64, 0, 0, 0]), 100);
    let bytes = (-5i32).to_le_bytes().to_vec();
    assert_eq!(codec::decode_word(&bytes), (-5i32) as u32);
    assert_eq!(codec::encode_word((-5i32) as u32), bytes);
}

#[test]
fn merge_words_wraps_like_signed_addition() {
    assert_eq!(codec::merge_words(10, 32), 42);
    assert_eq!(codec::merge_words(u32::MAX, 1), 0);
    let a = 5i32 as u32;
    let b = (-5i32) as u32;
    assert_eq!(codec::merge_words(a, b), 0);
    assert_eq!(
        codec::merge_words(i32::MAX as u32, 1) as i32,
        i32::MIN
    );
}

#[test]
fn genesis_seeds_two_games() {
    let config = GenesisConfig {
        fps_game_authority: Some(10),
        fps_game_id: 1,
        platformer_game_authority: Some(20),
        platformer_game_id: 2,
    };
    let p = config.build().expect("both seed authorities are present");

    assert_eq!(p.is_authority(10, 1), (true, Access::InternalExternal));
    assert_eq!(p.is_authority(20, 2), (true, Access::InternalExternal));
    assert!(!p.is_authority(10, 2).0);
    assert!(!p.is_authority(20, 1).0);

    let time = b"Time".to_vec();
    assert_eq!(
        p.world_data(1, Route::External, &time).unwrap(),
        &vec![1, 0, 0, 0]
    );
    let kills = b"Kills".to_vec();
    let deaths = b"Deaths".to_vec();
    assert_eq!(
        p.world_data(2, Route::External, &kills).unwrap(),
        &vec![0, 0, 0, 0]
    );
    assert_eq!(
        p.world_data(2, Route::External, &deaths).unwrap(),
        &vec![0, 0, 0, 0]
    );
    assert_eq!(p.world_record_len(2, Route::External), Some(2));
}

#[test]
fn genesis_missing_authority_aborts() {
    let config = GenesisConfig {
        fps_game_authority: None,
        fps_game_id: 1,
        platformer_game_authority: Some(20),
        platformer_game_id: 2,
    };
    assert!(config.build().is_none());
    let config = GenesisConfig {
        fps_game_authority: Some(10),
        fps_game_id: 1,
        platformer_game_authority: None,
        platformer_game_id: 2,
    };
    assert!(config.build().is_none());
    assert!(GenesisConfig::default().build().is_none());
}

#[test]
fn genesis_authorities_can_operate() {
    let config = GenesisConfig {
        fps_game_authority: Some(10),
        fps_game_id: 1,
        platformer_game_authority: Some(20),
        platformer_game_id: 2,
    };
    let mut p = config.build().unwrap();
    let tick = metasave::DataEntry {
        key: b"Time".to_vec(),
        value: vec![1, 0, 0, 0],
    };
    assert_eq!(p.world_mod_data_record(10, 1, tick, Route::External), Ok(()));
    let time = b"Time".to_vec();
    assert_eq!(
        p.world_data(1, Route::External, &time).unwrap(),
        &vec![2, 0, 0, 0]
    );
}

#[test]
fn genesis_shared_authority_keeps_last_seed() {
    // Seeding both games onto one account binds the account to the
    // second seed's permission list, as a map insert replaces.
    let config = GenesisConfig {
        fps_game_authority: Some(10),
        fps_game_id: 1,
        platformer_game_authority: Some(10),
        platformer_game_id: 2,
    };
    let p = config.build().unwrap();
    assert!(!p.is_authority(10, 1).0);
    assert_eq!(p.is_authority(10, 2), (true, Access::InternalExternal));
    // Both world records are still seeded.
    let time = b"Time".to_vec();
    assert_eq!(p.world_data(1, Route::External, &time).unwrap(), &vec![1, 0, 0, 0]);
    let kills = b"Kills".to_vec();
    assert_eq!(p.world_data(2, Route::External, &kills).unwrap(), &vec![0, 0, 0, 0]);
}
