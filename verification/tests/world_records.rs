//! World and user record operations: insert-or-replace, removal and the
//! numeric merge, with their bounds and error cases.

use metasave::DataEntry;
use metasave::Error;
use metasave::Event;
use metasave::Pallet;
use metasave::Route;

fn le(v: i32) -> Vec<u8> {
    v.to_le_bytes().to_vec()
}

fn entry(key: &[u8], value: Vec<u8>) -> DataEntry {
    DataEntry {
        key: key.to_vec(),
        value,
    }
}

fn game_with_authority() -> Pallet {
    let mut p = Pallet::new();
    assert_eq!(p.register_game(1, 7), Ok(()));
    p
}

#[test]
fn update_creates_then_replaces() {
    let mut p = game_with_authority();
    assert_eq!(
        p.world_update_data_record(1, 7, entry(b"hp", le(100)), Route::External),
        Ok(())
    );
    let key = b"hp".to_vec();
    assert_eq!(p.world_data(7, Route::External, &key).unwrap(), &le(100));
    assert_eq!(
        p.world_update_data_record(1, 7, entry(b"hp", le(55)), Route::External),
        Ok(())
    );
    assert_eq!(p.world_data(7, Route::External, &key).unwrap(), &le(55));
    assert_eq!(p.world_record_len(7, Route::External), Some(1));
}

#[test]
fn update_same_value_twice_is_idempotent() {
    let mut p = game_with_authority();
    assert_eq!(
        p.world_update_data_record(1, 7, entry(b"hp", le(100)), Route::External),
        Ok(())
    );
    assert_eq!(
        p.world_update_data_record(1, 7, entry(b"hp", le(100)), Route::External),
        Ok(())
    );
    let key = b"hp".to_vec();
    assert_eq!(p.world_data(7, Route::External, &key).unwrap(), &le(100));
    assert_eq!(p.world_record_len(7, Route::External), Some(1));
}

#[test]
fn routes_hold_separate_records() {
    let mut p = game_with_authority();
    assert_eq!(
        p.world_update_data_record(1, 7, entry(b"a", le(1)), Route::External),
        Ok(())
    );
    assert_eq!(
        p.world_update_data_record(1, 7, entry(b"a", le(2)), Route::Internal),
        Ok(())
    );
    let key = b"a".to_vec();
    assert_eq!(p.world_data(7, Route::External, &key).unwrap(), &le(1));
    assert_eq!(p.world_data(7, Route::Internal, &key).unwrap(), &le(2));
}

#[test]
fn remove_missing_key_fails_not_found() {
    let mut p = game_with_authority();
    assert_eq!(
        p.world_remove_data_record(1, 7, b"hp".to_vec(), Route::External),
        Err(Error::NotFound)
    );
    assert_eq!(
        p.world_update_data_record(1, 7, entry(b"hp", le(100)), Route::External),
        Ok(())
    );
    assert_eq!(
        p.world_remove_data_record(1, 7, b"mp".to_vec(), Route::External),
        Err(Error::NotFound)
    );
}

#[test]
fn remove_last_entry_leaves_empty_record() {
    let mut p = game_with_authority();
    assert_eq!(
        p.world_update_data_record(1, 7, entry(b"hp", le(100)), Route::External),
        Ok(())
    );
    assert_eq!(
        p.world_remove_data_record(1, 7, b"hp".to_vec(), Route::External),
        Ok(())
    );
    // The record stays present, merely empty.
    assert_eq!(p.world_record_len(7, Route::External), Some(0));
    let key = b"hp".to_vec();
    assert!(p.world_data(7, Route::External, &key).is_none());
    // A later update on the same key succeeds as an insert.
    assert_eq!(
        p.world_update_data_record(1, 7, entry(b"hp", le(3)), Route::External),
        Ok(())
    );
    assert_eq!(p.world_data(7, Route::External, &key).unwrap(), &le(3));
}

#[test]
fn merge_adds_little_endian_values() {
    let mut p = game_with_authority();
    assert_eq!(
        p.world_update_data_record(1, 7, entry(b"score", le(10)), Route::External),
        Ok(())
    );
    assert_eq!(
        p.world_mod_data_record(1, 7, entry(b"score", le(32)), Route::External),
        Ok(())
    );
    let key = b"score".to_vec();
    assert_eq!(p.world_data(7, Route::External, &key).unwrap(), &le(42));
}

#[test]
fn merge_round_trip_restores_seed() {
    let mut p = game_with_authority();
    assert_eq!(
        p.world_update_data_record(1, 7, entry(b"k", le(0)), Route::External),
        Ok(())
    );
    assert_eq!(
        p.world_mod_data_record(1, 7, entry(b"k", le(5)), Route::External),
        Ok(())
    );
    assert_eq!(
        p.world_mod_data_record(1, 7, entry(b"k", le(-5)), Route::External),
        Ok(())
    );
    let key = b"k".to_vec();
    assert_eq!(p.world_data(7, Route::External, &key).unwrap(), &le(0));
    assert_eq!(
        p.world_data(7, Route::External, &key).unwrap(),
        &vec![0x00, 0x00, 0x00, 0x00]
    );
}

#[test]
fn merge_wraps_on_overflow() {
    let mut p = game_with_authority();
    assert_eq!(
        p.world_update_data_record(1, 7, entry(b"k", le(i32::MAX)), Route::External),
        Ok(())
    );
    assert_eq!(
        p.world_mod_data_record(1, 7, entry(b"k", le(1)), Route::External),
        Ok(())
    );
    let key = b"k".to_vec();
    assert_eq!(p.world_data(7, Route::External, &key).unwrap(), &le(i32::MIN));
}

#[test]
fn merge_wrong_width_fails_bad_size_and_keeps_value() {
    let mut p = game_with_authority();
    assert_eq!(
        p.world_update_data_record(1, 7, entry(b"k", le(9)), Route::External),
        Ok(())
    );
    assert_eq!(
        p.world_mod_data_record(1, 7, entry(b"k", vec![1, 2, 3]), Route::External),
        Err(Error::BadSize)
    );
    assert_eq!(
        p.world_mod_data_record(1, 7, entry(b"k", vec![1, 2, 3, 4, 5]), Route::External),
        Err(Error::BadSize)
    );
    let key = b"k".to_vec();
    assert_eq!(p.world_data(7, Route::External, &key).unwrap(), &le(9));
}

#[test]
fn merge_on_wide_stored_value_fails_bad_size() {
    let mut p = game_with_authority();
    assert_eq!(
        p.world_update_data_record(1, 7, entry(b"k", vec![1, 2, 3]), Route::External),
        Ok(())
    );
    assert_eq!(
        p.world_mod_data_record(1, 7, entry(b"k", le(1)), Route::External),
        Err(Error::BadSize)
    );
    let key = b"k".to_vec();
    assert_eq!(p.world_data(7, Route::External, &key).unwrap(), &vec![1, 2, 3]);
}

#[test]
fn merge_missing_fails_not_found() {
    let mut p = game_with_authority();
    assert_eq!(
        p.world_mod_data_record(1, 7, entry(b"k", le(1)), Route::External),
        Err(Error::NotFound)
    );
    assert_eq!(
        p.world_update_data_record(1, 7, entry(b"other", le(1)), Route::External),
        Ok(())
    );
    assert_eq!(
        p.world_mod_data_record(1, 7, entry(b"k", le(1)), Route::External),
        Err(Error::NotFound)
    );
}

#[test]
fn record_capacity_is_enforced() {
    let mut p = game_with_authority();
    for i in 0..256u32 {
        let key = i.to_le_bytes().to_vec();
        let e = DataEntry {
            key,
            value: le(1),
        };
        assert_eq!(p.world_update_data_record(1, 7, e, Route::External), Ok(()));
    }
    let e = DataEntry {
        key: 999u32.to_le_bytes().to_vec(),
        value: le(1),
    };
    assert_eq!(
        p.world_update_data_record(1, 7, e, Route::External),
        Err(Error::CapacityExceeded)
    );
    // Replacing a present key still fits.
    let e = DataEntry {
        key: 3u32.to_le_bytes().to_vec(),
        value: le(2),
    };
    assert_eq!(p.world_update_data_record(1, 7, e, Route::External), Ok(()));
}

#[test]
fn update_emits_event_merge_does_not() {
    let mut p = game_with_authority();
    assert_eq!(
        p.world_update_data_record(1, 7, entry(b"k", le(1)), Route::External),
        Ok(())
    );
    assert_eq!(p.events.len(), 1);
    match &p.events[0] {
        Event::WorldDataUpdate(game, e) => {
            assert_eq!(*game, 7);
            assert_eq!(e.key, b"k".to_vec());
            assert_eq!(e.value, le(1));
        }
        other => panic!("unexpected event {:?}", other),
    }
    assert_eq!(
        p.world_mod_data_record(1, 7, entry(b"k", le(1)), Route::External),
        Ok(())
    );
    assert_eq!(p.events.len(), 1);
    // A failed update emits nothing either.
    assert_eq!(
        p.world_update_data_record(9, 7, entry(b"k", le(1)), Route::External),
        Err(Error::InvalidAuthority)
    );
    assert_eq!(p.events.len(), 1);
}

#[test]
fn user_records_are_scoped_per_user() {
    let mut p = game_with_authority();
    assert_eq!(
        p.user_update_data_record(1, 7, 100, Route::External, entry(b"xp", le(5))),
        Ok(())
    );
    assert_eq!(
        p.user_update_data_record(1, 7, 200, Route::External, entry(b"xp", le(9))),
        Ok(())
    );
    let key = b"xp".to_vec();
    assert_eq!(p.user_data(7, 100, Route::External, &key).unwrap(), &le(5));
    assert_eq!(p.user_data(7, 200, Route::External, &key).unwrap(), &le(9));
}

#[test]
fn user_remove_mirrors_world_remove() {
    let mut p = game_with_authority();
    assert_eq!(
        p.user_remove_data_record(1, 7, 100, Route::External, b"xp".to_vec()),
        Err(Error::NotFound)
    );
    assert_eq!(
        p.user_update_data_record(1, 7, 100, Route::External, entry(b"xp", le(5))),
        Ok(())
    );
    assert_eq!(
        p.user_remove_data_record(1, 7, 100, Route::External, b"xp".to_vec()),
        Ok(())
    );
    let key = b"xp".to_vec();
    assert!(p.user_data(7, 100, Route::External, &key).is_none());
    // The other user's data is untouched by authority checks on the caller.
    assert_eq!(
        p.user_update_data_record(2, 7, 100, Route::External, entry(b"xp", le(1))),
        Err(Error::InvalidAuthority)
    );
}

#[test]
fn removal_uses_swap_with_last() {
    let mut p = game_with_authority();
    for (k, v) in [(b"a", 1), (b"b", 2), (b"c", 3)] {
        assert_eq!(
            p.world_update_data_record(1, 7, entry(k, le(v)), Route::External),
            Ok(())
        );
    }
    assert_eq!(
        p.world_remove_data_record(1, 7, b"a".to_vec(), Route::External),
        Ok(())
    );
    assert_eq!(p.world_record_len(7, Route::External), Some(2));
    let b = b"b".to_vec();
    let c = b"c".to_vec();
    assert_eq!(p.world_data(7, Route::External, &b).unwrap(), &le(2));
    assert_eq!(p.world_data(7, Route::External, &c).unwrap(), &le(3));
    assert!(p.world_data(7, Route::External, &b"a".to_vec()).is_none());
}
