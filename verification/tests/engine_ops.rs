//! Registration, authority management and the authorization check.

use metasave::Access;
use metasave::DataEntry;
use metasave::Error;
use metasave::Pallet;
use metasave::Route;

fn le(v: i32) -> Vec<u8> {
    v.to_le_bytes().to_vec()
}

#[test]
fn register_game_grants_elevated_access() {
    let mut p = Pallet::new();
    assert_eq!(p.register_game(1, 7), Ok(()));
    let (is_auth, access) = p.is_authority(1, 7);
    assert!(is_auth);
    assert_eq!(access, Access::InternalExternal);
}

#[test]
fn register_game_twice_fails_already_registered() {
    let mut p = Pallet::new();
    assert_eq!(p.register_game(1, 7), Ok(()));
    assert_eq!(p.register_game(2, 7), Err(Error::AlreadyRegistered));
    assert_eq!(p.register_game(1, 7), Err(Error::AlreadyRegistered));
}

#[test]
fn game_exists_iff_some_authority_holds_it() {
    let mut p = Pallet::new();
    assert!(!p.game_exists(7));
    assert_eq!(p.register_game(1, 7), Ok(()));
    assert!(p.game_exists(7));
    assert!(!p.game_exists(8));
    assert_eq!(p.remove_authority(1, 7, 1), Ok(()));
    assert!(!p.game_exists(7));
}

#[test]
fn add_authority_requires_caller_authority() {
    let mut p = Pallet::new();
    assert_eq!(
        p.add_authority(1, 7, 2, Access::External),
        Err(Error::InvalidAuthority)
    );
    assert_eq!(p.register_game(1, 7), Ok(()));
    assert_eq!(p.add_authority(1, 7, 2, Access::External), Ok(()));
    let (is_auth, access) = p.is_authority(2, 7);
    assert!(is_auth);
    assert_eq!(access, Access::External);
}

#[test]
fn add_authority_twice_fails_invalid_authority() {
    let mut p = Pallet::new();
    assert_eq!(p.register_game(1, 7), Ok(()));
    assert_eq!(p.add_authority(1, 7, 2, Access::External), Ok(()));
    assert_eq!(
        p.add_authority(1, 7, 2, Access::InternalExternal),
        Err(Error::InvalidAuthority)
    );
    assert_eq!(p.permissions_of(2).len(), 1);
}

#[test]
fn remove_authority_self_and_other() {
    let mut p = Pallet::new();
    assert_eq!(p.register_game(1, 7), Ok(()));
    assert_eq!(p.add_authority(1, 7, 2, Access::External), Ok(()));
    assert_eq!(p.remove_authority(1, 7, 2), Ok(()));
    assert!(!p.is_authority(2, 7).0);
    assert_eq!(p.remove_authority(1, 7, 1), Ok(()));
    assert!(!p.is_authority(1, 7).0);
}

#[test]
fn remove_authority_errors() {
    let mut p = Pallet::new();
    assert_eq!(p.remove_authority(1, 7, 1), Err(Error::InvalidAuthority));
    assert_eq!(p.register_game(1, 7), Ok(()));
    assert_eq!(p.remove_authority(1, 7, 2), Err(Error::InvalidAuthority));
    assert_eq!(p.remove_authority(2, 7, 1), Err(Error::InvalidAuthority));
}

#[test]
fn internal_route_needs_elevated_access() {
    let mut p = Pallet::new();
    assert_eq!(p.register_game(1, 7), Ok(()));
    assert_eq!(p.add_authority(1, 7, 2, Access::External), Ok(()));

    let entry = DataEntry {
        key: b"hp".to_vec(),
        value: le(100),
    };
    assert_eq!(
        p.world_update_data_record(2, 7, entry, Route::Internal),
        Err(Error::InvalidAccess)
    );
    let entry = DataEntry {
        key: b"hp".to_vec(),
        value: le(100),
    };
    assert_eq!(
        p.world_update_data_record(1, 7, entry, Route::Internal),
        Ok(())
    );
}

#[test]
fn internal_route_access_follows_permission_level() {
    let mut p = Pallet::new();
    assert_eq!(p.register_game(1, 7), Ok(()));
    assert_eq!(p.add_authority(1, 7, 2, Access::External), Ok(()));
    assert_eq!(p.add_authority(1, 7, 3, Access::InternalExternal), Ok(()));

    assert_eq!(p.is_authorized_call(1, 7, Route::Internal), Ok(()));
    assert_eq!(
        p.is_authorized_call(2, 7, Route::Internal),
        Err(Error::InvalidAccess)
    );
    assert_eq!(p.is_authorized_call(3, 7, Route::Internal), Ok(()));
    assert_eq!(
        p.is_authorized_call(4, 7, Route::Internal),
        Err(Error::InvalidAuthority)
    );
    assert_eq!(p.is_authorized_call(2, 7, Route::External), Ok(()));
}

#[test]
fn permission_list_capacity_is_enforced() {
    let mut p = Pallet::new();
    for g in 0..256u64 {
        assert_eq!(p.register_game(1, g), Ok(()));
    }
    assert_eq!(p.register_game(1, 1000), Err(Error::CapacityExceeded));
    assert_eq!(p.permissions_of(1).len(), 256);
}

#[test]
fn default_access_is_external() {
    assert_eq!(Access::default(), Access::External);
}

#[test]
fn end_to_end_authority_flow() {
    let mut p = Pallet::new();
    // A1 registers G1 and gains elevated access.
    assert_eq!(p.register_game(1, 1), Ok(()));
    assert_eq!(p.is_authority(1, 1), (true, Access::InternalExternal));

    // A1 writes a world external entry ("hp", 100 LE).
    let entry = DataEntry {
        key: b"hp".to_vec(),
        value: vec![0x64, 0x00, 0x00, 0x00],
    };
    assert_eq!(p.world_update_data_record(1, 1, entry, Route::External), Ok(()));

    // A2 without a permission is rejected.
    let entry = DataEntry {
        key: b"hp".to_vec(),
        value: vec![0x65, 0x00, 0x00, 0x00],
    };
    assert_eq!(
        p.world_update_data_record(2, 1, entry, Route::External),
        Err(Error::InvalidAuthority)
    );

    // A1 grants A2 external access; external now works, internal not.
    assert_eq!(p.add_authority(1, 1, 2, Access::External), Ok(()));
    let entry = DataEntry {
        key: b"hp".to_vec(),
        value: vec![0x65, 0x00, 0x00, 0x00],
    };
    assert_eq!(p.world_update_data_record(2, 1, entry, Route::External), Ok(()));
    let entry = DataEntry {
        key: b"hp".to_vec(),
        value: vec![0x66, 0x00, 0x00, 0x00],
    };
    assert_eq!(
        p.world_update_data_record(2, 1, entry, Route::Internal),
        Err(Error::InvalidAccess)
    );

    let key = b"hp".to_vec();
    assert_eq!(p.world_data(1, Route::External, &key).unwrap(), &vec![0x65, 0x00, 0x00, 0x00]);
}

#[test]
fn permissions_of_lists_grants() {
    let mut p = Pallet::new();
    assert!(p.permissions_of(1).is_empty());
    assert_eq!(p.register_game(1, 7), Ok(()));
    assert_eq!(p.register_game(1, 8), Ok(()));
    let perms = p.permissions_of(1);
    assert_eq!(perms.len(), 2);
    assert_eq!(perms[0].game, 7);
    assert_eq!(perms[0].access, Access::InternalExternal);
    assert_eq!(perms[1].game, 8);
}

#[test]
fn revoke_moves_last_permission_into_gap() {
    let mut p = Pallet::new();
    assert_eq!(p.register_game(1, 7), Ok(()));
    assert_eq!(p.register_game(1, 8), Ok(()));
    assert_eq!(p.register_game(1, 9), Ok(()));
    assert_eq!(p.remove_authority(1, 7, 1), Ok(()));
    let perms = p.permissions_of(1);
    assert_eq!(perms.len(), 2);
    assert_eq!(perms[0].game, 9);
    assert_eq!(perms[1].game, 8);
    assert!(!p.is_authority(1, 7).0);
    assert!(p.is_authority(1, 8).0);
    assert!(p.is_authority(1, 9).0);
}

#[test]
fn user_routes_respect_access_levels() {
    let mut p = Pallet::new();
    assert_eq!(p.register_game(1, 7), Ok(()));
    assert_eq!(p.add_authority(1, 7, 2, Access::External), Ok(()));
    let entry = DataEntry {
        key: b"xp".to_vec(),
        value: le(5),
    };
    assert_eq!(
        p.user_update_data_record(2, 7, 2, Route::Internal, entry),
        Err(Error::InvalidAccess)
    );
    let entry = DataEntry {
        key: b"xp".to_vec(),
        value: le(5),
    };
    assert_eq!(
        p.user_update_data_record(1, 7, 2, Route::Internal, entry),
        Ok(())
    );
}
