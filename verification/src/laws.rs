//! Laws of the operation surface: facts that relate several operations
//! or tie the access check to the permissions an account holds,
//! proved against the same spec functions the executable contracts use.

use vstd::prelude::*;

use crate::authority;
use crate::codec;
use crate::pallet;
use crate::pallet::StateView;
use crate::record;
use crate::store;
use crate::store::WorldKey;
use crate::types::Access;
use crate::types::Error;
use crate::types::Permission;
use crate::types::Route;

verus! {

/// The account holds a permission for the game carrying the elevated
/// access level.
pub open spec fn holds_internal_permission(
    m: Map<u64, Seq<Permission>>,
    who: u64,
    game: u64,
) -> bool {
    m.dom().contains(who) && exists|i: int|
        0 <= i < m[who].len() && (#[trigger] m[who][i]).game == game && m[who][i].access
            == Access::InternalExternal
}

/// An account passes the access check for an internal route on a game exactly
/// when it holds a permission for that game with the elevated access
/// level.  Every data operation authorizes through this check before it
/// touches a record.
pub proof fn lemma_internal_route_access(m: Map<u64, Seq<Permission>>, who: u64, game: u64)
    requires
        authority::registry_wf(m),
    ensures
        pallet::authorize_result(m, who, game, Route::Internal) is Ok <==> holds_internal_permission(
            m,
            who,
            game,
        ),
{
    if pallet::authorize_result(m, who, game, Route::Internal) is Ok {
        authority::lemma_game_index_valid(m[who], game);
    }
    if holds_internal_permission(m, who, game) {
        let i = choose|i: int|
            0 <= i < m[who].len() && (#[trigger] m[who][i]).game == game && m[who][i].access
                == Access::InternalExternal;
        authority::lemma_game_index_agrees(m[who], game, i);
    }
}

/// Registering a game a second time fails with `AlreadyRegistered`,
/// whoever calls: the first registration leaves an authority holding a
/// permission for the game.
pub proof fn lemma_register_game_exclusive(s: StateView, who1: u64, who2: u64, game: u64)
    requires
        pallet::register_game_result(s, who1, game) is Ok,
    ensures
        pallet::register_game_result(pallet::register_game_state(s, who1, game), who2, game)
            == Err::<(), Error>(Error::AlreadyRegistered),
{
    let s2 = pallet::register_game_state(s, who1, game);
    let perms = s2.authorities[who1];
    assert(perms[perms.len() - 1].game == game);
    assert(authority::has_game(perms, game));
    assert(s2.authorities.dom().contains(who1));
    assert(authority::game_exists(s2.authorities, game));
}

/// A world-data insert-or-replace is idempotent: writing the same
/// entry again leaves the world data exactly as after the first write.
pub proof fn lemma_world_update_idempotent(
    s: StateView,
    who: u64,
    game: u64,
    entry: record::EntryModel,
    route: Route,
)
    requires
        pallet::view_wf(s),
        pallet::world_update_result(s, who, game, entry, route) is Ok,
    ensures
        pallet::world_update_result(
            pallet::world_update_state(s, who, game, entry, route),
            who,
            game,
            entry,
            route,
        ) is Ok,
        pallet::world_update_state(
            pallet::world_update_state(s, who, game, entry, route),
            who,
            game,
            entry,
            route,
        ).world == pallet::world_update_state(s, who, game, entry, route).world,
{
    let k = WorldKey { game, route };
    let r0 = store::stored(s.world, k);
    let s1 = pallet::world_update_state(s, who, game, entry, route);
    let r1 = record::record_updated(r0, entry);
    assert(store::stored(s1.world, k) == r1);
    assert(record::unique_keys(r0));
    record::lemma_updated_unique(r0, entry);
    assert(record::update_fits(r1, entry));
    record::lemma_record_update_idempotent(r0, entry);
    let s2 = pallet::world_update_state(s1, who, game, entry, route);
    assert(s2.world =~= s1.world);
}

/// Granting the target a permission for a game it already has a
/// permission for is refused with `InvalidAuthority`: a second grant
/// for the same (account, game) pair never stacks a duplicate.
pub proof fn lemma_add_authority_no_duplicate(
    s: StateView,
    who1: u64,
    who2: u64,
    game: u64,
    target: u64,
    access1: Access,
    access2: Access,
)
    requires
        pallet::add_authority_result(s, who1, game, target, access1) is Ok,
    ensures
        pallet::add_authority_result(
            pallet::add_authority_state(s, who1, game, target, access1),
            who2,
            game,
            target,
            access2,
        ) == Err::<(), Error>(Error::InvalidAuthority),
{
    let s2 = pallet::add_authority_state(s, who1, game, target, access1);
    let perms = s2.authorities[target];
    assert(perms[perms.len() - 1].game == game);
    assert(authority::has_game(perms, game));
    assert(authority::is_authority(s2.authorities, target, game));
}

/// A numeric merge followed by a merge of the delta's additive inverse
/// modulo 2^32 restores the world data exactly: on the signed 32-bit
/// reading, adding some amount and then subtracting it round-trips.
pub proof fn lemma_world_mod_round_trip(
    s: StateView,
    who: u64,
    game: u64,
    entry_key: Seq<u8>,
    a: u32,
    b: u32,
    route: Route,
)
    requires
        pallet::view_wf(s),
        pallet::world_mod_result(s, who, game, (entry_key, codec::le_of_word(a)), route) is Ok,
        (a + b) % 0x1_0000_0000 == 0,
    ensures
        pallet::world_mod_result(
            pallet::world_mod_state(s, who, game, (entry_key, codec::le_of_word(a)), route),
            who,
            game,
            (entry_key, codec::le_of_word(b)),
            route,
        ) is Ok,
        pallet::world_mod_state(
            pallet::world_mod_state(s, who, game, (entry_key, codec::le_of_word(a)), route),
            who,
            game,
            (entry_key, codec::le_of_word(b)),
            route,
        ).world == s.world,
{
    let k = WorldKey { game, route };
    let r0 = store::stored(s.world, k);
    let e_a = (entry_key, codec::le_of_word(a));
    let e_b = (entry_key, codec::le_of_word(b));
    assert(s.world.dom().contains(k)) by {
        record::lemma_key_index_valid(r0, entry_key);
    }
    assert(record::unique_keys(r0));
    record::lemma_key_index_valid(r0, entry_key);
    let i = record::key_index(r0, entry_key);
    let s1 = pallet::world_mod_state(s, who, game, e_a, route);
    let r1 = record::record_merged(r0, e_a);
    assert(store::stored(s1.world, k) == r1);
    assert(r1[i].0 == entry_key);
    record::lemma_key_index_agrees(r1, entry_key, i);
    assert(record::has_key(r1, entry_key));
    assert(record::merge_sized(r1, e_b));
    record::lemma_record_merge_round_trip(r0, entry_key, a, b);
    let s2 = pallet::world_mod_state(s1, who, game, e_b, route);
    assert(s2.world =~= s.world);
}

/// Removing an entry never removes its record: the record stays
/// present, one entry shorter, and a later write of the same key
/// succeeds as an insert.
pub proof fn lemma_remove_keeps_record(
    s: StateView,
    who: u64,
    game: u64,
    entry_key: Seq<u8>,
    value: Seq<u8>,
    route: Route,
)
    requires
        pallet::view_wf(s),
        pallet::world_remove_result(s, who, game, entry_key, route) is Ok,
    ensures
        pallet::world_remove_state(s, who, game, entry_key, route).world.dom().contains(
            (WorldKey { game, route }),
        ),
        pallet::world_remove_state(s, who, game, entry_key, route).world[(WorldKey {
            game,
            route,
        })].len() + 1 == store::stored(s.world, (WorldKey { game, route })).len(),
        pallet::world_update_result(
            pallet::world_remove_state(s, who, game, entry_key, route),
            who,
            game,
            (entry_key, value),
            route,
        ) is Ok,
{
    let k = WorldKey { game, route };
    let r0 = store::stored(s.world, k);
    record::lemma_key_index_valid(r0, entry_key);
    let s1 = pallet::world_remove_state(s, who, game, entry_key, route);
    assert(store::stored(s1.world, k).len() < r0.len());
}

} // verus!
