//! The operation surface of the store: a single state value holding the
//! authority registry, the world and user data maps and the emitted
//! events, with one method per operation.  Every operation authorizes
//! first and commits or fails as a whole: on any error the state is
//! unchanged.
//!
//! Each operation's outcome and successor state are given by a spec
//! function of the current state, so that facts about chains of
//! operations can be stated and proved against the same definitions the
//! executable contracts use.

use vstd::prelude::*;

use crate::authority;
use crate::authority::Authorities;
use crate::record;
use crate::codec;
use crate::record::DataRecord;
use crate::record::EntryModel;
use crate::store;
use crate::store::Store;
use crate::store::UserKey;
use crate::store::WorldKey;
use crate::types::Access;
use crate::types::DataEntry;
use crate::types::Error;
use crate::types::Event;
use crate::types::EventView;
use crate::types::Permission;
use crate::types::Route;
use crate::types::MAX_PERMISSIONS;

verus! {

/// Mathematical shape of the whole store.
#[verifier::ext_equal]
pub struct StateView {
    pub authorities: Map<u64, Seq<Permission>>,
    pub world: Map<WorldKey, Seq<EntryModel>>,
    pub user: Map<UserKey, Seq<EntryModel>>,
    pub events: Seq<EventView>,
}

/// Every permission list and every record model of the state is well
/// formed.
pub open spec fn view_wf(s: StateView) -> bool {
    &&& authority::registry_wf(s.authorities)
    &&& forall|k: WorldKey| #[trigger] s.world.dom().contains(k) ==> record::record_model_wf(
        s.world[k],
    )
    &&& forall|k: UserKey| #[trigger] s.user.dom().contains(k) ==> record::record_model_wf(
        s.user[k],
    )
}

/// Whether a call by the account on the game may proceed along the
/// route, and the error when it may not: `InvalidAuthority` when the
/// account holds no permission for the game, `InvalidAccess` when the
/// route is internal and its permission is not elevated.
pub open spec fn authorize_result(
    m: Map<u64, Seq<Permission>>,
    who: u64,
    game: u64,
    route: Route,
) -> Result<(), Error> {
    if !authority::is_authority(m, who, game) {
        Err(Error::InvalidAuthority)
    } else if route == Route::Internal && authority::access_of(m, who, game)
        != Access::InternalExternal {
        Err(Error::InvalidAccess)
    } else {
        Ok(())
    }
}

/// Outcome of registering a game: refused while any authority holds a
/// permission for it, or when the caller's permission list is full.
pub open spec fn register_game_result(s: StateView, who: u64, game: u64) -> Result<(), Error> {
    if authority::game_exists(s.authorities, game) {
        Err(Error::AlreadyRegistered)
    } else if authority::perms_of(s.authorities, who).len() >= MAX_PERMISSIONS {
        Err(Error::CapacityExceeded)
    } else {
        Ok(())
    }
}

/// State after registering a game: on success the caller gains the
/// elevated permission for it.
pub open spec fn register_game_state(s: StateView, who: u64, game: u64) -> StateView {
    if register_game_result(s, who, game) is Ok {
        StateView {
            authorities: s.authorities.insert(
                who,
                authority::perms_of(s.authorities, who).push(
                    (Permission { game, access: Access::InternalExternal }),
                ),
            ),
            world: s.world,
            user: s.user,
            events: s.events,
        }
    } else {
        s
    }
}

/// Outcome of granting an authority: the caller must hold a permission
/// for the game, the target must not, and the target's permission list
/// must have room.
pub open spec fn add_authority_result(
    s: StateView,
    who: u64,
    game: u64,
    target: u64,
    access: Access,
) -> Result<(), Error> {
    if !authority::is_authority(s.authorities, who, game) {
        Err(Error::InvalidAuthority)
    } else if authority::is_authority(s.authorities, target, game) {
        Err(Error::InvalidAuthority)
    } else if authority::perms_of(s.authorities, target).len() >= MAX_PERMISSIONS {
        Err(Error::CapacityExceeded)
    } else {
        Ok(())
    }
}

/// State after granting an authority: on success the target gains the
/// permission for the game at the given access level.
pub open spec fn add_authority_state(
    s: StateView,
    who: u64,
    game: u64,
    target: u64,
    access: Access,
) -> StateView {
    if add_authority_result(s, who, game, target, access) is Ok {
        StateView {
            authorities: s.authorities.insert(
                target,
                authority::perms_of(s.authorities, target).push((Permission { game, access })),
            ),
            world: s.world,
            user: s.user,
            events: s.events,
        }
    } else {
        s
    }
}

/// Outcome of revoking an authority: the caller must hold a permission
/// for the game, and so must the target when it is another account.
pub open spec fn remove_authority_result(
    s: StateView,
    who: u64,
    game: u64,
    target: u64,
) -> Result<(), Error> {
    if !authority::is_authority(s.authorities, who, game) {
        Err(Error::InvalidAuthority)
    } else if who != target && !authority::is_authority(s.authorities, target, game) {
        Err(Error::InvalidAuthority)
    } else {
        Ok(())
    }
}

/// State after revoking an authority: on success the target's
/// permission for the game is removed, its last permission moving into
/// the gap.
pub open spec fn remove_authority_state(s: StateView, who: u64, game: u64, target: u64) -> StateView {
    if remove_authority_result(s, who, game, target) is Ok {
        StateView {
            authorities: s.authorities.insert(
                target,
                authority::revoked_perms(s.authorities[target], game),
            ),
            world: s.world,
            user: s.user,
            events: s.events,
        }
    } else {
        s
    }
}

/// Outcome of a world-data insert-or-replace: the access check's verdict, or
/// `CapacityExceeded` when an append would not fit the record.
pub open spec fn world_update_result(
    s: StateView,
    who: u64,
    game: u64,
    entry: EntryModel,
    route: Route,
) -> Result<(), Error> {
    if authorize_result(s.authorities, who, game, route) is Err {
        authorize_result(s.authorities, who, game, route)
    } else if !record::update_fits(store::stored(s.world, (WorldKey { game, route })), entry) {
        Err(Error::CapacityExceeded)
    } else {
        Ok(())
    }
}

/// State after a world-data insert-or-replace: on success the keyed
/// record carries the entry and a world-data-update event is emitted.
pub open spec fn world_update_state(
    s: StateView,
    who: u64,
    game: u64,
    entry: EntryModel,
    route: Route,
) -> StateView {
    if world_update_result(s, who, game, entry, route) is Ok {
        StateView {
            authorities: s.authorities,
            world: s.world.insert(
                (WorldKey { game, route }),
                record::record_updated(store::stored(s.world, (WorldKey { game, route })), entry),
            ),
            user: s.user,
            events: s.events.push(EventView::WorldDataUpdate(game, entry)),
        }
    } else {
        s
    }
}

/// Outcome of a world-data removal: the access check's verdict, or `NotFound`
/// when the record or the keyed entry is absent.
pub open spec fn world_remove_result(
    s: StateView,
    who: u64,
    game: u64,
    entry_key: Seq<u8>,
    route: Route,
) -> Result<(), Error> {
    if authorize_result(s.authorities, who, game, route) is Err {
        authorize_result(s.authorities, who, game, route)
    } else if !record::has_key(store::stored(s.world, (WorldKey { game, route })), entry_key) {
        Err(Error::NotFound)
    } else {
        Ok(())
    }
}

/// State after a world-data removal: on success the keyed entry is
/// gone, the record's last entry moved into its place; an emptied
/// record stays present.  No event is emitted.
pub open spec fn world_remove_state(
    s: StateView,
    who: u64,
    game: u64,
    entry_key: Seq<u8>,
    route: Route,
) -> StateView {
    if world_remove_result(s, who, game, entry_key, route) is Ok {
        StateView {
            authorities: s.authorities,
            world: s.world.insert(
                (WorldKey { game, route }),
                record::record_removed(
                    store::stored(s.world, (WorldKey { game, route })),
                    entry_key,
                ),
            ),
            user: s.user,
            events: s.events,
        }
    } else {
        s
    }
}

/// Outcome of a world-data numeric merge: the access check's verdict,
/// `NotFound` when the record or the keyed entry is absent, or
/// `BadSize` when either value is not exactly the demanded width.
pub open spec fn world_mod_result(
    s: StateView,
    who: u64,
    game: u64,
    entry: EntryModel,
    route: Route,
) -> Result<(), Error> {
    if authorize_result(s.authorities, who, game, route) is Err {
        authorize_result(s.authorities, who, game, route)
    } else if !record::has_key(store::stored(s.world, (WorldKey { game, route })), entry.0) {
        Err(Error::NotFound)
    } else if !record::merge_sized(store::stored(s.world, (WorldKey { game, route })), entry) {
        Err(Error::BadSize)
    } else {
        Ok(())
    }
}

/// State after a world-data numeric merge: on success the stored value
/// becomes the wrapping sum of the two 32-bit operands, re-encoded in
/// little-endian.  No event is emitted.
pub open spec fn world_mod_state(
    s: StateView,
    who: u64,
    game: u64,
    entry: EntryModel,
    route: Route,
) -> StateView {
    if world_mod_result(s, who, game, entry, route) is Ok {
        StateView {
            authorities: s.authorities,
            world: s.world.insert(
                (WorldKey { game, route }),
                record::record_merged(store::stored(s.world, (WorldKey { game, route })), entry),
            ),
            user: s.user,
            events: s.events,
        }
    } else {
        s
    }
}

/// Outcome of a user-data insert-or-replace: the access check's verdict, or
/// `CapacityExceeded` when an append would not fit the record.
pub open spec fn user_update_result(
    s: StateView,
    who: u64,
    game: u64,
    user: u64,
    route: Route,
    entry: EntryModel,
) -> Result<(), Error> {
    if authorize_result(s.authorities, who, game, route) is Err {
        authorize_result(s.authorities, who, game, route)
    } else if !record::update_fits(store::stored(s.user, (UserKey { game, user, route })), entry) {
        Err(Error::CapacityExceeded)
    } else {
        Ok(())
    }
}

/// State after a user-data insert-or-replace: on success the keyed
/// record carries the entry.  No event is emitted.
pub open spec fn user_update_state(
    s: StateView,
    who: u64,
    game: u64,
    user: u64,
    route: Route,
    entry: EntryModel,
) -> StateView {
    if user_update_result(s, who, game, user, route, entry) is Ok {
        StateView {
            authorities: s.authorities,
            world: s.world,
            user: s.user.insert(
                (UserKey { game, user, route }),
                record::record_updated(
                    store::stored(s.user, (UserKey { game, user, route })),
                    entry,
                ),
            ),
            events: s.events,
        }
    } else {
        s
    }
}

/// Outcome of a user-data removal: the access check's verdict, or `NotFound`
/// when the record or the keyed entry is absent.
pub open spec fn user_remove_result(
    s: StateView,
    who: u64,
    game: u64,
    user: u64,
    route: Route,
    entry_key: Seq<u8>,
) -> Result<(), Error> {
    if authorize_result(s.authorities, who, game, route) is Err {
        authorize_result(s.authorities, who, game, route)
    } else if !record::has_key(
        store::stored(s.user, (UserKey { game, user, route })),
        entry_key,
    ) {
        Err(Error::NotFound)
    } else {
        Ok(())
    }
}

/// State after a user-data removal: on success the keyed entry is
/// gone, the record's last entry moved into its place; an emptied
/// record stays present.  No event is emitted.
pub open spec fn user_remove_state(
    s: StateView,
    who: u64,
    game: u64,
    user: u64,
    route: Route,
    entry_key: Seq<u8>,
) -> StateView {
    if user_remove_result(s, who, game, user, route, entry_key) is Ok {
        StateView {
            authorities: s.authorities,
            world: s.world,
            user: s.user.insert(
                (UserKey { game, user, route }),
                record::record_removed(
                    store::stored(s.user, (UserKey { game, user, route })),
                    entry_key,
                ),
            ),
            events: s.events,
        }
    } else {
        s
    }
}

/// The whole save-data store: authority registry, world data, user data
/// and the events emitted so far.
#[derive(Debug)]
pub struct Pallet {
    pub authorities: Authorities,
    pub world: Store<WorldKey>,
    pub user: Store<UserKey>,
    pub events: Vec<Event>,
}

impl View for Pallet {
    type V = StateView;

    open spec fn view(&self) -> StateView {
        StateView {
            authorities: self.authorities@,
            world: self.world@,
            user: self.user@,
            events: self.events@.map_values(|e: Event| e@),
        }
    }
}

impl Pallet {
    /// All three components are well formed.
    pub open spec fn wf(self) -> bool {
        &&& self.authorities.wf()
        &&& self.world.wf()
        &&& self.user.wf()
    }

    /// A well-formed store has a well-formed view.
    pub proof fn lemma_view_wf(self)
        requires
            self.wf(),
        ensures
            view_wf(self@),
    {
        self.authorities.lemma_wf_registry();
        store::lemma_store_records_wf(self.world);
        store::lemma_store_records_wf(self.user);
    }

    /// A store with nothing registered and nothing written.
    pub fn new() -> (r: Self)
        ensures
            r.wf(),
            r@.authorities == Map::<u64, Seq<Permission>>::empty(),
            r@.world == Map::<WorldKey, Seq<EntryModel>>::empty(),
            r@.user == Map::<UserKey, Seq<EntryModel>>::empty(),
            r@.events == Seq::<EventView>::empty(),
    {
        let r = Pallet {
            authorities: Authorities::new(),
            world: Store::new(),
            user: Store::new(),
            events: Vec::new(),
        };
        proof {
            assert(r@.events =~= Seq::<EventView>::empty());
        }
        r
    }

    /// Whether the account holds a permission for the game, and at what
    /// access level; the default level stands in when it holds none.
    pub fn is_authority(&self, who: u64, game: u64) -> (r: (bool, Access))
        requires
            self.wf(),
        ensures
            r.0 == authority::is_authority(self@.authorities, who, game),
            r.0 ==> r.1 == authority::access_of(self@.authorities, who, game),
            !r.0 ==> r.1 == Access::External,
    {
        self.authorities.is_authority(who, game)
    }

    /// Whether some account holds a permission for the game.
    pub fn game_exists(&self, game: u64) -> (r: bool)
        requires
            self.wf(),
        ensures
            r == authority::game_exists(self@.authorities, game),
    {
        self.authorities.game_exists(game)
    }

    /// The permissions the account holds, empty when it holds none.
    pub fn permissions_of(&self, account: u64) -> (r: Vec<Permission>)
        requires
            self.wf(),
        ensures
            r@ == authority::perms_of(self@.authorities, account),
    {
        self.authorities.permissions_of(account)
    }

    /// The authorization check: decides whether the caller may operate
    /// on the game along the route.
    pub fn is_authorized_call(&self, who: u64, game: u64, route: Route) -> (r: Result<(), Error>)
        requires
            self.wf(),
        ensures
            r == authorize_result(self@.authorities, who, game, route),
            r is Ok <==> authority::authorized(self@.authorities, who, game, route),
    {
        let auth = self.authorities.is_authority(who, game);
        if !auth.0 {
            return Err(Error::InvalidAuthority);
        }
        if route == Route::Internal && !(auth.1 == Access::InternalExternal) {
            return Err(Error::InvalidAccess);
        }
        Ok(())
    }

    /// Registers a game: fails with `AlreadyRegistered` while any
    /// account holds a permission for it, and with `CapacityExceeded`
    /// when the caller's permission list is full; on success the caller
    /// gains the elevated permission for the game.
    pub fn register_game(&mut self, origin: u64, game: u64) -> (r: Result<(), Error>)
        requires
            old(self).wf(),
        ensures
            final(self).wf(),
            r == register_game_result(old(self)@, origin, game),
            final(self)@ == register_game_state(old(self)@, origin, game),
    {
        if self.authorities.game_exists(game) {
            return Err(Error::AlreadyRegistered);
        }
        proof {
            if self@.authorities.dom().contains(origin) {
                assert(!authority::has_game(self@.authorities[origin], game));
            }
        }
        let perm = Permission { game, access: Access::InternalExternal };
        let res = self.authorities.grant(origin, perm);
        proof {
            assert(self@ =~= register_game_state(old(self)@, origin, game));
        }
        match res {
            Ok(()) => Ok(()),
            Err(e) => Err(e),
        }
    }

    /// Grants the target a permission for the game: only an authority
    /// of the game may grant, a target already holding one is refused
    /// with `InvalidAuthority`, and a full permission list with
    /// `CapacityExceeded`.
    pub fn add_authority(&mut self, origin: u64, game: u64, new_authority: u64, access: Access) -> (r:
        Result<(), Error>)
        requires
            old(self).wf(),
        ensures
            final(self).wf(),
            r == add_authority_result(old(self)@, origin, game, new_authority, access),
            final(self)@ == add_authority_state(old(self)@, origin, game, new_authority, access),
    {
        let who_auth = self.authorities.is_authority(origin, game);
        if !who_auth.0 {
            return Err(Error::InvalidAuthority);
        }
        let new_auth = self.authorities.is_authority(new_authority, game);
        if new_auth.0 {
            return Err(Error::InvalidAuthority);
        }
        let res = self.authorities.grant(new_authority, Permission { game, access });
        proof {
            assert(self@ =~= add_authority_state(
                old(self)@,
                origin,
                game,
                new_authority,
                access,
            ));
        }
        match res {
            Ok(()) => Ok(()),
            Err(e) => Err(e),
        }
    }

    /// Revokes the target's permission for the game: only an authority
    /// of the game may revoke, and a target other than the caller must
    /// itself be an authority of the game.
    pub fn remove_authority(&mut self, origin: u64, game: u64, removed_authority: u64) -> (r: Result<
        (),
        Error,
    >)
        requires
            old(self).wf(),
        ensures
            final(self).wf(),
            r == remove_authority_result(old(self)@, origin, game, removed_authority),
            final(self)@ == remove_authority_state(old(self)@, origin, game, removed_authority),
    {
        let who_auth = self.authorities.is_authority(origin, game);
        if !who_auth.0 {
            return Err(Error::InvalidAuthority);
        }
        if origin != removed_authority {
            let target_auth = self.authorities.is_authority(removed_authority, game);
            if !target_auth.0 {
                return Err(Error::InvalidAuthority);
            }
        }
        let res = self.authorities.revoke(removed_authority, game);
        proof {
            assert(res is Ok);
            assert(self@ =~= remove_authority_state(
                old(self)@,
                origin,
                game,
                removed_authority,
            ));
        }
        Ok(())
    }

    /// Inserts the entry into the game's world record on the route, or
    /// replaces the value its key already has, creating the record on
    /// first write; on success a world-data-update event is emitted.
    pub fn world_update_data_record(&mut self, origin: u64, game: u64, entry: DataEntry, route: Route) -> (r:
        Result<(), Error>)
        requires
            old(self).wf(),
            entry.wf(),
        ensures
            final(self).wf(),
            r == world_update_result(old(self)@, origin, game, entry@, route),
            final(self)@ == world_update_state(old(self)@, origin, game, entry@, route),
    {
        match self.is_authorized_call(origin, game, route) {
            Err(e) => {
                return Err(e);
            },
            Ok(()) => {},
        }
        let stored_entry = entry.duplicate();
        let res = self.world.update(WorldKey { game, route }, stored_entry);
        match res {
            Ok(()) => {
                self.events.push(Event::WorldDataUpdate(game, entry));
                proof {
                    assert(self.events@.map_values(|e: Event| e@) =~= old(self).events@.map_values(
                        |e: Event| e@,
                    ).push(EventView::WorldDataUpdate(game, entry@)));
                    assert(self@ =~= world_update_state(old(self)@, origin, game, entry@, route));
                }
                Ok(())
            },
            Err(e) => {
                proof {
                    assert(self@ =~= world_update_state(old(self)@, origin, game, entry@, route));
                }
                Err(e)
            },
        }
    }

    /// Removes the keyed entry from the game's world record on the
    /// route; the record's last entry moves into its place, and an
    /// emptied record stays present.
    pub fn world_remove_data_record(&mut self, origin: u64, game: u64, entry_key: Vec<u8>, route: Route) -> (r:
        Result<(), Error>)
        requires
            old(self).wf(),
        ensures
            final(self).wf(),
            r == world_remove_result(old(self)@, origin, game, entry_key@, route),
            final(self)@ == world_remove_state(old(self)@, origin, game, entry_key@, route),
    {
        match self.is_authorized_call(origin, game, route) {
            Err(e) => {
                return Err(e);
            },
            Ok(()) => {},
        }
        let res = self.world.remove(WorldKey { game, route }, &entry_key);
        proof {
            assert(self@ =~= world_remove_state(old(self)@, origin, game, entry_key@, route));
        }
        match res {
            Ok(()) => Ok(()),
            Err(e) => Err(e),
        }
    }

    /// Adds the entry's 4-byte value onto the stored 4-byte value of
    /// the same key in the game's world record on the route, wrapping
    /// on overflow; no event is emitted.
    pub fn world_mod_data_record(&mut self, origin: u64, game: u64, new_entry: DataEntry, route: Route) -> (r:
        Result<(), Error>)
        requires
            old(self).wf(),
            new_entry.wf(),
        ensures
            final(self).wf(),
            r == world_mod_result(old(self)@, origin, game, new_entry@, route),
            final(self)@ == world_mod_state(old(self)@, origin, game, new_entry@, route),
    {
        match self.is_authorized_call(origin, game, route) {
            Err(e) => {
                return Err(e);
            },
            Ok(()) => {},
        }
        let res = self.world.merge(WorldKey { game, route }, &new_entry);
        proof {
            assert(self@ =~= world_mod_state(old(self)@, origin, game, new_entry@, route));
        }
        match res {
            Ok(()) => Ok(()),
            Err(e) => Err(e),
        }
    }

    /// Removes the keyed entry from the user's record for the game on
    /// the route; the record's last entry moves into its place, and an
    /// emptied record stays present.
    pub fn user_remove_data_record(
        &mut self,
        origin: u64,
        game: u64,
        user: u64,
        route: Route,
        entry_key: Vec<u8>,
    ) -> (r: Result<(), Error>)
        requires
            old(self).wf(),
        ensures
            final(self).wf(),
            r == user_remove_result(old(self)@, origin, game, user, route, entry_key@),
            final(self)@ == user_remove_state(old(self)@, origin, game, user, route, entry_key@),
    {
        match self.is_authorized_call(origin, game, route) {
            Err(e) => {
                return Err(e);
            },
            Ok(()) => {},
        }
        let res = self.user.remove(UserKey { game, user, route }, &entry_key);
        proof {
            assert(self@ =~= user_remove_state(old(self)@, origin, game, user, route, entry_key@));
        }
        match res {
            Ok(()) => Ok(()),
            Err(e) => Err(e),
        }
    }

    /// Inserts the entry into the user's record for the game on the
    /// route, or replaces the value its key already has, creating the
    /// record on first write; no event is emitted.
    pub fn user_update_data_record(
        &mut self,
        origin: u64,
        game: u64,
        user: u64,
        route: Route,
        entry: DataEntry,
    ) -> (r: Result<(), Error>)
        requires
            old(self).wf(),
            entry.wf(),
        ensures
            final(self).wf(),
            r == user_update_result(old(self)@, origin, game, user, route, entry@),
            final(self)@ == user_update_state(old(self)@, origin, game, user, route, entry@),
    {
        match self.is_authorized_call(origin, game, route) {
            Err(e) => {
                return Err(e);
            },
            Ok(()) => {},
        }
        let res = self.user.update(UserKey { game, user, route }, entry);
        proof {
            assert(self@ =~= user_update_state(old(self)@, origin, game, user, route, entry@));
        }
        match res {
            Ok(()) => Ok(()),
            Err(e) => Err(e),
        }
    }

    /// The value stored under the entry key of the game's world record
    /// on the route, if both exist.
    pub fn world_data(&self, game: u64, route: Route, entry_key: &Vec<u8>) -> (r: Option<&Vec<u8>>)
        requires
            self.wf(),
        ensures
            match r {
                Some(v) => {
                    let rec = store::stored(self@.world, (WorldKey { game, route }));
                    record::has_key(rec, entry_key@) && v@ == rec[record::key_index(
                        rec,
                        entry_key@,
                    )].1
                },
                None => !record::has_key(
                    store::stored(self@.world, (WorldKey { game, route })),
                    entry_key@,
                ),
            },
    {
        self.world.get_value(&WorldKey { game, route }, entry_key)
    }

    /// The value stored under the entry key of the user's record for
    /// the game on the route, if both exist.
    pub fn user_data(&self, game: u64, user: u64, route: Route, entry_key: &Vec<u8>) -> (r: Option<
        &Vec<u8>,
    >)
        requires
            self.wf(),
        ensures
            match r {
                Some(v) => {
                    let rec = store::stored(self@.user, (UserKey { game, user, route }));
                    record::has_key(rec, entry_key@) && v@ == rec[record::key_index(
                        rec,
                        entry_key@,
                    )].1
                },
                None => !record::has_key(
                    store::stored(self@.user, (UserKey { game, user, route })),
                    entry_key@,
                ),
            },
    {
        self.user.get_value(&UserKey { game, user, route }, entry_key)
    }

    /// The number of entries the game's world record on the route
    /// holds, when the record exists.
    pub fn world_record_len(&self, game: u64, route: Route) -> (r: Option<usize>)
        requires
            self.wf(),
        ensures
            match r {
                Some(n) => self@.world.dom().contains((WorldKey { game, route })) && n
                    == self@.world[(WorldKey { game, route })].len(),
                None => !self@.world.dom().contains((WorldKey { game, route })),
            },
    {
        self.world.record_len(&WorldKey { game, route })
    }
}

/// The byte key of the seeded world counter of the first bootstrap
/// game.
pub open spec fn time_key() -> Seq<u8> {
    seq![0x54u8, 0x69u8, 0x6du8, 0x65u8]
}

/// The byte key of the first seeded world counter of the second
/// bootstrap game.
pub open spec fn kills_key() -> Seq<u8> {
    seq![0x4bu8, 0x69u8, 0x6cu8, 0x6cu8, 0x73u8]
}

/// The byte key of the second seeded world counter of the second
/// bootstrap game.
pub open spec fn deaths_key() -> Seq<u8> {
    seq![0x44u8, 0x65u8, 0x61u8, 0x74u8, 0x68u8, 0x73u8]
}

/// The bootstrap state: each seed authority holds the elevated
/// permission for its game, and each game's external world record
/// carries its seed counters — a time counter at one for the first
/// game, kill and death counters at zero for the second.
pub open spec fn genesis_state(
    fps_auth: u64,
    fps_id: u64,
    plat_auth: u64,
    plat_id: u64,
) -> StateView {
    StateView {
        authorities: Map::<u64, Seq<Permission>>::empty().insert(
            fps_auth,
            seq![(Permission { game: fps_id, access: Access::InternalExternal })],
        ).insert(
            plat_auth,
            seq![(Permission { game: plat_id, access: Access::InternalExternal })],
        ),
        world: Map::<WorldKey, Seq<EntryModel>>::empty().insert(
            (WorldKey { game: fps_id, route: Route::External }),
            seq![(time_key(), crate::codec::le_of_word(1))],
        ).insert(
            (WorldKey { game: plat_id, route: Route::External }),
            seq![
                (kills_key(), crate::codec::le_of_word(0)),
                (deaths_key(), crate::codec::le_of_word(0)),
            ],
        ),
        user: Map::<UserKey, Seq<EntryModel>>::empty(),
        events: Seq::<EventView>::empty(),
    }
}

/// The initial configuration: two named games, each with one seed
/// authority account.  A missing authority aborts bootstrap.
#[derive(Clone, Copy, Debug)]
pub struct GenesisConfig {
    pub fps_game_authority: Option<u64>,
    pub fps_game_id: u64,
    pub platformer_game_authority: Option<u64>,
    pub platformer_game_id: u64,
}

impl Default for GenesisConfig {
    fn default() -> (r: Self)
        ensures
            r.fps_game_authority is None,
            r.fps_game_id == 0,
            r.platformer_game_authority is None,
            r.platformer_game_id == 0,
    {
        GenesisConfig {
            fps_game_authority: None,
            fps_game_id: 0,
            platformer_game_authority: None,
            platformer_game_id: 0,
        }
    }
}

impl GenesisConfig {
    /// Builds the bootstrap state, or nothing when a required seed
    /// authority is missing: an incomplete configuration aborts rather
    /// than seed inconsistent state.
    pub fn build(&self) -> (r: Option<Pallet>)
        ensures
            r is Some <==> self.fps_game_authority is Some && self.platformer_game_authority
                is Some,
            r matches Some(p) ==> p.wf() && (self.fps_game_authority matches Some(fa)
                && self.platformer_game_authority matches Some(pa) && p@ == genesis_state(
                fa,
                self.fps_game_id,
                pa,
                self.platformer_game_id,
            )),
    {
        let fa = match self.fps_game_authority {
            None => {
                return None;
            },
            Some(a) => a,
        };
        let pa = match self.platformer_game_authority {
            None => {
                return None;
            },
            Some(a) => a,
        };
        let mut p = Pallet::new();

        let fps_perms = vec![Permission { game: self.fps_game_id, access: Access::InternalExternal }];
        proof {
            assert(fps_perms@ =~= seq![
                (Permission { game: self.fps_game_id, access: Access::InternalExternal }),
            ]);
        }
        p.authorities.set_permissions(fa, fps_perms);
        let mut fps_record = DataRecord::new();
        let fps_res = fps_record.update(
            DataEntry { key: vec![0x54u8, 0x69u8, 0x6du8, 0x65u8], value: codec::encode_word(1) },
        );
        proof {
            assert(fps_res is Ok);
            assert(fps_record@ =~= seq![(time_key(), crate::codec::le_of_word(1))]);
        }
        p.world.set_record(
            WorldKey { game: self.fps_game_id, route: Route::External },
            fps_record,
        );

        let plat_perms = vec![Permission { game: self.platformer_game_id, access: Access::InternalExternal }];
        proof {
            assert(plat_perms@ =~= seq![
                (Permission { game: self.platformer_game_id, access: Access::InternalExternal }),
            ]);
        }
        p.authorities.set_permissions(pa, plat_perms);
        let mut plat_record = DataRecord::new();
        let kills_res = plat_record.update(
            DataEntry {
                key: vec![0x4bu8, 0x69u8, 0x6cu8, 0x6cu8, 0x73u8],
                value: codec::encode_word(0),
            },
        );
        proof {
            assert(kills_res is Ok);
        }
        let deaths_res = plat_record.update(
            DataEntry {
                key: vec![0x44u8, 0x65u8, 0x61u8, 0x74u8, 0x68u8, 0x73u8],
                value: codec::encode_word(0),
            },
        );
        proof {
            assert(deaths_res is Ok);
            assert(plat_record@ =~= seq![
                (kills_key(), crate::codec::le_of_word(0)),
                (deaths_key(), crate::codec::le_of_word(0)),
            ]);
        }
        p.world.set_record(
            WorldKey { game: self.platformer_game_id, route: Route::External },
            plat_record,
        );

        proof {
            let g = genesis_state(fa, self.fps_game_id, pa, self.platformer_game_id);
            assert(p@.authorities =~= g.authorities);
            assert(p@.world =~= g.world);
            assert(p@.user =~= g.user);
            assert(p@.events =~= g.events);
            assert(p@ =~= g);
        }
        Some(p)
    }
}

} // verus!
