//! The authority registry: which accounts hold which permissions, the
//! authorization queries answered from it, and the grant and revoke
//! mutations that game registration and authority management perform.

use vstd::prelude::*;

use crate::types::Access;
use crate::types::Error;
use crate::types::Permission;
use crate::types::Route;
use crate::types::MAX_PERMISSIONS;

verus! {

/// Some permission of the list is for the game.
pub open spec fn has_game(perms: Seq<Permission>, game: u64) -> bool {
    exists|i: int| 0 <= i < perms.len() && (#[trigger] perms[i]).game == game
}

/// The index of the permission for the game; meaningful when one exists
/// and the games are unique.
pub open spec fn game_index(perms: Seq<Permission>, game: u64) -> int {
    choose|i: int| 0 <= i < perms.len() && (#[trigger] perms[i]).game == game
}

/// No two permissions of the list are for the same game.
pub open spec fn unique_games(perms: Seq<Permission>) -> bool {
    forall|i: int, j: int|
        0 <= i < j < perms.len() ==> (#[trigger] perms[i]).game != (#[trigger] perms[j]).game
}

/// The account holds some permission for the game.
pub open spec fn is_authority(m: Map<u64, Seq<Permission>>, who: u64, game: u64) -> bool {
    m.dom().contains(who) && has_game(m[who], game)
}

/// The access level the account's permission for the game carries;
/// meaningful when the account is an authority for the game.
pub open spec fn access_of(m: Map<u64, Seq<Permission>>, who: u64, game: u64) -> Access {
    m[who][game_index(m[who], game)].access
}

/// Whether a call by the account on the game may proceed along the
/// route: it must be an authority, and an internal route additionally
/// demands the elevated access level.
pub open spec fn authorized(m: Map<u64, Seq<Permission>>, who: u64, game: u64, route: Route) -> bool {
    is_authority(m, who, game) && (route == Route::Internal ==> access_of(m, who, game)
        == Access::InternalExternal)
}

/// Some account holds a permission for the game.
pub open spec fn game_exists(m: Map<u64, Seq<Permission>>, game: u64) -> bool {
    exists|a: u64| #[trigger] m.dom().contains(a) && has_game(m[a], game)
}

/// Every permission list of the registry fits its bound and names each
/// game at most once.
pub open spec fn registry_wf(m: Map<u64, Seq<Permission>>) -> bool {
    forall|a: u64| #[trigger] m.dom().contains(a) ==> m[a].len() <= MAX_PERMISSIONS
        && unique_games(m[a])
}

/// The permission list the registry holds for the account: its entry if
/// it has one, empty otherwise.
pub open spec fn perms_of(m: Map<u64, Seq<Permission>>, account: u64) -> Seq<Permission> {
    if m.dom().contains(account) {
        m[account]
    } else {
        Seq::<Permission>::empty()
    }
}

/// When a permission for the game exists, its index is in bounds and
/// carries the game.
pub proof fn lemma_game_index_valid(perms: Seq<Permission>, game: u64)
    requires
        has_game(perms, game),
    ensures
        0 <= game_index(perms, game) < perms.len(),
        perms[game_index(perms, game)].game == game,
{
    let q = game_index(perms, game);
    assert(0 <= q < perms.len() && perms[q].game == game);
}

/// Under unique games, any index carrying the game is the game's index.
pub proof fn lemma_game_index_agrees(perms: Seq<Permission>, game: u64, i: int)
    requires
        unique_games(perms),
        0 <= i < perms.len(),
        perms[i].game == game,
    ensures
        has_game(perms, game),
        game_index(perms, game) == i,
{
    assert(has_game(perms, game));
    let j = game_index(perms, game);
    assert(0 <= j < perms.len() && perms[j].game == game);
}

/// One account's row of the registry.
#[derive(Debug)]
pub struct AuthorityRow {
    pub account: u64,
    pub perms: Vec<Permission>,
}

/// The registry itself: one row per account, accounts unique.
#[derive(Debug)]
pub struct Authorities {
    pub rows: Vec<AuthorityRow>,
}

/// The index of the account's row; meaningful when the account has one
/// and the accounts are unique.
pub open spec fn row_index(rows: Seq<AuthorityRow>, account: u64) -> int {
    choose|i: int| 0 <= i < rows.len() && (#[trigger] rows[i]).account == account
}

/// Some row of the sequence belongs to the account.
pub open spec fn has_row(rows: Seq<AuthorityRow>, account: u64) -> bool {
    exists|i: int| 0 <= i < rows.len() && (#[trigger] rows[i]).account == account
}

/// When the account has a row, its row index is in bounds and carries
/// the account.
pub proof fn lemma_row_index_valid(rows: Seq<AuthorityRow>, account: u64)
    requires
        has_row(rows, account),
    ensures
        0 <= row_index(rows, account) < rows.len(),
        rows[row_index(rows, account)].account == account,
{
    let q = row_index(rows, account);
    assert(0 <= q < rows.len() && rows[q].account == account);
}

/// Under unique accounts, any index carrying the account is its row
/// index.
pub proof fn lemma_row_index_agrees(rows: Seq<AuthorityRow>, account: u64, i: int)
    requires
        forall|p: int, q: int|
            0 <= p < q < rows.len() ==> (#[trigger] rows[p]).account != (#[trigger] rows[q]).account,
        0 <= i < rows.len(),
        rows[i].account == account,
    ensures
        has_row(rows, account),
        row_index(rows, account) == i,
{
    assert(has_row(rows, account));
    let j = row_index(rows, account);
    assert(0 <= j < rows.len() && rows[j].account == account);
}

impl View for Authorities {
    type V = Map<u64, Seq<Permission>>;

    open spec fn view(&self) -> Map<u64, Seq<Permission>> {
        Map::new(
            |a: u64| has_row(self.rows@, a),
            |a: u64| self.rows@[row_index(self.rows@, a)].perms@,
        )
    }
}

impl Authorities {
    /// Accounts are unique and every permission list is well formed.
    pub open spec fn wf(self) -> bool {
        &&& forall|p: int, q: int|
            0 <= p < q < self.rows@.len() ==> (#[trigger] self.rows@[p]).account != (
            #[trigger] self.rows@[q]).account
        &&& forall|i: int|
            0 <= i < self.rows@.len() ==> (#[trigger] self.rows@[i]).perms@.len()
                <= MAX_PERMISSIONS && unique_games(self.rows@[i].perms@)
    }

    /// A well-formed registry has a well-formed view.
    pub proof fn lemma_wf_registry(self)
        requires
            self.wf(),
        ensures
            registry_wf(self@),
    {
        assert forall|a: u64| #[trigger] self@.dom().contains(a) implies self@[a].len()
            <= MAX_PERMISSIONS && unique_games(self@[a]) by {
            let i = row_index(self.rows@, a);
            assert(0 <= i < self.rows@.len() && self.rows@[i].account == a);
        }
    }

    /// An empty registry.
    pub fn new() -> (r: Self)
        ensures
            r@ == Map::<u64, Seq<Permission>>::empty(),
            r.wf(),
    {
        let r = Authorities { rows: Vec::new() };
        proof {
            assert(r@ =~= Map::<u64, Seq<Permission>>::empty());
        }
        r
    }

    /// Finds the account's row.
    fn find_row(&self, account: u64) -> (r: Option<usize>)
        ensures
            match r {
                Some(i) => 0 <= i < self.rows@.len() && self.rows@[i as int].account == account,
                None => !has_row(self.rows@, account),
            },
    {
        let n = self.rows.len();
        let mut i: usize = 0;
        while i < n
            invariant
                n == self.rows@.len(),
                0 <= i <= n,
                forall|j: int| 0 <= j < i ==> (#[trigger] self.rows@[j]).account != account,
            decreases n - i,
        {
            if self.rows[i].account == account {
                return Some(i);
            }
            i += 1;
        }
        None
    }

    /// Whether the account holds a permission for the game, and at what
    /// access level; the default level stands in when it holds none.
    pub fn is_authority(&self, who: u64, game: u64) -> (r: (bool, Access))
        requires
            self.wf(),
        ensures
            r.0 == is_authority(self@, who, game),
            r.0 ==> r.1 == access_of(self@, who, game),
            !r.0 ==> r.1 == Access::External,
    {
        let row = match self.find_row(who) {
            None => {
                proof {
                    assert(!self@.dom().contains(who));
                }
                return (false, Access::External);
            },
            Some(i) => {
                proof {
                    lemma_row_index_agrees(self.rows@, who, i as int);
                }
                &self.rows[i]
            },
        };
        let n = row.perms.len();
        let mut j: usize = 0;
        while j < n
            invariant
                n == row.perms@.len(),
                0 <= j <= n,
                forall|p: int| 0 <= p < j ==> (#[trigger] row.perms@[p]).game != game,
            decreases n - j,
        {
            if row.perms[j].game == game {
                proof {
                    assert(self@.dom().contains(who));
                    assert(self@[who] == row.perms@);
                    lemma_game_index_agrees(row.perms@, game, j as int);
                }
                return (true, row.perms[j].access);
            }
            j += 1;
        }
        proof {
            assert(self@.dom().contains(who));
            assert(self@[who] == row.perms@);
            assert(!has_game(self@[who], game));
        }
        (false, Access::External)
    }

    /// The permissions the account holds, empty when it has no row.
    pub fn permissions_of(&self, account: u64) -> (r: Vec<Permission>)
        requires
            self.wf(),
        ensures
            r@ == perms_of(self@, account),
    {
        match self.find_row(account) {
            None => {
                proof {
                    assert(!self@.dom().contains(account));
                }
                let r: Vec<Permission> = Vec::new();
                proof {
                    assert(r@ =~= perms_of(self@, account));
                }
                r
            },
            Some(i) => {
                proof {
                    lemma_row_index_agrees(self.rows@, account, i as int);
                }
                let row = &self.rows[i];
                let n = row.perms.len();
                let mut r: Vec<Permission> = Vec::new();
                let mut j: usize = 0;
                while j < n
                    invariant
                        n == row.perms@.len(),
                        0 <= j <= n,
                        r@ == row.perms@.subrange(0, j as int),
                    decreases n - j,
                {
                    r.push(row.perms[j]);
                    proof {
                        assert(r@ =~= row.perms@.subrange(0, j + 1));
                    }
                    j += 1;
                }
                proof {
                    assert(r@ =~= row.perms@);
                    assert(self@[account] == row.perms@);
                }
                r
            },
        }
    }

    /// Whether some account holds a permission for the game.
    pub fn game_exists(&self, game: u64) -> (r: bool)
        requires
            self.wf(),
        ensures
            r == game_exists(self@, game),
    {
        let n = self.rows.len();
        let mut i: usize = 0;
        while i < n
            invariant
                self.wf(),
                n == self.rows@.len(),
                0 <= i <= n,
                forall|p: int| 0 <= p < i ==> !has_game((#[trigger] self.rows@[p]).perms@, game),
            decreases n - i,
        {
            let row = &self.rows[i];
            let m = row.perms.len();
            let mut j: usize = 0;
            while j < m
                invariant
                    m == row.perms@.len(),
                    0 <= j <= m,
                    forall|p: int| 0 <= p < j ==> (#[trigger] row.perms@[p]).game != game,
                decreases m - j,
            {
                if row.perms[j].game == game {
                    proof {
                        lemma_row_index_agrees(self.rows@, row.account, i as int);
                        assert(self@.dom().contains(row.account));
                        assert(self@[row.account] == row.perms@);
                        assert(has_game(row.perms@, game));
                    }
                    return true;
                }
                j += 1;
            }
            i += 1;
        }
        proof {
            assert forall|a: u64| #[trigger] self@.dom().contains(a) implies !has_game(
                self@[a],
                game,
            ) by {
                let p = row_index(self.rows@, a);
                assert(0 <= p < self.rows@.len() && self.rows@[p].account == a);
            }
        }
        false
    }

    /// Appends a permission to the account's list, creating the row when
    /// it has none; fails only when the list is at capacity, and then
    /// changes nothing.  The caller rules out a second permission for
    /// the same game.
    pub fn grant(&mut self, account: u64, p: Permission) -> (r: Result<(), Error>)
        requires
            old(self).wf(),
            !has_game(perms_of(old(self)@, account), p.game),
        ensures
            final(self).wf(),
            r is Ok <==> perms_of(old(self)@, account).len() < MAX_PERMISSIONS,
            r is Ok ==> final(self)@ == old(self)@.insert(account, perms_of(old(self)@, account).push(p)),
            r is Err ==> r == Err::<(), Error>(Error::CapacityExceeded)
                && final(self)@ == old(self)@,
    {
        match self.find_row(account) {
            Some(i) => {
                proof {
                    lemma_row_index_agrees(self.rows@, account, i as int);
                }
                if self.rows[i].perms.len() >= MAX_PERMISSIONS {
                    return Err(Error::CapacityExceeded);
                }
                self.rows[i].perms.push(p);
                proof {
                    assert forall|a: u64| #[trigger] has_row(self.rows@, a) implies has_row(
                        old(self).rows@,
                        a,
                    ) by {
                        let q = row_index(self.rows@, a);
                        assert(old(self).rows@[q].account == a);
                    }
                    assert forall|a: u64| #[trigger] has_row(old(self).rows@, a) implies has_row(
                        self.rows@,
                        a,
                    ) by {
                        let q = row_index(old(self).rows@, a);
                        assert(self.rows@[q].account == a);
                    }
                    assert forall|a: u64| has_row(self.rows@, a) implies #[trigger] self@[a]
                        == old(self)@.insert(account, perms_of(old(self)@, account).push(p))[a] by {
                        let q = row_index(self.rows@, a);
                        assert(0 <= q < self.rows@.len() && self.rows@[q].account == a);
                        lemma_row_index_agrees(old(self).rows@, a, q);
                        if a == account {
                            assert(q == i);
                        }
                    }
                    assert(self@ =~= old(self)@.insert(account, perms_of(old(self)@, account).push(p)));
                }
                Ok(())
            },
            None => {
                let mut perms: Vec<Permission> = Vec::new();
                perms.push(p);
                self.rows.push(AuthorityRow { account, perms });
                proof {
                    let rows0 = old(self).rows@;
                    let n = rows0.len() as int;
                    assert(self.rows@[n].account == account);
                    assert(has_row(self.rows@, account));
                    assert forall|a: u64| #[trigger] has_row(self.rows@, a) implies a == account
                        || has_row(rows0, a) by {
                        lemma_row_index_valid(self.rows@, a);
                        let q = row_index(self.rows@, a);
                        if q < n {
                            assert(rows0[q].account == a);
                        }
                    }
                    assert forall|a: u64| #[trigger] has_row(rows0, a) implies has_row(
                        self.rows@,
                        a,
                    ) by {
                        lemma_row_index_valid(rows0, a);
                        let q = row_index(rows0, a);
                        assert(self.rows@[q].account == a);
                    }
                    assert forall|a: u64| has_row(self.rows@, a) implies #[trigger] self@[a]
                        == old(self)@.insert(account, perms_of(old(self)@, account).push(p))[a] by {
                        lemma_row_index_valid(self.rows@, a);
                        let q = row_index(self.rows@, a);
                        if a == account {
                            assert(q == n) by {
                                if q < n {
                                    assert(rows0[q].account == a);
                                    assert(has_row(rows0, account));
                                }
                            }
                            assert(self@[a] =~= perms_of(old(self)@, account).push(p));
                        } else {
                            assert(q < n);
                            lemma_row_index_agrees(rows0, a, q);
                        }
                    }
                    assert(self@ =~= old(self)@.insert(account, perms_of(old(self)@, account).push(p)));
                }
                Ok(())
            },
        }
    }

    /// Binds the account to exactly the given permission list,
    /// replacing whatever list it held: the registry analogue of a map
    /// insert, used when seeding initial state.
    pub fn set_permissions(&mut self, account: u64, perms: Vec<Permission>)
        requires
            old(self).wf(),
            perms@.len() <= MAX_PERMISSIONS,
            unique_games(perms@),
        ensures
            final(self).wf(),
            final(self)@ == old(self)@.insert(account, perms@),
    {
        match self.find_row(account) {
            Some(i) => {
                proof {
                    lemma_row_index_agrees(self.rows@, account, i as int);
                }
                self.rows[i].perms = perms;
                proof {
                    assert forall|a: u64| #[trigger] has_row(self.rows@, a) implies has_row(
                        old(self).rows@,
                        a,
                    ) by {
                        lemma_row_index_valid(self.rows@, a);
                        let q = row_index(self.rows@, a);
                        assert(old(self).rows@[q].account == a);
                    }
                    assert forall|a: u64| #[trigger] has_row(old(self).rows@, a) implies has_row(
                        self.rows@,
                        a,
                    ) by {
                        lemma_row_index_valid(old(self).rows@, a);
                        let q = row_index(old(self).rows@, a);
                        assert(self.rows@[q].account == a);
                    }
                    assert forall|a: u64| has_row(self.rows@, a) implies #[trigger] self@[a]
                        == old(self)@.insert(account, perms@)[a] by {
                        lemma_row_index_valid(self.rows@, a);
                        let q = row_index(self.rows@, a);
                        lemma_row_index_agrees(old(self).rows@, a, q);
                        if a == account {
                            assert(q == i);
                        }
                    }
                    assert(self@ =~= old(self)@.insert(account, perms@));
                }
            },
            None => {
                self.rows.push(AuthorityRow { account, perms });
                proof {
                    let rows0 = old(self).rows@;
                    let n = rows0.len() as int;
                    assert(self.rows@[n].account == account);
                    assert(has_row(self.rows@, account));
                    assert forall|a: u64| #[trigger] has_row(self.rows@, a) implies a == account
                        || has_row(rows0, a) by {
                        lemma_row_index_valid(self.rows@, a);
                        let q = row_index(self.rows@, a);
                        if q < n {
                            assert(rows0[q].account == a);
                        }
                    }
                    assert forall|a: u64| #[trigger] has_row(rows0, a) implies has_row(
                        self.rows@,
                        a,
                    ) by {
                        lemma_row_index_valid(rows0, a);
                        let q = row_index(rows0, a);
                        assert(self.rows@[q].account == a);
                    }
                    assert forall|a: u64| has_row(self.rows@, a) implies #[trigger] self@[a]
                        == old(self)@.insert(account, perms@)[a] by {
                        lemma_row_index_valid(self.rows@, a);
                        let q = row_index(self.rows@, a);
                        if a == account {
                            assert(q == n) by {
                                if q < n {
                                    assert(rows0[q].account == a);
                                    assert(has_row(rows0, account));
                                }
                            }
                        } else {
                            assert(q < n);
                            lemma_row_index_agrees(rows0, a, q);
                        }
                    }
                    assert(self@ =~= old(self)@.insert(account, perms@));
                }
            },
        }
    }

    /// Removes the account's permission for the game, moving its last
    /// permission into the gap; fails with `InvalidAuthority` when the
    /// account holds none for the game, and then changes nothing.
    pub fn revoke(&mut self, account: u64, game: u64) -> (r: Result<(), Error>)
        requires
            old(self).wf(),
        ensures
            final(self).wf(),
            r is Ok <==> is_authority(old(self)@, account, game),
            r is Ok ==> final(self)@ == old(self)@.insert(
                account,
                revoked_perms(old(self)@[account], game),
            ),
            r is Err ==> r == Err::<(), Error>(Error::InvalidAuthority)
                && final(self)@ == old(self)@,
    {
        match self.find_row(account) {
            None => {
                proof {
                    assert(!self@.dom().contains(account));
                }
                Err(Error::InvalidAuthority)
            },
            Some(i) => {
                proof {
                    lemma_row_index_agrees(self.rows@, account, i as int);
                }
                let n = self.rows[i].perms.len();
                let mut j: usize = 0;
                while j < n
                    invariant
                        self == old(self),
                        0 <= j <= n,
                        forall|p: int|
                            0 <= p < j ==> (#[trigger] self.rows@[i as int].perms@[p]).game != game,
                    decreases n - j,
                {
                    if self.rows[i].perms[j].game == game {
                        proof {
                            lemma_game_index_agrees(self.rows@[i as int].perms@, game, j as int);
                        }
                        self.rows[i].perms.swap_remove(j);
                        proof {
                            assert forall|a: u64| #[trigger] has_row(self.rows@, a) implies
                                has_row(old(self).rows@, a) by {
                                lemma_row_index_valid(self.rows@, a);
                                let q = row_index(self.rows@, a);
                                assert(old(self).rows@[q].account == a);
                            }
                            assert forall|a: u64| #[trigger] has_row(old(self).rows@, a) implies
                                has_row(self.rows@, a) by {
                                lemma_row_index_valid(old(self).rows@, a);
                                let q = row_index(old(self).rows@, a);
                                assert(self.rows@[q].account == a);
                            }
                            assert forall|a: u64| has_row(self.rows@, a) implies #[trigger] self@[a]
                                == old(self)@.insert(
                                account,
                                revoked_perms(old(self)@[account], game),
                            )[a] by {
                                lemma_row_index_valid(self.rows@, a);
                                let q = row_index(self.rows@, a);
                                lemma_row_index_agrees(old(self).rows@, a, q);
                                if a == account {
                                    assert(q == i);
                                }
                            }
                            assert(self@ =~= old(self)@.insert(
                                account,
                                revoked_perms(old(self)@[account], game),
                            ));
                        }
                        return Ok(());
                    }
                    j += 1;
                }
                proof {
                    assert(self@.dom().contains(account));
                    assert(self@[account] == self.rows@[i as int].perms@);
                    assert(!has_game(self@[account], game));
                }
                Err(Error::InvalidAuthority)
            },
        }
    }
}

/// The permission list after revoking the game: the last permission
/// takes the removed one's place, so order is not preserved.
pub open spec fn revoked_perms(perms: Seq<Permission>, game: u64) -> Seq<Permission> {
    perms.update(game_index(perms, game), perms.last()).drop_last()
}

} // verus!
