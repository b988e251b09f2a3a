//! Core data shapes: access levels, routes, errors, permissions, entries
//! and events, together with the size bounds they obey.

use vstd::prelude::*;

verus! {

/// Largest number of entries a single data record may hold.
pub const MAX_RECORD_ENTRIES: usize = 256;

/// Largest length, in bytes, of an entry key or an entry value.
pub const MAX_BYTES: usize = 256;

/// Largest number of permissions one account may hold.
pub const MAX_PERMISSIONS: usize = 256;

/// Exact byte width demanded of both operands of the numeric merge.
pub const NUMERIC_WIDTH: usize = 4;

/// How much of the route space a permission unlocks.
///
/// `External` is the default; `InternalExternal` is strictly more
/// permissive and is the only level that may touch internal routes.
#[derive(Clone, Copy, Debug, PartialEq, Eq, Structural)]
pub enum Access {
    External,
    InternalExternal,
}

impl Default for Access {
    fn default() -> (r: Self)
        ensures
            r == Access::External,
    {
        Access::External
    }
}

/// Visibility partition of a record.
///
/// External routes are reachable by any authorized caller; internal routes
/// additionally require [`Access::InternalExternal`].
#[derive(Clone, Copy, Debug, PartialEq, Eq, Structural)]
pub enum Route {
    External,
    Internal,
}

/// Structured failure signals of the store's operations.
#[derive(Clone, Copy, Debug, PartialEq, Eq, Structural)]
pub enum Error {
    /// The caller or the target lacks, or already has, a permission
    /// relevant to the operation.
    InvalidAuthority,
    /// The caller's access level does not unlock the requested route.
    InvalidAccess,
    /// Some authority already holds a permission for the game.
    AlreadyRegistered,
    /// The keyed record, or the entry within it, is absent.
    NotFound,
    /// A numeric merge operand is not exactly [`NUMERIC_WIDTH`] bytes.
    BadSize,
    /// A bounded collection would grow past its capacity.
    CapacityExceeded,
}

/// One account's grant for one game.
#[derive(Clone, Copy, Debug, PartialEq, Eq, Structural)]
pub struct Permission {
    pub game: u64,
    pub access: Access,
}

/// One key-value pair of a data record.
#[derive(Debug)]
pub struct DataEntry {
    pub key: Vec<u8>,
    pub value: Vec<u8>,
}

impl View for DataEntry {
    type V = (Seq<u8>, Seq<u8>);

    open spec fn view(&self) -> (Seq<u8>, Seq<u8>) {
        (self.key@, self.value@)
    }
}

impl DataEntry {
    /// Both byte sequences fit their bound.
    pub open spec fn wf(self) -> bool {
        self.key@.len() <= MAX_BYTES && self.value@.len() <= MAX_BYTES
    }

    /// A fresh entry with the same key and value bytes.
    pub fn duplicate(&self) -> (r: Self)
        ensures
            r@ == self@,
    {
        DataEntry { key: clone_bytes(&self.key), value: clone_bytes(&self.value) }
    }
}

/// A fresh vector with the same bytes.
pub fn clone_bytes(v: &Vec<u8>) -> (r: Vec<u8>)
    ensures
        r@ == v@,
{
    let n = v.len();
    let mut r: Vec<u8> = Vec::new();
    let mut i: usize = 0;
    while i < n
        invariant
            0 <= i <= n,
            r@ == v@.subrange(0, i as int),
        decreases n - i,
    {
        r.push(v[i]);
        proof {
            assert(r@ =~= v@.subrange(0, i + 1));
        }
        i += 1;
    }
    proof {
        assert(r@ =~= v@);
    }
    r
}

/// A domain event handed to the host on a successful mutation.
#[derive(Debug)]
pub enum Event {
    /// A player reached a new level: (new level, who leveled up).
    /// Declared for hosts that report level changes; no store operation
    /// emits it.
    LevelUp(u32, u64),
    /// A world record changed: (game, entry as written).
    WorldDataUpdate(u64, DataEntry),
}

/// Mathematical shape of an [`Event`].
pub enum EventView {
    LevelUp(u32, u64),
    WorldDataUpdate(u64, (Seq<u8>, Seq<u8>)),
}

impl View for Event {
    type V = EventView;

    open spec fn view(&self) -> EventView {
        match self {
            Event::LevelUp(level, who) => EventView::LevelUp(*level, *who),
            Event::WorldDataUpdate(game, entry) => EventView::WorldDataUpdate(*game, entry@),
        }
    }
}

} // verus!
