//! A permissioned, per-game key-value save-data store.
//!
//! Authority accounts register games, grant and revoke write permissions,
//! and read or write two kinds of records: world-scoped data shared across
//! a game, and per-user data scoped to one account.  Every record is split
//! into an external and an internal visibility route; internal routes need
//! elevated access.  All state lives in a single [`Pallet`] value whose
//! operations commit or fail atomically.
#![verifier::loop_isolation(false)]

pub mod authority;
pub mod codec;
pub mod laws;
pub mod pallet;
pub mod record;
pub mod store;
pub mod types;

pub use pallet::GenesisConfig;
pub use pallet::Pallet;
pub use record::DataRecord;
pub use store::Store;
pub use store::UserKey;
pub use store::WorldKey;
pub use types::Access;
pub use types::DataEntry;
pub use types::Error;
pub use types::Event;
pub use types::Permission;
pub use types::Route;
pub use types::MAX_BYTES;
pub use types::MAX_PERMISSIONS;
pub use types::MAX_RECORD_ENTRIES;
pub use types::NUMERIC_WIDTH;
