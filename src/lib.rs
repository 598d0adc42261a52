//! Persistence of a node's peer address book: a versioned binary layout for
//! the white list, the gray list and the ban table, closed by a check value,
//! and the conversion of monotonic ban expiries into durations that survive
//! a restart.
pub mod bans;
pub mod checksum;
pub mod layout;
pub mod record;
pub mod store;
pub mod wire;
