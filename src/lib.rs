//! A confidential balance ledger.
//!
//! `engine` states what the confidential computations do to a decrypted mapping of
//! identities to balances. `shards` keeps the encrypted entries in shards of bounded size.
//! `protocol` runs each operation as a request to the confidential engine and a callback
//! that settles it exactly once. `state` holds the stored records and the error codes.

pub mod engine;
pub mod protocol;
pub mod shards;
pub mod state;
