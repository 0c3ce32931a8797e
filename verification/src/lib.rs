//! A persistent key-value record store: an in-memory mapping from 64-bit
//! identifiers to records, with upsert/get/get-all/delete operations, a
//! plaintext credential check, and a whole-store snapshot codec so that a
//! host can persist the full state to a single file after every mutation.

pub mod records;
pub mod store;
pub mod snapshot;
pub mod game;
pub mod game_snapshot;
pub mod laws;
