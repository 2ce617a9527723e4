//! Key-value storage: an in-memory store, and the snapshot store built on it.

pub mod dex_db;
pub mod db_layer;
pub mod replicated_db_layer;
