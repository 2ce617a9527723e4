//! The database layer: the in-memory store and the snapshot store.

pub use crate::storage::dex_db::InMemoryDb;
pub use crate::storage::replicated_db_layer::{CrdtSnapshot, DexDB};
