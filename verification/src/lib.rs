//! An embedded, schema-typed key-value store: a process-local database of
//! named tables, each holding typed records addressed by a primary key,
//! with optional time-to-live eviction and whole-database persistence to a
//! single byte image.
//!
//! The library owns the data model, the schema enforcement, the query and
//! pruning rules, and the persistence encoding; file handling, locking and
//! the background maintenance thread live outside it and hand it plain
//! values.

pub mod assoc;
pub mod codec;
pub mod database;
pub mod entry;
pub mod errors;
pub mod fields;
pub mod store;
pub mod table;

pub use database::{Database, DatabaseV};
pub use entry::{Entry, EntryBuilder, EntryV};
pub use errors::DatabaseError;
pub use store::{load_bytes, save_bytes};
pub use fields::{Field, FieldRequirement, FieldType, FieldV};
pub use table::{Table, TableBuilder, TableV};
