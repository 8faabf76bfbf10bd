//! A log-structured key-value store.
//!
//! Records are appended to an active data file; once it passes a size limit
//! it becomes immutable and a new data file is opened. An in-memory index
//! maps each key to the record that last set it, and is rebuilt on opening
//! by replaying the records of the files in order.
pub mod assoc;
pub mod engine;
pub mod entry;
pub mod errors;
pub mod file;
pub mod index;
pub mod laws;
pub mod log;
pub mod paths;
pub mod store;

pub use crate::paths::new_tmp_file;
pub use crate::store::KvStore;
