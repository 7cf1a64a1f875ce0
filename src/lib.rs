//! Phoenix: a chunk-deduplicated file synchronisation library.
pub mod arguments;
pub mod bytes;
pub mod config;
pub mod db;
pub mod digest;
pub mod error;
pub mod laws;
pub mod messaging;
pub mod session;
pub mod sync;
pub mod table;
