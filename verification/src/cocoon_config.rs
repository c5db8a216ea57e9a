//! Daemon configuration records. Loading them from a file is the
//! embedder's business; paths are carried as bytes.

use vstd::prelude::*;

verus! {

/// Where the key-value database lives.
#[derive(Debug, PartialEq)]
pub struct KVDatabaseConfig {
    pub db_path: Vec<u8>,
}

/// Where the relational store lives.
#[derive(Debug, PartialEq)]
pub struct SqliteConfig {
    pub db_path: Vec<u8>,
}

/// Everything the daemon is configured with.
#[derive(Debug, PartialEq)]
pub struct DaemonConfig {
    pub kv_database_config: KVDatabaseConfig,
    pub sqlite_config: SqliteConfig,
    pub working_directory: Vec<u8>,
}

} // verus!
