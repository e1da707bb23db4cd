//! Verified core of a scheduled data-bridge utility: it discovers a directory
//! of SQL query files, turns each query's result rows into a flat text record,
//! and prepares the parameters for a remote spreadsheet function call. OAuth
//! tokens survive restarts through a persistent token store keyed by a 64-bit
//! scope fingerprint.
//!
//! This crate holds the logic of the bridge: the token store and its on-disk
//! JSON format, job discovery and filename parsing, record building and its
//! JSON serialization, and the fatal-versus-skip failure policy. All file,
//! database and network traffic stays with the caller, which hands the
//! library plain bytes and takes plain bytes back.
use vstd::prelude::*;

pub mod auth;
pub mod codec;
pub mod importer;

verus! {

/// Runtime configuration, constructed once at startup and then read-only.
/// Every field holds UTF-8 text as bytes.
pub struct Config {
    /// OAuth client id.
    pub oauth_id: Vec<u8>,
    /// OAuth client secret.
    pub oauth_secret: Vec<u8>,
    /// Path of the persisted token file; empty means the default path.
    pub tokenfile: Vec<u8>,
    /// PostgreSQL connection string.
    pub psql_url: Vec<u8>,
    /// Directory holding the `.sql` job files.
    pub sqldir: Vec<u8>,
    /// Identifier of the remote script.
    pub script_id: Vec<u8>,
    /// Name of the remote function to invoke.
    pub func_name: Vec<u8>,
    /// Destination spreadsheet, passed as the first remote parameter.
    pub spreadsheet_url: Vec<u8>,
}

} // verus!
