//! Startup configuration handed in by the process bootstrap.

use vstd::prelude::*;

verus! {

/// Values fixed once at process start: the port to serve on, the database
/// connection string, and the salt for password hashing.  Reading them from
/// the environment is the bootstrap's job, not this crate's.
pub struct ServerConfig {
    pub port: u16,
    pub database_url: String,
    pub salt: Box<[u8]>,
}

} // verus!
