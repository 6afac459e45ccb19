//! The core of a synchronous HTTP/1.1 server and client: a message codec
//! with body-length discipline, a routing trie with longest-prefix
//! lookup, path normalization, per-message deadline bookkeeping, a
//! hybrid worker-pool dispatcher, a tracked list of live connections,
//! and an idle-connection cache with a least-recently-used bound.

pub mod errors;
pub mod headers;
pub mod message;
pub mod method;
pub mod observed;
pub mod pool;
pub mod router;
pub mod server;
pub mod status;
pub mod streams;
pub mod text;
pub mod timeout;
pub mod trie;
pub mod version;
pub mod workers;

use vstd::prelude::*;

verus! {

/// Maximum time in seconds allowed for reading one request.
pub const DEFAULT_READ_REQUEST_TIMEOUT_SECS: u64 = 30;

/// Maximum time in seconds allowed for writing one response.
pub const DEFAULT_WRITE_RESPONSE_TIMEOUT_SECS: u64 = 30;

/// The pair of deadlines a server applies to each connection.
#[derive(Clone, Copy, Debug)]
pub struct Timeouts {
    /// Maximum time in seconds for a request to be read.
    pub read_request_timeout: u64,
    /// Maximum time in seconds for a response to be written.
    pub write_response_timeout: u64,
}

impl Timeouts {
    /// The default deadlines: thirty seconds each way.
    pub fn new() -> (r: Timeouts)
        ensures
            r.read_request_timeout == DEFAULT_READ_REQUEST_TIMEOUT_SECS,
            r.write_response_timeout == DEFAULT_WRITE_RESPONSE_TIMEOUT_SECS,
    {
        Timeouts {
            read_request_timeout: DEFAULT_READ_REQUEST_TIMEOUT_SECS,
            write_response_timeout: DEFAULT_WRITE_RESPONSE_TIMEOUT_SECS,
        }
    }
}

} // verus!
