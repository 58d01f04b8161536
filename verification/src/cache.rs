//! The cache client handle. Constructing it parses the cache URL (no
//! connection is made). Whether a given URL is accepted depends on the
//! cache crate's build and target (its socket schemes are not available
//! everywhere), so nothing is promised of the outcome here; the startup
//! checks take the outcome as an argument and are verified for either.

use vstd::prelude::*;

verus! {

#[verifier::external_type_specification]
#[verifier::external_body]
pub struct ExRedisClient(redis::Client);

#[verifier::external_type_specification]
#[verifier::external_body]
pub struct ExRedisError(redis::RedisError);

/// Relies on redis::Client::open on a &str: it only parses the URL into
/// connection info and performs no I/O; it returns Err when the URL is
/// rejected.
#[verifier::external_body]
pub(crate) fn open_cache_client(url: &str) -> Result<redis::Client, redis::RedisError> {
    redis::Client::open(url)
}

} // verus!
