//! The startup checks: the two connection strings must be present, the
//! cache client must accept its URL, and the bind address must parse.
//! Each failure is told apart, and startup fails fast on the first one;
//! what passes every check is gathered into a plan for the server loop.
//!
//! Whether the cache URL is accepted is the cache crate's decision, so
//! `finish_startup` takes that outcome as an argument and is verified for
//! either; `prepare_server` makes the call and states what holds whatever
//! came back.

use vstd::prelude::*;

use crate::addr::BindAddr;
use crate::addr::parse_bind_addr;
use crate::addr::spec_addr_str;
use crate::cache::open_cache_client;

verus! {

/// The log-level filter the process runs with: the configured value where
/// one is set, and "info" otherwise.
pub fn log_filter(configured: Option<String>) -> (r: String)
    ensures
        configured matches Some(v) ==> r@ == v@,
        configured is None ==> r@ == "info"@,
{
    match configured {
        Some(v) => v,
        None => "info".to_owned(),
    }
}

/// Why startup was refused before any listener came up.
#[derive(Clone, Copy, PartialEq, Eq, Structural, Debug)]
pub enum StartupError {
    /// The database connection string was not set.
    MissingDatabaseUrl,
    /// The cache connection string was not set.
    MissingRedisUrl,
    /// The cache connection string was set but was rejected as a cache URL.
    InvalidCacheUrl,
    /// The bind address is not the text form of any address.
    InvalidBindAddr,
}

impl StartupError {
    /// A fixed description of the failure, for the process's fatal log line.
    pub fn describe(&self) -> (m: &'static str)
        ensures
            self is MissingDatabaseUrl ==> m@ == "DATABASE_URL must be set"@,
            self is MissingRedisUrl ==> m@ == "REDIS_URL must be set"@,
            self is InvalidCacheUrl ==> m@ == "invalid redis URL"@,
            self is InvalidBindAddr ==> m@ == "invalid bind address"@,
    {
        match self {
            StartupError::MissingDatabaseUrl => "DATABASE_URL must be set",
            StartupError::MissingRedisUrl => "REDIS_URL must be set",
            StartupError::InvalidCacheUrl => "invalid redis URL",
            StartupError::InvalidBindAddr => "invalid bind address",
        }
    }
}

/// Everything the checks produced, ready for the server loop: the database
/// connection string, the cache client handle, and the parsed bind address.
pub struct StartupPlan {
    pub database_url: String,
    pub cache: redis::Client,
    pub addr: BindAddr,
}

/// Finishes startup once the cache client's construction has been decided:
/// a missing client is the cache URL's fault, then the bind address must be
/// the text form of an address, and the contract is exact for every value
/// of the cache outcome.
pub fn finish_startup(database_url: String, cache: Option<redis::Client>, server_addr: &str) -> (r:
    Result<StartupPlan, StartupError>)
    ensures
        cache is None ==> r == Err::<StartupPlan, StartupError>(StartupError::InvalidCacheUrl),
        cache is Some && (forall|b: BindAddr| server_addr@ != spec_addr_str(b)) ==> r
            == Err::<StartupPlan, StartupError>(StartupError::InvalidBindAddr),
        forall|b: BindAddr|
            cache is Some && server_addr@ == spec_addr_str(b) ==> (r matches Ok(plan)
                && plan.database_url@ == database_url@ && plan.addr == b),
{
    let c = match cache {
        Some(c) => c,
        None => {
            return Err(StartupError::InvalidCacheUrl);
        },
    };
    let addr = match parse_bind_addr(server_addr) {
        Some(a) => a,
        None => {
            return Err(StartupError::InvalidBindAddr);
        },
    };
    proof {
        assert forall|b: BindAddr| server_addr@ == spec_addr_str(b) implies addr == b by {
            crate::addr::lemma_addr_str_unambiguous(addr, b);
        }
    }
    Ok(StartupPlan { database_url, cache: c, addr })
}

/// Runs every startup check in order. The contract pins each refusal to
/// its input: a missing database string first, then a missing cache string;
/// with both present, the only failures left are a rejected cache URL and
/// an unparsable bind address, and an address in text form is never the
/// one blamed.
pub fn prepare_server(database_url: Option<String>, redis_url: Option<String>, server_addr: &str) -> (r:
    Result<StartupPlan, StartupError>)
    ensures
        ({
            match (database_url, redis_url) {
                (None, _) => r == Err::<StartupPlan, StartupError>(
                    StartupError::MissingDatabaseUrl,
                ),
                (Some(_), None) => r == Err::<StartupPlan, StartupError>(
                    StartupError::MissingRedisUrl,
                ),
                (Some(d), Some(_)) => {
                    &&& (r is Ok || r == Err::<StartupPlan, StartupError>(
                        StartupError::InvalidCacheUrl,
                    ) || r == Err::<StartupPlan, StartupError>(StartupError::InvalidBindAddr))
                    &&& (r matches Ok(plan) ==> plan.database_url@ == d@ && server_addr@
                        == spec_addr_str(plan.addr))
                    &&& (r == Err::<StartupPlan, StartupError>(StartupError::InvalidBindAddr)
                        ==> forall|b: BindAddr| server_addr@ != spec_addr_str(b))
                },
            }
        }),
{
    let db = match database_url {
        Some(d) => d,
        None => {
            return Err(StartupError::MissingDatabaseUrl);
        },
    };
    let ru = match redis_url {
        Some(u) => u,
        None => {
            return Err(StartupError::MissingRedisUrl);
        },
    };
    let cache = match open_cache_client(ru.as_str()) {
        Ok(c) => Some(c),
        Err(_) => None,
    };
    finish_startup(db, cache, server_addr)
}

} // verus!
