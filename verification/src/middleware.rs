//! The request-screening rules of the middleware chain, as one decision
//! function: a request body over 1 MiB is rejected before any routing, a
//! request whose handling exceeds the 10-second budget is cut off with a
//! timeout, and only what passes both reaches the route table.

use vstd::prelude::*;

use crate::http::HttpResponse;
use crate::http::dispatch;
use crate::http::spec_route;

verus! {

/// Largest request body the service accepts, in bytes (1 MiB).
pub const MAX_BODY_BYTES: u64 = 1024 * 1024;

/// Budget for handling one request, in milliseconds (10 seconds).
pub const REQUEST_TIMEOUT_MS: u64 = 10000;

/// How the service concludes one request.
pub enum RequestOutcome {
    /// A handler ran and produced this response.
    Reply(HttpResponse),
    /// The body was over the size limit; no handler ran.
    PayloadTooLarge,
    /// Handling ran past the timeout budget and was cut off.
    TimedOut,
    /// No route matched the path.
    NotFound,
}

/// Decides one request: screens the body size, then the time budget, then
/// routes. `body_len` is the request body's length in bytes and `elapsed_ms`
/// is how long handling the request takes.
pub fn process_request(path: &str, body_len: u64, elapsed_ms: u64) -> (r: RequestOutcome)
    ensures
        body_len > MAX_BODY_BYTES ==> r is PayloadTooLarge,
        body_len <= MAX_BODY_BYTES && elapsed_ms > REQUEST_TIMEOUT_MS ==> r is TimedOut,
        body_len <= MAX_BODY_BYTES && elapsed_ms <= REQUEST_TIMEOUT_MS ==> match spec_route(
            path@,
        ) {
            Some(p) => r matches RequestOutcome::Reply(h) && h.status == p.0 && h.body@ == p.1,
            None => r is NotFound,
        },
{
    if body_len > MAX_BODY_BYTES {
        RequestOutcome::PayloadTooLarge
    } else if elapsed_ms > REQUEST_TIMEOUT_MS {
        RequestOutcome::TimedOut
    } else {
        match dispatch(path) {
            Some(h) => RequestOutcome::Reply(h),
            None => RequestOutcome::NotFound,
        }
    }
}

} // verus!
