//! Verified core of a small HTTP service: a fixed route table with three
//! handlers, the request-screening rules of the middleware chain (body-size
//! limit and timeout), and the startup configuration checks (environment
//! presence, cache URL validation, bind-address parsing).

pub mod http;
pub mod addr;
pub mod cache;
pub mod middleware;
pub mod startup;
