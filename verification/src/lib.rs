//! A batch WHOIS client core: a pool of concurrent WHOIS conversations
//! driven by readiness events, a routing database that maps lookup objects
//! to the servers that answer for them, and a caching DNS resolver that
//! names those servers without blocking.
//!
//! The crate holds the decisions and the data: classification of raw input
//! into domains, addresses and AS numbers; the suffix walk and templates
//! that shape each wire query; referral and availability matching over
//! response bodies; the bucketed time wheel and the TTL cache built on it;
//! the DNS wire forms; and the output record framings.  Sockets, files and
//! the event loop stay with the embedding program, which feeds bytes and
//! readiness in and carries the returned actions out.

pub mod cache;
pub mod client;
pub mod codec;
pub mod database;
pub mod dispatch;
pub mod dnswire;
pub mod expiry;
pub mod handler;
pub mod ip;
pub mod query;
pub mod resolver;
pub mod textutil;
