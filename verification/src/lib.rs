//! The logic of a caching DNS resolver: reading a client's question,
//! reading, classifying and rewriting upstream responses, building queries
//! and responses, deciding what is cached and for how long, and resolving
//! a request through delegations and CNAME chains.
pub mod cache;
pub mod dns;
pub mod dns_packet;
pub mod error;
pub mod name;
pub mod readback;
pub mod resolver;
pub mod text;
pub mod wire;
