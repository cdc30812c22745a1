//! Requests and direct answers: reading a client's question and answering
//! it from a table of addresses.
pub mod builder;
pub mod parser;
