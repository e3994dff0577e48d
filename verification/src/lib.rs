//! A minimal verified client core for fetching a resource in fixed-size byte
//! ranges over HTTP/1.1-style range requests, reassembling the ranges in
//! order, and fingerprinting the result.
//!
//! The library holds everything that computes: response parsing, header
//! lookup, range scheduling, session state, reassembly, and digest reporting.
//! The transport itself (one fresh connection per request, write then
//! read-to-end) is left to the embedding program, which feeds raw response
//! bytes back into the library.

pub mod ascii;
pub mod errors;
pub mod headers;
pub mod response;
pub mod session;
pub mod digest;
pub mod request;
