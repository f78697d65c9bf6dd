//! An iterative DNS resolver library: RFC 1035 wire-format codec,
//! TTL-indexed answer cache, and the decision core of the resolution loop.

pub mod cache;
pub mod cursor;
pub mod error;
pub mod header;
pub mod ip;
pub mod packet;
pub mod question;
pub mod record;
pub mod resolver;
pub mod rr_fields;
pub mod strutil;
pub mod util;
