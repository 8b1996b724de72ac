//! The verified core of a recursive DNS resolver: the bit-exact wire
//! codec for DNS messages with compression-pointer safety, the TTL
//! record cache with set semantics, and the decisions of recursive
//! descent.  Sockets and the event loop live outside, in the program
//! built around this library.

pub mod buffer;
pub mod dns_cache;
pub mod dns_packet;
pub mod errors;
pub mod resolver;
pub mod text;
