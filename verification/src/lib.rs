//! The parts of a load balancer that decide things: who holds a virtual
//! address, and how its certificates are obtained and renewed.
//!
//! Nothing here opens a socket, reads a file or looks at a clock. Every
//! function is handed the bytes, the answer or the moment it works on and
//! returns what to do about it.

pub mod bytes;
pub mod net;
pub mod text;
pub mod time;
pub mod tls;
pub mod vrrp;
