//! The wire formats and decisions of a rendezvous-based peer-to-peer file
//! transfer: a public server collects the endpoints of the peers that
//! register with it and hands each peer the endpoints of the others; the
//! peers then dial each other and stream a file, announced by a metadata
//! message and acknowledged before the bytes follow.
//!
//! - `decimal`: decimal numbers, written and read as Rust's `Display` and
//!   `FromStr` for unsigned integers do.
//! - `fields`: splitting bytes into fields and joining them back.
//! - `endpoint`: the `address:port` text.
//! - `server`: the registry of peers and what the server sends.
//! - `peer`: what a client does with the server's reply, and its dialing loop.
//! - `transfer`: the metadata message, its acknowledgement and the progress
//!   of a receiver.
use vstd::prelude::*;

pub mod decimal;
pub mod fields;
pub mod endpoint;
pub mod server;
pub mod peer;
pub mod transfer;

verus! {

} // verus!
