//! Verified core of a peer-to-peer block downloader: order scheduling,
//! reply parsing and request framing.

pub mod addr;
pub mod block;
pub mod digits;
pub mod orders;
pub mod requests;
pub mod scheduler;
pub mod text;
pub mod tally;
pub mod torrent;
