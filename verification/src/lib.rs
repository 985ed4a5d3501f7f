//! A BitTorrent client core, verified with Verus: the bencode codec
//! with its round-trip law, the metainfo model and its content-addressed
//! info hash, the peer wire handshake, framing and flow-control state
//! machine, and the block-by-block piece download with SHA-1
//! verification.  Network and file transport live outside this crate
//! and hand these modules plain bytes.
pub mod bencode;
pub mod hashing;
pub mod torrent;
pub mod peer;
pub mod download;
pub mod tracker;
