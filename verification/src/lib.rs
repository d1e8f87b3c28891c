//! Piece-lifecycle core of a peer-to-peer content distribution daemon.
//!
//! Peers cooperatively download blobs split into fixed-size pieces. This
//! crate holds the verified concurrency core: an LRU cache bounding the
//! in-memory hot set, a single-producer / single-consumer piece selector,
//! and the state machine behind the piece-synchronization stream, together
//! with the decision logic of the dfdaemon RPC handlers. Transport,
//! storage and task facades are external collaborators driven from
//! unverified glue.

pub mod dfdaemon;
pub mod lru_cache;
pub mod piece_selector;
pub mod sync_pieces;
