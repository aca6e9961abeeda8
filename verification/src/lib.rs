//! Snapshot delta codec for a real-time multiplayer game protocol.
//!
//! A snapshot is a keyed collection of small entity records; the server
//! transmits each snapshot as a delta against an earlier one the client has
//! acknowledged.  This crate holds the snap store, the delta engine, and the
//! wire codec over sequences of packed signed 32-bit integers.

pub mod chunks;
pub mod delta;
pub mod delta_wire;
pub mod format;
pub mod snap;
pub mod wire;

pub use chunks::delta_chunks;
pub use chunks::DeltaChunks;
pub use chunks::SnapMsg;
pub use chunks::MAX_SNAPSHOT_PACKSIZE;
pub use delta::Delta;
pub use format::key;
pub use format::key_to_id;
pub use format::key_to_type_id;
pub use format::Warning;
pub use format::MAX_SNAPSHOT_SIZE;
pub use snap::Builder;
pub use snap::BuilderError;
pub use snap::Error;
pub use snap::Items;
pub use snap::Snap;
pub use wire::SnapReader;
