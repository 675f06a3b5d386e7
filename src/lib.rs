//! The checkpoint core of a streaming dataflow engine: an interning record
//! store that is serialized in slices, one per epoch, together with the
//! source positions of that epoch; the upload commands that commit a slice;
//! and recovery of the record store and the latest checkpoint from the
//! slices found in storage.
pub mod checkpoint;
pub mod codec;
pub mod field;
pub mod keys;
pub mod node;
pub mod record_store;
pub mod slice;
