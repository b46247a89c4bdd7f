//! A queue of messages kept in segment files.
//!
//! A file is a run of bytes that the caller has mapped into memory. The queue
//! reads and writes these bytes; creating, mapping, flushing and deleting
//! files is up to the caller.
pub mod bytes;
pub mod checkpoint;
pub mod error;
pub mod file_name;
pub mod guarantees;
pub mod history;
pub mod laws;
pub mod layout;
pub mod message;
pub mod offset_index;
pub mod queue;
pub mod record;
pub mod recovery;
pub mod segment;

pub use checkpoint::{QueueBackendCheckpoint, SegmentCheckpoint};
pub use error::{QueueBackendError, QueueBackendResult};
pub use message::{InnerMessage, Message};
pub use queue::{QueueBackend, SegmentFile, SyncRequest};
pub use segment::Segment;
