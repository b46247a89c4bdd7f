//! What is written down about the queue so that it can be opened again.
use vstd::prelude::*;

verus! {

/// The state of one segment.
#[derive(Debug, Clone, Copy, PartialEq, Eq, Structural)]
pub struct SegmentCheckpoint {
    /// The id of the first message.
    pub tail: u64,
    /// The id behind the last message.
    pub head: u64,
    /// How many bytes of the file have reached the disk.
    pub sync_offset: u32,
    /// Whether the segment may be collected.
    pub closed: bool,
}

impl Default for SegmentCheckpoint {
    fn default() -> (checkpoint: SegmentCheckpoint)
        ensures
            checkpoint == (SegmentCheckpoint { tail: 0, head: 0, sync_offset: 0, closed: false }),
    {
        SegmentCheckpoint { tail: 0, head: 0, sync_offset: 0, closed: false }
    }
}

/// The state of the queue: its segments, oldest first.
#[derive(Debug)]
pub struct QueueBackendCheckpoint {
    pub segments: Vec<SegmentCheckpoint>,
}

impl Default for QueueBackendCheckpoint {
    fn default() -> (checkpoint: QueueBackendCheckpoint)
        ensures
            checkpoint.segments@ == Seq::<SegmentCheckpoint>::empty(),
    {
        QueueBackendCheckpoint { segments: Vec::new() }
    }
}

} // verus!
