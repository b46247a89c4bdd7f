//! Where in a segment file each message starts.
use vstd::prelude::*;

verus! {

/// Maps the ids of a run of messages to their file offsets. Ids enter in
/// order, one after the other, from the first id on.
#[derive(Debug)]
pub struct OffsetIndex {
    start_id: u64,
    offsets: Vec<u32>,
}

impl View for OffsetIndex {
    type V = Seq<u32>;

    /// The offsets, by distance from the first id.
    closed spec fn view(&self) -> Seq<u32> {
        self.offsets@
    }
}

impl OffsetIndex {
    /// The first id.
    pub closed spec fn start(&self) -> u64 {
        self.start_id
    }

    /// An empty index whose first id will be `start_id`.
    pub fn new(start_id: u64) -> (index: OffsetIndex)
        ensures
            index.start() == start_id,
            index@ == Seq::<u32>::empty(),
    {
        OffsetIndex { start_id, offsets: Vec::new() }
    }

    /// Adds the offset of the next message.
    #[allow(unused_variables)]
    pub fn push_offset(&mut self, id: u64, offset: u32)
        requires
            id == old(self).start() + old(self)@.len(),
        ensures
            final(self).start() == old(self).start(),
            final(self)@ == old(self)@.push(offset),
    {
        self.offsets.push(offset);
    }

    /// The offset of the message numbered `id`.
    pub fn get_offset(&self, id: u64) -> (offset: Option<u32>)
        ensures
            offset == (if self.start() <= id < self.start() + self@.len() {
                Some(self@[id - self.start()])
            } else {
                None
            }),
    {
        if id < self.start_id {
            return None;
        }
        let distance: u64 = id - self.start_id;
        if distance < self.offsets.len() as u64 {
            Some(self.offsets[distance as usize])
        } else {
            None
        }
    }
}

} // verus!
