//! A message in the queue.
use crate::record::{end_at, message_at, MessageHeader, MessageView, HEADER_SIZE};
use crate::segment::Segment;
use vstd::prelude::*;

verus! {

/// Where a message starts in its segment file.
#[derive(Debug, Clone, Copy, PartialEq, Eq, Structural)]
pub struct InnerMessage {
    pub offset: u32,
}

/// A message that is read in place. As long as it is there its segment can
/// neither change nor go away.
#[derive(Debug, Clone, Copy)]
pub struct Message<'q, 'a> {
    segment: &'q Segment<'a>,
    inner: InnerMessage,
}

impl<'q, 'a> View for Message<'q, 'a> {
    type V = MessageView;

    closed spec fn view(&self) -> MessageView {
        message_at(self.segment@.image, self.inner.offset as int)
    }
}

impl<'q, 'a> Message<'q, 'a> {
    /// The offset of the message in its file.
    pub closed spec fn offset(&self) -> u32 {
        self.inner.offset
    }

    /// The bytes of the file that the message is in.
    pub closed spec fn image(&self) -> Seq<u8> {
        self.segment@.image
    }

    /// The message lies inside its file.
    pub closed spec fn wf(&self) -> bool {
        end_at(self.segment@.image, self.inner.offset as int) <= self.segment@.image.len()
    }

    /// The message at an offset of a segment.
    pub(crate) fn new(segment: &'q Segment<'a>, inner: InnerMessage) -> (message: Message<'q, 'a>)
        requires
            end_at(segment@.image, inner.offset as int) <= segment@.image.len(),
        ensures
            message.wf(),
            message.offset() == inner.offset,
            message.image() == segment@.image,
            message@ == message_at(segment@.image, inner.offset as int),
    {
        Message { segment, inner }
    }

    /// The number of the message.
    pub fn id(&self) -> (id: u64)
        requires
            self.wf(),
        ensures
            id == self@.id,
    {
        MessageHeader::read(self.segment.mapped(), self.inner.offset as usize).id
    }

    /// The time at which the message was pushed.
    pub fn timestamp(&self) -> (timestamp: u32)
        requires
            self.wf(),
        ensures
            timestamp == self@.timestamp,
    {
        MessageHeader::read(self.segment.mapped(), self.inner.offset as usize).timestamp
    }

    /// The contents of the message.
    pub fn body(&self) -> (body: &'q [u8])
        requires
            self.wf(),
        ensures
            body@ == self@.body,
    {
        let mem: &'q [u8] = self.segment.mapped();
        assert(end_at(mem@, self.inner.offset as int) <= mem.len());
        let start: usize = self.inner.offset as usize + HEADER_SIZE as usize;
        let len: u32 = MessageHeader::read(mem, self.inner.offset as usize).len;
        &mem[start..start + len as usize]
    }

    /// The bytes of the file that the message is in.
    pub fn mapped(&self) -> (mem: &'q [u8])
        ensures
            mem@ == self.image(),
    {
        self.segment.mapped()
    }

    /// Where the message starts in its segment file.
    pub fn fd_offset(&self) -> (offset: u32)
        ensures
            offset == self.offset(),
    {
        self.inner.offset
    }
}

} // verus!
