//! One file of the queue: a run of messages behind one another.
use crate::bytes::{
    le32, le32_bytes, lemma_le32_bytes_of, lemma_le32_round_trip, overwrite, read_u32, same_range,
    write_u32,
};
use crate::checkpoint::SegmentCheckpoint;
use crate::error::{QueueBackendError, QueueBackendResult};
use crate::message::InnerMessage;
use crate::offset_index::OffsetIndex;
use crate::record::{
    end_at, header_at, intact_at, lemma_same_message, lemma_stored_len, lemma_stored_round_trip, message_at,
    next_in_file, next_message, scan, scan_end, write_message, MessageView, HEADER_SIZE, MAGIC_NUM,
    MAGIC_SIZE,
};
use vstd::prelude::*;

verus! {

/// How far behind the end of the messages a partial sync stays.
pub const SYNC_LAG: u32 = 1024 * 1024;

/// What a segment consists of.
#[verifier::ext_equal]
pub struct SegmentView {
    /// The bytes of the file.
    pub image: Seq<u8>,
    /// How many bytes of the file are in use, as a 32 bit number.
    pub file_size: u32,
    /// Where the next message goes.
    pub file_offset: u32,
    /// How many bytes have reached the disk.
    pub sync_offset: u32,
    /// The id of the first message.
    pub tail: u64,
    /// The id of the next message.
    pub head: u64,
    /// Whether the segment may be collected.
    pub closed: bool,
    /// Whether the file goes away with the segment.
    pub deleted: bool,
    /// Where each message starts.
    pub offsets: Seq<u32>,
}

/// The length of a file as far as 32 bit offsets reach.
pub open spec fn file_size_of(len: int) -> int {
    len % 0x1_0000_0000
}

/// A file of this length is either too short for a segment, and refused, or has
/// room for the magic number within the reach of 32 bit offsets.
pub open spec fn usable_len(len: int) -> bool {
    len > MAGIC_SIZE ==> file_size_of(len) >= MAGIC_SIZE
}

impl SegmentView {
    /// A file that nothing has been read from or written to.
    pub open spec fn mapped(image: Seq<u8>, start_id: u64) -> SegmentView {
        SegmentView {
            image,
            file_size: file_size_of(image.len() as int) as u32,
            file_offset: 0,
            sync_offset: 0,
            tail: start_id,
            head: start_id,
            closed: false,
            deleted: false,
            offsets: Seq::empty(),
        }
    }

    /// A new segment without messages.
    pub open spec fn created(image: Seq<u8>, start_id: u64) -> SegmentView {
        SegmentView {
            image: overwrite(image, 0, le32_bytes(MAGIC_NUM)),
            file_offset: MAGIC_SIZE,
            ..SegmentView::mapped(image, start_id)
        }
    }

    /// The segment that is found in a file: the messages from the id in the
    /// checkpoint on, up to the first that is missing or damaged.
    pub open spec fn opened(image: Seq<u8>, checkpoint: SegmentCheckpoint) -> SegmentView {
        SegmentView::mapped(image, checkpoint.tail).recovered(checkpoint)
    }

    /// The segment after its messages have been read from its file.
    pub open spec fn recovered(self, checkpoint: SegmentCheckpoint) -> SegmentView {
        let image = overwrite(self.image, 0, le32_bytes(MAGIC_NUM));
        let size = self.file_size as int;
        let offsets = scan(image, size, MAGIC_SIZE as int, checkpoint.tail as int);
        let end = scan_end(image, size, MAGIC_SIZE as int, checkpoint.tail as int) as u32;
        SegmentView {
            image,
            file_offset: end,
            sync_offset: end,
            tail: checkpoint.tail,
            head: (checkpoint.tail + offsets.len()) as u64,
            closed: checkpoint.closed,
            offsets,
            ..self
        }
    }

    /// There is room for a message with a body of `len` bytes.
    pub open spec fn fits(self, len: int) -> bool {
        HEADER_SIZE + len <= self.file_size - self.file_offset
    }

    /// The segment with one more message.
    pub open spec fn pushed(self, timestamp: u32, body: Seq<u8>) -> SegmentView {
        let m = MessageView { id: self.head, timestamp, body };
        SegmentView {
            image: overwrite(self.image, self.file_offset as int, m.stored()),
            file_offset: (self.file_offset + m.size()) as u32,
            head: (self.head + 1) as u64,
            offsets: self.offsets.push(self.file_offset),
            ..self
        }
    }

    /// How far a sync goes: up to the last message, or a good bit less.
    pub open spec fn sync_target(self, full: bool) -> u32 {
        if full {
            self.file_offset
        } else if self.file_offset > SYNC_LAG {
            (self.file_offset - SYNC_LAG) as u32
        } else {
            0
        }
    }

    /// How many bytes a sync has to bring to the disk, if any.
    pub open spec fn sync_len(self, full: bool) -> Option<u32> {
        if self.sync_target(full) > self.sync_offset {
            Some(self.sync_target(full))
        } else {
            None
        }
    }

    /// The segment after a sync.
    pub open spec fn synced(self, full: bool) -> SegmentView {
        match self.sync_len(full) {
            Some(len) => SegmentView { sync_offset: len, ..self },
            None => self,
        }
    }

    /// What a checkpoint says of the segment.
    pub open spec fn checkpoint(self) -> SegmentCheckpoint {
        SegmentCheckpoint {
            tail: self.tail,
            head: self.head,
            sync_offset: self.sync_offset,
            closed: self.closed,
        }
    }

    /// Where message number `i`, counted from zero, starts; for the number of
    /// messages, where the last one ends.
    pub open spec fn bound(self, i: int) -> int {
        if i < self.offsets.len() {
            self.offsets[i] as int
        } else {
            self.file_offset as int
        }
    }

    /// Message number `i`, counted from zero, is stored whole and undamaged
    /// and ends where the next one starts.
    pub open spec fn holds(self, i: int) -> bool {
        let at = self.offsets[i] as int;
        &&& MAGIC_SIZE <= at
        &&& end_at(self.image, at) == self.bound(i + 1)
        &&& end_at(self.image, at) <= self.file_offset
        &&& header_at(self.image, at).id == self.tail + i
        &&& intact_at(self.image, at)
    }

    /// The file holds the messages from `tail` to `head`, without gaps.
    pub open spec fn wf(self) -> bool {
        &&& MAGIC_SIZE < self.image.len()
        &&& MAGIC_SIZE <= self.file_offset <= self.file_size
        &&& self.file_size == file_size_of(self.image.len() as int)
        &&& self.sync_offset <= self.file_offset
        &&& le32(self.image, 0) == MAGIC_NUM
        &&& self.head == self.tail + self.offsets.len()
        &&& self.bound(0) == MAGIC_SIZE
        &&& forall|i: int| 0 <= i < self.offsets.len() ==> #[trigger] self.holds(i)
    }

    /// Opening the file again will find all messages of the segment and no
    /// others: the last one ends before the last byte of the file, and the
    /// bytes behind it are not the next message.
    pub open spec fn reopenable(self) -> bool {
        &&& self.offsets.len() > 0 ==> self.file_offset < self.file_size
        &&& next_in_file(
            self.image,
            self.file_size as int,
            self.file_offset as int,
            self.head as int,
        ) is None
    }

    /// Nothing has been written behind the last message.
    pub open spec fn blank_behind(self) -> bool {
        forall|i: int| self.file_offset <= i < self.image.len() ==> #[trigger] self.image[i] == 0
    }

    /// The messages of the segment, oldest first.
    pub open spec fn messages(self) -> Seq<MessageView> {
        Seq::new(
            self.offsets.len(),
            |i: int| message_at(self.image, self.offsets[i] as int),
        )
    }

    /// The message with a given id.
    pub open spec fn message(self, id: int) -> MessageView {
        message_at(self.image, self.offsets[id - self.tail] as int)
    }
}

/// A segment and the bytes of its file.
#[derive(Debug)]
pub struct Segment<'a> {
    file_mmap: &'a mut [u8],
    file_size: u32,
    file_offset: u32,
    sync_offset: u32,
    tail: u64,
    head: u64,
    closed: bool,
    deleted: bool,
    index: OffsetIndex,
}

impl<'a> View for Segment<'a> {
    type V = SegmentView;

    closed spec fn view(&self) -> SegmentView {
        SegmentView {
            image: (*self.file_mmap)@,
            file_size: self.file_size,
            file_offset: self.file_offset,
            sync_offset: self.sync_offset,
            tail: self.tail,
            head: self.head,
            closed: self.closed,
            deleted: self.deleted,
            offsets: self.index@,
        }
    }
}

impl<'a> Segment<'a> {
    /// The index counts from the first message of the segment.
    pub closed spec fn index_wf(&self) -> bool {
        self.index.start() == self.tail
    }

    /// The segment is well formed.
    pub open spec fn wf(&self) -> bool {
        self.index_wf() && self@.wf()
    }

    /// The bytes of the file.
    pub fn mapped(&self) -> (mem: &[u8])
        ensures
            mem@ == self@.image,
    {
        &*self.file_mmap
    }

    /// Takes over a mapped file. A file that has no room behind the magic
    /// number is refused.
    pub fn new(file_mmap: &'a mut [u8], start_id: u64) -> (result: QueueBackendResult<Segment<'a>>)
        ensures
            match result {
                Ok(segment) => {
                    &&& old(file_mmap)@.len() > MAGIC_SIZE
                    &&& segment.index_wf()
                    &&& segment@ == SegmentView::mapped(old(file_mmap)@, start_id)
                },
                Err(error) => {
                    &&& old(file_mmap)@.len() <= MAGIC_SIZE
                    &&& error == QueueBackendError::SegmentFileInvalid
                    &&& final(file_mmap)@ == old(file_mmap)@
                },
            },
    {
        let file_size: u64 = file_mmap.len() as u64;
        if file_size <= MAGIC_SIZE as u64 {
            return Err(QueueBackendError::SegmentFileInvalid);
        }
        Ok(
            Segment {
                file_mmap,
                file_size: (file_size % 0x1_0000_0000) as u32,
                file_offset: 0,
                sync_offset: 0,
                tail: start_id,
                head: start_id,
                closed: false,
                deleted: false,
                index: OffsetIndex::new(start_id),
            },
        )
    }

    /// Turns a mapped file into a segment without messages, whose first
    /// message will have the number `start_id`.
    pub fn create(file_mmap: &'a mut [u8], start_id: u64) -> (result: QueueBackendResult<
        Segment<'a>,
    >)
        requires
            usable_len(old(file_mmap)@.len() as int),
        ensures
            match result {
                Ok(segment) => {
                    &&& old(file_mmap)@.len() > MAGIC_SIZE
                    &&& segment.wf()
                    &&& segment@ == SegmentView::created(old(file_mmap)@, start_id)
                },
                Err(error) => {
                    &&& old(file_mmap)@.len() <= MAGIC_SIZE
                    &&& error == QueueBackendError::SegmentFileInvalid
                    &&& final(file_mmap)@ == old(file_mmap)@
                },
            },
    {
        match Segment::new(file_mmap, start_id) {
            Ok(mut segment) => {
                write_u32(&mut *segment.file_mmap, 0, MAGIC_NUM);
                segment.file_offset = MAGIC_SIZE;
                proof {
                    lemma_created_wf(old(file_mmap)@, start_id);
                }
                Ok(segment)
            },
            Err(error) => Err(error),
        }
    }

    /// Finds the messages that the file holds. They run from the id in the
    /// checkpoint on and end before the first message that has another id,
    /// reaches the end of the file or has a wrong hash.
    pub fn recover(&mut self, checkpoint: &SegmentCheckpoint)
        requires
            old(self).index_wf(),
            old(self)@.offsets.len() == 0,
            old(self)@.tail == checkpoint.tail,
            MAGIC_SIZE < old(self)@.image.len(),
            MAGIC_SIZE <= old(self)@.file_size == file_size_of(old(self)@.image.len() as int),
        ensures
            final(self).wf(),
            final(self)@ == old(self)@.recovered(*checkpoint),
    {
        let ghost size = self.file_size as int;
        let ghost id = checkpoint.tail as int;
        let ghost image = overwrite(self@.image, 0, le32_bytes(MAGIC_NUM));
        assert(size <= self.file_mmap.len());

        self.tail = checkpoint.tail;
        self.head = checkpoint.tail;
        self.closed = checkpoint.closed;
        self.file_offset = MAGIC_SIZE;
        if read_u32(&*self.file_mmap, 0) != MAGIC_NUM {
            write_u32(&mut *self.file_mmap, 0, MAGIC_NUM);
        } else {
            proof {
                lemma_le32_bytes_of(self@.image, 0, MAGIC_NUM);
                assert forall|i: int| 0 <= i < 4 implies self@.image[i] == le32_bytes(
                    MAGIC_NUM,
                )[i] by {
                    assert(self@.image.subrange(0, 4)[i] == self@.image[i]);
                }
            }
        }
        assert(self@.image =~= image);

        loop
            invariant
                self@.image == image,
                self@.file_size == size,
                size == file_size_of(image.len() as int),
                self@.tail == id,
                self@.closed == checkpoint.closed,
                self@.deleted == old(self)@.deleted,
                self.index_wf(),
                self@.head == id + self@.offsets.len(),
                MAGIC_SIZE <= self@.file_offset <= size,
                self@.bound(0) == MAGIC_SIZE,
                forall|i: int| 0 <= i < self@.offsets.len() ==> #[trigger] self@.holds(i),
                self@.offsets + scan(image, size, self@.file_offset as int, self@.head as int)
                    == scan(image, size, MAGIC_SIZE as int, id),
                scan_end(image, size, self@.file_offset as int, self@.head as int) == scan_end(
                    image,
                    size,
                    MAGIC_SIZE as int,
                    id,
                ),
            ensures
                next_in_file(image, size, self@.file_offset as int, self@.head as int) is None,
            decreases size - self@.file_offset,
        {
            let ghost before = self@;
            match next_message(&*self.file_mmap, self.file_size, self.file_offset, self.head) {
                Some(end) => {
                    self.index.push_offset(self.head, self.file_offset);
                    self.file_offset = end;
                    self.head = self.head + 1;
                    proof {
                        assert forall|i: int| 0 <= i < self@.offsets.len() implies
                            #[trigger] self@.holds(i) by {
                            if i < before.offsets.len() {
                                assert(before.holds(i));
                            }
                        }
                        assert(before.offsets + scan(
                            image,
                            size,
                            before.file_offset as int,
                            before.head as int,
                        ) =~= self@.offsets + scan(
                            image,
                            size,
                            self@.file_offset as int,
                            self@.head as int,
                        ));
                    }
                },
                None => {
                    break;
                },
            }
        }
        let ghost found = self@;
        self.sync_offset = self.file_offset;
        proof {
            assert forall|i: int| 0 <= i < self@.offsets.len() implies #[trigger] self@.holds(
                i,
            ) by {
                assert(found.holds(i));
            }
            assert(self@.offsets =~= scan(image, size, MAGIC_SIZE as int, id));
            assert(self@ =~= old(self)@.recovered(*checkpoint));
            assert(image.subrange(0, 4) =~= le32_bytes(MAGIC_NUM));
            lemma_le32_round_trip(image, 0, MAGIC_NUM);
        }
    }

    /// Opens the segment that a mapped file holds.
    pub fn open(file_mmap: &'a mut [u8], checkpoint: &SegmentCheckpoint) -> (result:
        QueueBackendResult<Segment<'a>>)
        requires
            usable_len(old(file_mmap)@.len() as int),
        ensures
            match result {
                Ok(segment) => {
                    &&& old(file_mmap)@.len() > MAGIC_SIZE
                    &&& segment.wf()
                    &&& segment@ == SegmentView::opened(old(file_mmap)@, *checkpoint)
                },
                Err(error) => {
                    &&& old(file_mmap)@.len() <= MAGIC_SIZE
                    &&& error == QueueBackendError::SegmentFileInvalid
                    &&& final(file_mmap)@ == old(file_mmap)@
                },
            },
    {
        match Segment::new(file_mmap, checkpoint.tail) {
            Ok(mut segment) => {
                segment.recover(checkpoint);
                Ok(segment)
            },
            Err(error) => Err(error),
        }
    }

    /// Adds a message behind the last one and returns its id. If it does not
    /// fit the segment is closed.
    pub fn push(&mut self, body: &[u8], clock: u32) -> (result: QueueBackendResult<u64>)
        requires
            old(self).wf(),
            old(self)@.fits(body@.len() as int) ==> old(self)@.head < u64::MAX,
        ensures
            final(self).wf(),
            result is Ok <==> 20 + body@.len() <= old(self)@.file_size - old(self)@.file_offset,
            match result {
                Ok(id) => {
                    &&& old(self)@.fits(body@.len() as int)
                    &&& id == old(self)@.head
                    &&& final(self)@ == old(self)@.pushed(clock, body@)
                    &&& final(self)@.messages() == old(self)@.messages().push(
                        MessageView { id, timestamp: clock, body: body@ },
                    )
                },
                Err(error) => {
                    &&& !old(self)@.fits(body@.len() as int)
                    &&& error == QueueBackendError::SegmentFull
                    &&& final(self)@ == (SegmentView { closed: true, ..old(self)@ })
                },
            },
    {
        let room: u32 = self.file_size - self.file_offset;
        if room < HEADER_SIZE || body.len() as u64 > (room - HEADER_SIZE) as u64 {
            self.closed = true;
            proof {
                lemma_flags_keep_wf(old(self)@, self@);
            }
            return Err(QueueBackendError::SegmentFull);
        }
        let message_total_len: u32 = HEADER_SIZE + body.len() as u32;
        let id: u64 = self.head;
        write_message(&mut *self.file_mmap, self.file_offset as usize, id, clock, body);
        self.index.push_offset(id, self.file_offset);
        self.file_offset = self.file_offset + message_total_len;
        self.head = self.head + 1;
        proof {
            assert(self@ =~= old(self)@.pushed(clock, body@));
            lemma_push_keeps_wf(old(self)@, clock, body@);
        }
        Ok(id)
    }

    /// Finds the message numbered `id`.
    pub fn get(&self, id: u64) -> (result: Result<InnerMessage, ()>)
        requires
            self.wf(),
        ensures
            match result {
                Ok(inner) => {
                    &&& self@.tail <= id < self@.head
                    &&& inner.offset == self@.offsets[id - self@.tail]
                    &&& end_at(self@.image, inner.offset as int) <= self@.file_offset
                    &&& message_at(self@.image, inner.offset as int) == self@.message(id as int)
                    &&& self@.message(id as int).id == id
                },
                Err(_) => id < self@.tail || self@.head <= id,
            },
    {
        match self.index.get_offset(id) {
            Some(offset) => {
                assert(self@.holds(id - self@.tail));
                Ok(InnerMessage { offset })
            },
            None => Err(()),
        }
    }

    /// Decides how many bytes from the start of the file have to reach the
    /// disk now, and counts them as synced. Without `full` the newest bytes
    /// are left for later.
    pub fn sync(&mut self, full: bool) -> (len: Option<u32>)
        requires
            old(self).wf(),
        ensures
            final(self).wf(),
            len == old(self)@.sync_len(full),
            final(self)@ == old(self)@.synced(full),
    {
        let sync_offset: u32 = if full {
            self.file_offset
        } else {
            self.file_offset.saturating_sub(SYNC_LAG)
        };
        if sync_offset > 0 && sync_offset > self.sync_offset {
            self.sync_offset = sync_offset;
            proof {
                lemma_flags_keep_wf(old(self)@, self@);
            }
            Some(sync_offset)
        } else {
            None
        }
    }

    /// Syncs the segment and describes it.
    pub fn checkpoint(&mut self, full: bool) -> (result: (SegmentCheckpoint, Option<u32>))
        requires
            old(self).wf(),
        ensures
            final(self).wf(),
            final(self)@ == old(self)@.synced(full),
            result.0 == final(self)@.checkpoint(),
            result.1 == old(self)@.sync_len(full),
    {
        let len = self.sync(full);
        let checkpoint = SegmentCheckpoint {
            tail: self.tail,
            head: self.head,
            sync_offset: self.sync_offset,
            closed: self.closed,
        };
        (checkpoint, len)
    }

    /// Marks the file to go away with the segment.
    pub fn purge(&mut self)
        requires
            old(self).wf(),
            !old(self)@.deleted,
        ensures
            final(self).wf(),
            final(self)@ == (SegmentView { deleted: true, ..old(self)@ }),
    {
        self.deleted = true;
        proof {
            lemma_flags_keep_wf(old(self)@, self@);
        }
    }

    /// Allows the segment to be collected.
    pub fn close(&mut self)
        requires
            old(self).wf(),
        ensures
            final(self).wf(),
            final(self)@ == (SegmentView { closed: true, ..old(self)@ }),
    {
        self.closed = true;
        proof {
            lemma_flags_keep_wf(old(self)@, self@);
        }
    }

    /// Gives up the segment: hands back the mapped file, and whether the file
    /// is to be deleted.
    pub fn release(self) -> (result: (&'a mut [u8], bool))
        ensures
            (*result.0)@ == self@.image,
            result.1 == self@.deleted,
    {
        (self.file_mmap, self.deleted)
    }

    /// The id of the first message.
    pub fn tail(&self) -> (tail: u64)
        ensures
            tail == self@.tail,
    {
        self.tail
    }

    /// The id of the next message.
    pub fn head(&self) -> (head: u64)
        ensures
            head == self@.head,
    {
        self.head
    }

    /// Whether the segment may be collected.
    pub fn closed(&self) -> (closed: bool)
        ensures
            closed == self@.closed,
    {
        self.closed
    }

    /// How many bytes of the file are in use.
    pub fn file_size(&self) -> (file_size: u32)
        ensures
            file_size == self@.file_size,
    {
        self.file_size
    }
}

/// A new segment is well formed and holds no messages.
pub proof fn lemma_created_wf(image: Seq<u8>, start_id: u64)
    requires
        image.len() > MAGIC_SIZE,
        usable_len(image.len() as int),
    ensures
        SegmentView::created(image, start_id).wf(),
        SegmentView::created(image, start_id).messages() == Seq::<MessageView>::empty(),
{
    let s = SegmentView::created(image, start_id);
    assert(s.image.subrange(0, 4) =~= le32_bytes(MAGIC_NUM));
    lemma_le32_round_trip(s.image, 0, MAGIC_NUM);
    assert(s.messages() =~= Seq::empty());
}

/// Whether a segment is well formed does not depend on its flags.
pub proof fn lemma_flags_keep_wf(before: SegmentView, after: SegmentView)
    requires
        before.wf(),
        after.sync_offset <= after.file_offset,
        after == (SegmentView {
            sync_offset: after.sync_offset,
            closed: after.closed,
            deleted: after.deleted,
            ..before
        }),
    ensures
        after.wf(),
        after.messages() == before.messages(),
{
    assert(after.messages() =~= before.messages());
    assert forall|i: int| 0 <= i < after.offsets.len() implies #[trigger] after.holds(i) by {
        assert(before.holds(i));
    }
}

/// A new message leaves the others as they are.
pub proof fn lemma_push_keeps_wf(s: SegmentView, timestamp: u32, body: Seq<u8>)
    requires
        s.wf(),
        s.fits(body.len() as int),
        s.head < u64::MAX,
    ensures
        s.pushed(timestamp, body).wf(),
        s.pushed(timestamp, body).messages() == s.messages().push(
            MessageView { id: s.head, timestamp, body },
        ),
{
    let m = MessageView { id: s.head, timestamp, body };
    let t = s.pushed(timestamp, body);
    let at = s.file_offset as int;
    lemma_stored_len(m);
    assert(t.image.subrange(at, at + m.size()) =~= m.stored());
    lemma_stored_round_trip(t.image, at, m);
    assert(same_range(s.image, t.image, 0, at));
    assert(t.wf()) by {
        assert(le32(t.image, 0) == le32(s.image, 0));
        assert forall|i: int| 0 <= i < t.offsets.len() implies #[trigger] t.holds(i) by {
            if i < s.offsets.len() {
                assert(s.holds(i));
                lemma_same_message(s.image, t.image, s.offsets[i] as int);
            }
        }
    }
    assert forall|i: int| 0 <= i < t.offsets.len() implies t.messages()[i] == s.messages().push(
        m,
    )[i] by {
        if i < s.offsets.len() {
            assert(s.holds(i));
            lemma_same_message(s.image, t.image, s.offsets[i] as int);
        }
    }
    assert(t.messages() =~= s.messages().push(m));
}

} // verus!
