//! The queue: a row of segments, of which the last takes new messages.
use crate::checkpoint::{QueueBackendCheckpoint, SegmentCheckpoint};
use crate::error::{QueueBackendError, QueueBackendResult};
use crate::message::Message;
use crate::record::{MessageView, MAGIC_SIZE};
use crate::segment::{usable_len, Segment, SegmentView};
use vstd::prelude::*;

verus! {

/// What the queue consists of.
#[verifier::ext_equal]
pub struct QueueView {
    /// The segments, oldest first.
    pub segments: Seq<SegmentView>,
    /// The id of the next message.
    pub head: u64,
    /// The id from which on the queue keeps messages.
    pub tail: u64,
}

/// What was found on the disk for one segment of a checkpoint.
#[verifier::ext_equal]
pub struct SegmentFileView {
    pub checkpoint: SegmentCheckpoint,
    /// The bytes of the file, if it could be read.
    pub image: Option<Seq<u8>>,
}

impl SegmentFileView {
    /// The segment in the file, unless the file is missing or too small.
    pub open spec fn opened(self) -> Option<SegmentView> {
        match self.image {
            Some(image) => if image.len() > MAGIC_SIZE {
                Some(SegmentView::opened(image, self.checkpoint))
            } else {
                None
            },
            None => None,
        }
    }

    /// The file, if there is one, has a usable length.
    pub open spec fn usable(self) -> bool {
        self.image matches Some(image) ==> usable_len(image.len() as int)
    }
}

/// `segments` with the last one closed.
pub open spec fn close_last(segments: Seq<SegmentView>) -> Seq<SegmentView> {
    if segments.len() > 0 {
        segments.update(
            segments.len() - 1,
            SegmentView { closed: true, ..segments.last() },
        )
    } else {
        segments
    }
}

/// The segments that `files` hold. Those that cannot be opened are left out, and
/// all but the last of the others are closed.
pub open spec fn recovered_segments(files: Seq<SegmentFileView>) -> Seq<SegmentView>
    decreases files.len(),
{
    if files.len() == 0 {
        Seq::empty()
    } else {
        let before = recovered_segments(files.drop_last());
        match files.last().opened() {
            Some(segment) => close_last(before).push(segment),
            None => before,
        }
    }
}

/// The messages of several segments, one segment after the other.
pub open spec fn messages_of(segments: Seq<SegmentView>) -> Seq<MessageView>
    decreases segments.len(),
{
    if segments.len() == 0 {
        Seq::empty()
    } else {
        messages_of(segments.drop_last()) + segments.last().messages()
    }
}

impl QueueView {
    /// The messages in the queue, oldest first.
    pub open spec fn messages(self) -> Seq<MessageView> {
        messages_of(self.segments)
    }

    /// The ids grow from segment to segment. A new queue is in order and stays
    /// so; files that were damaged or exchanged can put an opened one out of
    /// order.
    pub open spec fn in_order(self) -> bool {
        &&& self.tail <= self.head
        &&& forall|i: int, j: int|
            0 <= i < j < self.segments.len() ==> (#[trigger] self.segments[i]).head <= (
            #[trigger] self.segments[j]).tail
    }

    /// Each segment starts where the one in front of it ends.
    pub open spec fn chained(self) -> bool {
        &&& self.tail <= self.head
        &&& forall|i: int, j: int|
            0 <= i && j == i + 1 && j < self.segments.len() ==> (
            #[trigger] self.segments[i]).head == (#[trigger] self.segments[j]).tail
    }

    /// All segments but the last are closed.
    pub open spec fn one_open(self) -> bool {
        forall|i: int| 0 <= i < self.segments.len() - 1 ==> (#[trigger] self.segments[i]).closed
    }

    /// The files were blank when they were taken into the queue, and their ids
    /// start at one or later.
    pub open spec fn blank_behind(self) -> bool {
        &&& self.head >= 1
        &&& forall|i: int|
            0 <= i < self.segments.len() ==> #[trigger] self.segments[i].blank_behind()
                && self.segments[i].tail >= 1
    }

    /// A queue without messages.
    pub open spec fn empty() -> QueueView {
        QueueView { segments: Seq::empty(), head: 1, tail: 1 }
    }

    /// The queue that `files` hold.
    pub open spec fn recovered(files: Seq<SegmentFileView>) -> QueueView {
        let segments = recovered_segments(files);
        if segments.len() > 0 {
            QueueView { segments, head: segments.last().head, tail: segments.first().tail }
        } else {
            QueueView::empty()
        }
    }

    /// Every segment is well formed and there to stay, only the last one takes
    /// messages, and the next message goes behind its last one.
    pub open spec fn wf(self) -> bool {
        &&& forall|i: int|
            0 <= i < self.segments.len() ==> #[trigger] self.segments[i].wf()
                && !self.segments[i].deleted
        &&& self.one_open()
        &&& self.segments.len() > 0 ==> self.segments.last().head == self.head
    }

    /// The last segment has room for a message with a body of `len` bytes.
    pub open spec fn fits(self, len: int) -> bool {
        self.segments.len() > 0 && self.segments.last().fits(len)
    }

    /// The queue with one more message in the last segment.
    pub open spec fn pushed(self, timestamp: u32, body: Seq<u8>) -> QueueView {
        QueueView {
            segments: self.segments.update(
                self.segments.len() - 1,
                self.segments.last().pushed(timestamp, body),
            ),
            head: (self.head + 1) as u64,
            ..self
        }
    }

    /// The queue after its last segment had no room for a message.
    pub open spec fn refused(self) -> QueueView {
        QueueView { segments: close_last(self.segments), ..self }
    }

    /// The queue with a new segment that had no room for a message.
    pub open spec fn extended(self, image: Seq<u8>) -> QueueView {
        QueueView {
            segments: self.segments.push(
                SegmentView { closed: true, ..SegmentView::created(image, self.head) },
            ),
            ..self
        }
    }

    /// The queue with a new segment that holds one message.
    pub open spec fn pushed_new(self, image: Seq<u8>, timestamp: u32, body: Seq<u8>) -> QueueView {
        QueueView {
            segments: self.segments.push(
                SegmentView::created(image, self.head).pushed(timestamp, body),
            ),
            head: (self.head + 1) as u64,
            ..self
        }
    }

    /// Segment number `i` has messages, and among them one with this id or a
    /// later one.
    pub open spec fn serves(self, i: int, id: u64) -> bool {
        id < self.segments[i].head && self.segments[i].tail < self.segments[i].head
    }

    /// The number of the first segment, from number `from` on, that serves
    /// `id`; the number of segments if none does.
    pub open spec fn find(self, id: u64, from: int) -> int
        decreases self.segments.len() - from,
    {
        if from >= self.segments.len() {
            self.segments.len() as int
        } else if self.serves(from, id) {
            from
        } else {
            self.find(id, from + 1)
        }
    }

    /// The id of the message that a segment has for `id`.
    pub open spec fn id_in(self, i: int, id: u64) -> int {
        if id < self.segments[i].tail {
            self.segments[i].tail as int
        } else {
            id as int
        }
    }

    /// The message that the queue has for `id`.
    pub open spec fn lookup(self, id: u64) -> Option<MessageView> {
        let i = self.find(id, 0);
        if i < self.segments.len() {
            Some(self.segments[i].message(self.id_in(i, id)))
        } else {
            None
        }
    }

    /// Where in its file the message starts that the queue has for `id`.
    pub open spec fn lookup_offset(self, id: u64) -> u32 {
        let i = self.find(id, 0);
        self.segments[i].offsets[self.id_in(i, id) - self.segments[i].tail]
    }

    /// What a read of `id` gives: the message and where it starts in its file.
    pub open spec fn read(self, id: u64) -> Option<(MessageView, u32)> {
        match self.lookup(id) {
            Some(m) => Some((m, self.lookup_offset(id))),
            None => None,
        }
    }

    /// There is a message with this id.
    pub open spec fn has_id(self, id: u64) -> bool {
        exists|i: int|
            0 <= i < self.segments.len() && (#[trigger] self.segments[i]).tail <= id
                < self.segments[i].head
    }

    /// Segment number `i` can be collected: it is closed and all its ids lie
    /// below `smallest_tail`.
    pub open spec fn collectable(self, i: int, smallest_tail: u64) -> bool {
        self.segments[i].closed && self.segments[i].head <= smallest_tail
    }

    /// The number of the first segment, from number `from` on, that cannot be
    /// collected.
    pub open spec fn gc_end(self, smallest_tail: u64, from: int) -> int
        decreases self.segments.len() - from,
    {
        if from < self.segments.len() && self.collectable(from, smallest_tail) {
            self.gc_end(smallest_tail, from + 1)
        } else {
            from
        }
    }

    /// The queue without the segments that can be collected.
    pub open spec fn collected(self, smallest_tail: u64) -> QueueView {
        let n = self.gc_end(smallest_tail, 0);
        QueueView {
            segments: self.segments.skip(n),
            tail: if n > 0 {
                self.segments[n - 1].head
            } else {
                self.tail
            },
            ..self
        }
    }

    /// The queue after a purge: nothing in it is kept.
    pub open spec fn purged(self) -> QueueView {
        QueueView { segments: close_last(self.segments), tail: self.head, ..self }
    }

    /// The queue without its segments.
    pub open spec fn emptied(self) -> QueueView {
        QueueView { segments: Seq::empty(), ..self }
    }

    /// A checkpoint covers the segments that start at the tail or behind it.
    pub open spec fn covered(self, s: SegmentView) -> bool {
        s.tail >= self.tail
    }

    /// The queue after the segments of a checkpoint have been synced.
    pub open spec fn synced(self, full: bool) -> QueueView {
        QueueView {
            segments: self.segments.map_values(
                |s: SegmentView|
                    if self.covered(s) {
                        s.synced(full)
                    } else {
                        s
                    },
            ),
            ..self
        }
    }

    /// What a checkpoint says of the queue.
    pub open spec fn checkpoint(self, full: bool) -> Seq<SegmentCheckpoint> {
        self.segments.filter(|s: SegmentView| self.covered(s)).map_values(
            |s: SegmentView| s.synced(full).checkpoint(),
        )
    }

    /// What a checkpoint of the first `n` segments has to bring to the disk.
    pub open spec fn sync_requests(self, full: bool, n: int) -> Seq<SyncRequest>
        decreases n,
    {
        if n <= 0 {
            Seq::empty()
        } else {
            let before = self.sync_requests(full, n - 1);
            let s = self.segments[n - 1];
            match s.sync_len(full) {
                Some(len) => if self.covered(s) {
                    before.push(SyncRequest { segment: (n - 1) as usize, len })
                } else {
                    before
                },
                None => before,
            }
        }
    }
}

/// The first `len` bytes of a segment file have to reach the disk.
#[derive(Debug, Clone, Copy, PartialEq, Eq, Structural)]
pub struct SyncRequest {
    /// The number of the segment in the queue.
    pub segment: usize,
    pub len: u32,
}

/// What was found on the disk for one segment of a checkpoint.
#[derive(Debug)]
pub struct SegmentFile<'a> {
    pub checkpoint: SegmentCheckpoint,
    /// The mapped file, or why it could not be mapped.
    pub contents: QueueBackendResult<&'a mut [u8]>,
}

impl<'a> View for SegmentFile<'a> {
    type V = SegmentFileView;

    open spec fn view(&self) -> SegmentFileView {
        SegmentFileView {
            checkpoint: self.checkpoint,
            image: match self.contents {
                Ok(mem) => Some((*mem)@),
                Err(_) => None,
            },
        }
    }
}

/// What was found on the disk for a checkpoint.
pub open spec fn file_views(files: Seq<SegmentFile>) -> Seq<SegmentFileView> {
    files.map_values(|f: SegmentFile| f@)
}

/// A queue of messages that are kept in segment files.
#[derive(Debug)]
pub struct QueueBackend<'a> {
    segments: Vec<Segment<'a>>,
    head: u64,
    tail: u64,
}

impl<'a> View for QueueBackend<'a> {
    type V = QueueView;

    closed spec fn view(&self) -> QueueView {
        QueueView {
            segments: segment_views(self.segments@),
            head: self.head,
            tail: self.tail,
        }
    }
}

/// What each segment consists of.
pub open spec fn segment_views(segments: Seq<Segment>) -> Seq<SegmentView> {
    segments.map_values(|s: Segment| s@)
}

impl<'a> QueueBackend<'a> {
    /// The index of every segment counts from its first message.
    pub closed spec fn index_wf(&self) -> bool {
        forall|i: int| 0 <= i < self.segments@.len() ==> #[trigger] self.segments@[i].index_wf()
    }

    /// The queue and all its segments are well formed.
    pub open spec fn wf(&self) -> bool {
        self.index_wf() && self@.wf()
    }

    /// Opens the queue that was found on the disk, or starts a new one.
    /// Files that are too small are passed over and keep their bytes.
    pub fn new(recover: Option<Vec<SegmentFile<'a>>>) -> (backend: QueueBackend<'a>)
        requires
            recover matches Some(files) ==> forall|i: int|
                0 <= i < files@.len() ==> #[trigger] files@[i]@.usable(),
        ensures
            backend.wf(),
            backend@.one_open(),
            backend@ == (match recover {
                Some(files) => QueueView::recovered(file_views(files@)),
                None => QueueView::empty(),
            }),
            recover matches Some(files) ==> forall|i: int|
                0 <= i < files@.len() && files@[i]@.opened() is None ==> match (
                #[trigger] files@[i]).contents {
                    Ok(mem) => (*final(mem))@ == (*mem)@,
                    Err(_) => true,
                },
    {
        let mut backend = QueueBackend { segments: Vec::new(), head: 1, tail: 1 };
        assert(backend@ =~= QueueView::empty());
        match recover {
            Some(files) => backend.recover(files),
            None => (),
        }
        backend
    }

    /// Adds the segments that were found on the disk to an empty queue. Files
    /// that are too small are passed over and keep their bytes.
    pub fn recover(&mut self, files: Vec<SegmentFile<'a>>)
        requires
            old(self)@ == QueueView::empty(),
            forall|i: int| 0 <= i < files@.len() ==> #[trigger] files@[i]@.usable(),
        ensures
            final(self).wf(),
            final(self)@.one_open(),
            final(self)@ == QueueView::recovered(file_views(files@)),
            forall|i: int|
                0 <= i < files@.len() && files@[i]@.opened() is None ==> match (
                #[trigger] files@[i]).contents {
                    Ok(mem) => (*final(mem))@ == (*mem)@,
                    Err(_) => true,
                },
    {
        let ghost views = file_views(files@);
        assert(self.segments@.len() == self@.segments.len());
        assert(views.take(0) =~= Seq::empty());
        for file in it: files
            invariant
                self.index_wf(),
                self@.head == 1,
                self@.tail == 1,
                it.seq() == files@,
                views == file_views(files@),
                forall|i: int| 0 <= i < files@.len() ==> #[trigger] files@[i]@.usable(),
                forall|i: int|
                    0 <= i < self@.segments.len() ==> #[trigger] self@.segments[i].wf()
                        && !self@.segments[i].deleted,
                self@.one_open(),
                self@.segments == recovered_segments(views.take(it.index() as int)),
                forall|i: int|
                    0 <= i < it.index() && files@[i]@.opened() is None ==> match (
                    #[trigger] files@[i]).contents {
                        Ok(mem) => (*final(mem))@ == (*mem)@,
                        Err(_) => true,
                    },
        {
            assert(views.take(it.index() + 1).drop_last() =~= views.take(it.index() as int));
            assert(views.take(it.index() + 1).last() == file@);
            assert(files@[it.index() as int]@.usable());
            let checkpoint = file.checkpoint;
            match file.contents {
                Ok(mem) => match Segment::open(mem, &checkpoint) {
                    Ok(segment) => self.add_recovered(segment),
                    Err(_) => (),
                },
                Err(_) => (),
            }
        }
        assert(views.take(views.len() as int) =~= views);
        if self.segments.len() > 0 {
            self.tail = self.segments[0].tail();
            self.head = self.segments[self.segments.len() - 1].head();
        }
    }

    /// Adds a segment. The last one until then is closed, so that only the new
    /// one can be open.
    fn add_recovered(&mut self, segment: Segment<'a>)
        requires
            old(self).index_wf(),
            forall|i: int|
                0 <= i < old(self)@.segments.len() ==> #[trigger] old(self)@.segments[i].wf()
                    && !old(self)@.segments[i].deleted,
            segment.wf(),
            !segment@.deleted,
        ensures
            final(self).index_wf(),
            forall|i: int|
                0 <= i < final(self)@.segments.len() ==> #[trigger] final(self)@.segments[i].wf()
                    && !final(self)@.segments[i].deleted,
            final(self)@ == (QueueView {
                segments: close_last(old(self)@.segments).push(segment@),
                ..old(self)@
            }),
    {
        let n: usize = self.segments.len();
        let ghost before = self@.segments;
        assert(before.len() == n);
        if n > 0 {
            assert(before[n - 1].wf());
            self.segments[n - 1].close();
            assert(self@.segments =~= close_last(before));
        }
        let ghost closed = self@.segments;
        self.segments.push(segment);
        proof {
            assert(self@.segments =~= closed.push(segment@));
            assert forall|i: int| 0 <= i < self@.segments.len() implies
                #[trigger] self@.segments[i].wf() && !self@.segments[i].deleted by {
                if i < n {
                    assert(before[i].wf());
                }
            }
        }
    }

    /// The number of segments.
    pub fn segments_count(&self) -> (count: usize)
        ensures
            count == self@.segments.len(),
    {
        self.segments.len()
    }

    /// The segments, oldest first.
    pub fn segments(&self) -> (segments: &[Segment<'a>])
        ensures
            segment_views(segments@) == self@.segments,
            self.wf() ==> forall|i: int| 0 <= i < segments@.len() ==> #[trigger] segments@[i].wf(),
    {
        proof {
            assert forall|i: int| self.wf() && 0 <= i < self.segments@.len() implies
                #[trigger] self.segments@[i].wf() by {
                assert(self@.segments[i].wf());
            }
        }
        self.segments.as_slice()
    }

    /// The id from which on the queue keeps messages.
    pub fn tail(&self) -> (tail: u64)
        ensures
            tail == self@.tail,
    {
        self.tail
    }

    /// The id of the next message.
    pub fn head(&self) -> (head: u64)
        ensures
            head == self@.head,
    {
        self.head
    }

    /// The number of the first segment that has the message numbered `id` or
    /// a later one.
    fn find_segment(&self, id: u64) -> (found: Option<usize>)
        ensures
            match found {
                Some(i) => {
                    &&& i < self@.segments.len()
                    &&& i == self@.find(id, 0)
                    &&& self@.serves(i as int, id)
                },
                None => self@.find(id, 0) == self@.segments.len(),
            },
    {
        let mut i: usize = 0;
        while i < self.segments.len()
            invariant
                i <= self.segments@.len() == self@.segments.len(),
                self@.find(id, 0) == self@.find(id, i as int),
            decreases self.segments@.len() - i,
        {
            let segment = &self.segments[i];
            assert(segment@ == self@.segments[i as int]);
            if id < segment.head() && segment.tail() < segment.head() {
                return Some(i);
            }
            i = i + 1;
        }
        None
    }

    /// The message numbered `id`, or the next one that there is.
    pub fn get<'q>(&'q self, id: u64) -> (message: Option<Message<'q, 'a>>)
        requires
            self.wf(),
        ensures
            match message {
                Some(m) => {
                    &&& m.wf()
                    &&& self@.lookup(id) == Some(m@)
                    &&& self@.read(id) == Some((m@, m.offset()))
                    &&& m.image() == self@.segments[self@.find(id, 0)].image
                },
                None => self@.lookup(id) is None && self@.read(id) is None,
            },
    {
        match self.find_segment(id) {
            Some(i) => {
                let segment = &self.segments[i];
                assert(segment@ == self@.segments[i as int]);
                let found: u64 = if id < segment.tail() {
                    segment.tail()
                } else {
                    id
                };
                assert(found == self@.id_in(i as int, id));
                assert(self@.segments[i as int].wf());
                match segment.get(found) {
                    Ok(inner) => Some(Message::new(segment, inner)),
                    Err(_) => None,
                }
            },
            None => None,
        }
    }

    /// Puts a message at the end of the queue and returns its id. If the last
    /// segment has no room for it, or there is none, the answer is
    /// `SegmentFull`: a new file is needed, with which
    /// `push_to_new_segment` takes over.
    pub fn push(&mut self, body: &[u8], timestamp: u32) -> (result: QueueBackendResult<u64>)
        requires
            old(self).wf(),
            old(self)@.fits(body@.len() as int) ==> old(self)@.head < u64::MAX,
        ensures
            final(self).wf(),
            result is Ok <==> old(self)@.segments.len() > 0 && 20 + body@.len()
                <= old(self)@.segments.last().file_size - old(self)@.segments.last().file_offset,
            match result {
                Ok(id) => {
                    &&& old(self)@.fits(body@.len() as int)
                    &&& id == old(self)@.head
                    &&& final(self)@ == old(self)@.pushed(timestamp, body@)
                },
                Err(error) => {
                    &&& !old(self)@.fits(body@.len() as int)
                    &&& error == QueueBackendError::SegmentFull
                    &&& final(self)@ == old(self)@.refused()
                },
            },
    {
        let n: usize = self.segments.len();
        let ghost before = self@.segments;
        assert(before.len() == n);
        if n == 0 {
            return Err(QueueBackendError::SegmentFull);
        }
        assert(before[n - 1].wf());
        let result = self.segments[n - 1].push(body, timestamp);
        proof {
            assert forall|i: int| 0 <= i < n - 1 implies #[trigger] self@.segments[i] == before[i]
                && self@.segments[i].wf() by {
                assert(before[i].wf());
            }
        }
        match result {
            Ok(id) => {
                self.head = self.head + 1;
                assert(self@.segments =~= old(self)@.pushed(timestamp, body@).segments);
                Ok(id)
            },
            Err(error) => {
                assert(self@.segments =~= close_last(before));
                Err(error)
            },
        }
    }

    /// Puts a message at the end of the queue when `push` has answered
    /// `SegmentFull`. `created` is the new file, or why there is none.
    pub fn push_to_new_segment(
        &mut self,
        created: QueueBackendResult<&'a mut [u8]>,
        body: &[u8],
        timestamp: u32,
    ) -> (result: QueueBackendResult<u64>)
        requires
            old(self).wf(),
            !old(self)@.fits(body@.len() as int),
            old(self)@.segments.len() > 0 ==> old(self)@.segments.last().closed,
            created matches Ok(mem) ==> {
                &&& usable_len((*mem)@.len() as int)
                &&& SegmentView::created((*mem)@, old(self)@.head).fits(body@.len() as int)
                    ==> old(self)@.head < u64::MAX
            },
        ensures
            final(self).wf(),
            result is Ok <==> (created matches Ok(mem) && (*mem)@.len() > 4 && 4 + 20 + body@.len()
                <= (*mem)@.len() % 0x1_0000_0000),
            match created {
                Ok(mem) => {
                    let segment = SegmentView::created((*mem)@, old(self)@.head);
                    if (*mem)@.len() <= MAGIC_SIZE {
                        &&& result == Err::<u64, _>(QueueBackendError::SegmentFileInvalid)
                        &&& final(self)@ == old(self)@
                        &&& (*final(mem))@ == (*mem)@
                    } else if segment.fits(body@.len() as int) {
                        &&& result == Ok::<u64, QueueBackendError>(old(self)@.head)
                        &&& final(self)@ == old(self)@.pushed_new((*mem)@, timestamp, body@)
                    } else {
                        &&& result == Err::<u64, _>(QueueBackendError::SegmentFull)
                        &&& final(self)@ == old(self)@.extended((*mem)@)
                    }
                },
                Err(error) => {
                    &&& result == Err::<u64, _>(error)
                    &&& final(self)@ == old(self)@
                },
            },
    {
        let mem = match created {
            Ok(mem) => mem,
            Err(error) => return Err(error),
        };
        let mut segment = match Segment::create(mem, self.head) {
            Ok(segment) => segment,
            Err(error) => return Err(error),
        };
        let ghost before = self@.segments;
        let result = segment.push(body, timestamp);
        self.segments.push(segment);
        proof {
            assert(self@.segments =~= before.push(segment@));
            assert forall|i: int| 0 <= i < self@.segments.len() implies
                #[trigger] self@.segments[i].wf() && !self@.segments[i].deleted by {
                if i < before.len() {
                    assert(before[i].wf());
                }
            }
        }
        match result {
            Ok(id) => {
                self.head = self.head + 1;
                Ok(id)
            },
            Err(error) => Err(error),
        }
    }

    /// Gives up all messages in the queue: none of them is kept, and the
    /// last segment is closed.
    pub fn purge(&mut self)
        requires
            old(self).wf(),
        ensures
            final(self).wf(),
            final(self)@ == old(self)@.purged(),
    {
        let n: usize = self.segments.len();
        let ghost before = self@.segments;
        assert(before.len() == n);
        self.tail = self.head;
        if n > 0 {
            assert(before[n - 1].wf());
            self.segments[n - 1].close();
            proof {
                assert(self@.segments =~= close_last(before));
                assert forall|i: int| 0 <= i < n implies #[trigger] self@.segments[i].wf()
                    && !self@.segments[i].deleted by {
                    assert(before[i].wf());
                }
            }
        }
    }

    /// Marks the files of `segments` to go away.
    fn purge_segments(segments: &mut Vec<Segment<'a>>)
        requires
            forall|i: int|
                0 <= i < old(segments)@.len() ==> #[trigger] old(segments)@[i].wf()
                    && !old(segments)@[i]@.deleted,
        ensures
            forall|i: int|
                0 <= i < final(segments)@.len() ==> #[trigger] final(segments)@[i].wf(),
            segment_views(final(segments)@) == segment_views(old(segments)@).map_values(
                |s: SegmentView| SegmentView { deleted: true, ..s },
            ),
    {
        let mut i: usize = 0;
        assert forall|k: int| 0 <= k < segments@.len() implies !(#[trigger] segments@[k])@.deleted by {
            assert(segments@[k].wf());
        }
        while i < segments.len()
            invariant
                i <= segments@.len() == old(segments)@.len(),
                forall|k: int| 0 <= k < segments@.len() ==> #[trigger] segments@[k].wf(),
                forall|k: int|
                    0 <= k < i ==> #[trigger] segments@[k]@ == (SegmentView {
                        deleted: true,
                        ..old(segments)@[k]@
                    }),
                forall|k: int|
                    i <= k < segments@.len() ==> #[trigger] segments@[k] == old(segments)@[k]
                        && !segments@[k]@.deleted,
            decreases segments@.len() - i,
        {
            assert(segments@[i as int].wf());
            segments[i].purge();
            i = i + 1;
        }
        assert(segment_views(segments@) =~= segment_views(old(segments)@).map_values(
            |s: SegmentView| SegmentView { deleted: true, ..s },
        ));
    }

    /// Empties the queue. The segments are handed out so that their files can
    /// be deleted.
    pub fn delete(&mut self) -> (deleted: Vec<Segment<'a>>)
        requires
            old(self).wf(),
        ensures
            final(self).wf(),
            final(self)@ == old(self)@.emptied(),
            segment_views(deleted@) == old(self)@.segments.map_values(
                |s: SegmentView| SegmentView { deleted: true, ..s },
            ),
            forall|i: int| 0 <= i < deleted@.len() ==> #[trigger] deleted@[i].wf(),
    {
        let mut deleted: Vec<Segment<'a>> = Vec::new();
        std::mem::swap(&mut deleted, &mut self.segments);
        proof {
            assert(self@.segments =~= Seq::empty());
            assert forall|i: int| 0 <= i < deleted@.len() implies #[trigger] deleted@[i].wf()
                && !deleted@[i]@.deleted by {
                assert(old(self)@.segments[i].wf());
            }
        }
        QueueBackend::purge_segments(&mut deleted);
        deleted
    }

    /// Removes the segments at the start of the queue that are closed and whose
    /// ids all lie below `smallest_tail`. They are handed out so that their
    /// files can be deleted.
    pub fn gc(&mut self, smallest_tail: u64) -> (collected: Vec<Segment<'a>>)
        requires
            old(self).wf(),
        ensures
            final(self).wf(),
            final(self)@ == old(self)@.collected(smallest_tail),
            segment_views(collected@) == old(self)@.segments.take(
                old(self)@.gc_end(smallest_tail, 0),
            ).map_values(|s: SegmentView| SegmentView { deleted: true, ..s }),
            forall|i: int| 0 <= i < collected@.len() ==> #[trigger] collected@[i].wf(),
            forall|i: int|
                0 <= i < collected@.len() ==> (#[trigger] old(self)@.segments[i]).closed
                    && old(self)@.segments[i].head <= smallest_tail,
            collected@.len() <= old(self)@.segments.len(),
            collected@.len() < old(self)@.segments.len() ==> {
                let kept = old(self)@.segments[collected@.len() as int];
                !kept.closed || kept.head > smallest_tail
            },
    {
        let mut n: usize = 0;
        while n < self.segments.len() && self.segments[n].closed() && self.segments[n].head()
            <= smallest_tail
            invariant
                n <= self.segments@.len() == self@.segments.len(),
                self@.gc_end(smallest_tail, 0) == self@.gc_end(smallest_tail, n as int),
                forall|i: int|
                    0 <= i < n ==> (#[trigger] self@.segments[i]).closed && self@.segments[i].head
                        <= smallest_tail,
            decreases self.segments@.len() - n,
        {
            assert(self.segments@[n as int]@ == self@.segments[n as int]);
            n = n + 1;
        }
        proof {
            if n < self.segments@.len() {
                assert(self.segments@[n as int]@ == self@.segments[n as int]);
            }
        }
        let mut collected: Vec<Segment<'a>> = self.segments.split_off(n);
        std::mem::swap(&mut collected, &mut self.segments);
        if n > 0 {
            self.tail = collected[n - 1].head();
        }
        proof {
            assert(self@.segments =~= old(self)@.segments.skip(n as int));
            assert(segment_views(collected@) =~= old(self)@.segments.take(n as int));
            assert forall|i: int| 0 <= i < collected@.len() implies #[trigger] collected@[i].wf()
                && !collected@[i]@.deleted by {
                assert(old(self)@.segments[i].wf());
            }
            assert forall|i: int| 0 <= i < self@.segments.len() implies
                #[trigger] self@.segments[i].wf() && !self@.segments[i].deleted by {
                assert(old(self)@.segments[i + n].wf());
            }
        }
        QueueBackend::purge_segments(&mut collected);
        assert(segment_views(collected@).len() == n);
        collected
    }

    /// Syncs the segments that start at the tail or behind it and describes
    /// them. The second part of the answer says what has to be brought to the
    /// disk before the description is.
    pub fn checkpoint(&mut self, full: bool) -> (result: (
        QueueBackendCheckpoint,
        Vec<SyncRequest>,
    ))
        requires
            old(self).wf(),
        ensures
            final(self).wf(),
            final(self)@ == old(self)@.synced(full),
            result.0.segments@ == old(self)@.checkpoint(full),
            result.1@ == old(self)@.sync_requests(full, old(self)@.segments.len() as int),
    {
        let mut segments: Vec<SegmentCheckpoint> = Vec::new();
        let mut requests: Vec<SyncRequest> = Vec::new();
        let ghost before = self@;
        let ghost covered = |s: SegmentView| before.covered(s);
        let ghost describe = |s: SegmentView| s.synced(full).checkpoint();
        let mut i: usize = 0;
        assert(before.segments.take(0).filter(covered).map_values(describe) =~= Seq::empty()) by {
            reveal(Seq::filter);
        }
        while i < self.segments.len()
            invariant
                i <= self.segments@.len() == before.segments.len(),
                before == old(self)@,
                before.wf(),
                covered == (|s: SegmentView| before.covered(s)),
                describe == (|s: SegmentView| s.synced(full).checkpoint()),
                self.index_wf(),
                self@.head == before.head,
                self@.tail == before.tail,
                forall|k: int|
                    0 <= k < i ==> #[trigger] self@.segments[k] == before.synced(full).segments[k]
                        && self@.segments[k].wf(),
                forall|k: int|
                    i <= k < self@.segments.len() ==> #[trigger] self@.segments[k]
                        == before.segments[k],
                segments@ == before.segments.take(i as int).filter(covered).map_values(describe),
                requests@ == before.sync_requests(full, i as int),
            decreases self.segments@.len() - i,
        {
            let ghost s = before.segments[i as int];
            let ghost at_entry = self@;
            assert(self@.segments[i as int] == s);
            assert(s.wf());
            proof {
                reveal(Seq::filter);
                assert(before.segments.take(i + 1).drop_last() =~= before.segments.take(i as int));
                assert(before.segments.take(i + 1).last() == s);
            }
            if self.segments[i].tail() >= self.tail {
                let (checkpoint, len) = self.segments[i].checkpoint(full);
                segments.push(checkpoint);
                match len {
                    Some(len) => requests.push(SyncRequest { segment: i, len }),
                    None => (),
                }
                proof {
                    assert(self@.segments[i as int] == s.synced(full));
                    assert(segments@ =~= before.segments.take(i + 1).filter(covered).map_values(
                        describe,
                    ));
                    assert forall|k: int| 0 <= k < self@.segments.len() && k != i implies
                        #[trigger] self@.segments[k] == at_entry.segments[k] by {}
                }
            }
            i = i + 1;
        }
        proof {
            assert(before.segments.take(i as int) =~= before.segments);
            assert(self@.segments =~= before.synced(full).segments);
            assert forall|k: int| 0 <= k < self@.segments.len() implies
                #[trigger] self@.segments[k].wf() && !self@.segments[k].deleted by {
                assert(before.segments[k].wf());
                assert(self@.segments[k] == before.synced(full).segments[k]);
            }
        }
        (QueueBackendCheckpoint { segments }, requests)
    }
}

} // verus!
