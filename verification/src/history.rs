//! What holds of the queue over any number of operations.
use crate::guarantees::law_restart_keeps_to_the_tail;
use crate::laws::{
    law_chained_queue_is_in_order, law_checkpoint_keeps_messages, law_gc_ends_at_first_that_stays,
    law_gc_keeps_reads, law_gc_takes_oldest, law_new_queue_is_empty, law_purge_moves_tail,
    law_push_appends, law_push_to_new_segment_appends, law_read_after_push,
    law_read_after_push_to_new_segment, law_refused_push_keeps_messages,
    law_refused_push_to_new_segment_keeps_messages, lemma_find,
};
use crate::layout::{law_created_segment, law_room_is_what_is_left};
use crate::queue::{QueueView, SegmentFileView};
use crate::record::{MessageView, MAGIC_SIZE};
use crate::recovery::{
    file_of, law_blank_queue_is_found_again, law_created_segment_is_blank, law_space_stays_blank,
};
use crate::segment::{lemma_created_wf, usable_len, SegmentView};
use vstd::prelude::*;

verus! {

/// One operation that changes the queue.
pub enum QueueOp {
    /// A call of `push` and, where that asks for a new file, a call of
    /// `push_to_new_segment`. `created` holds the bytes of the new file, or
    /// `None` if none could be made.
    Push { timestamp: u32, body: Seq<u8>, created: Option<Seq<u8>> },
    Purge,
    Gc { smallest_tail: u64 },
    Checkpoint { full: bool },
    Delete,
}

impl QueueOp {
    /// The operation is a push that puts a message into the queue.
    pub open spec fn accepted(self, q: QueueView) -> bool {
        match self {
            QueueOp::Push { timestamp, body, created } => {
                ||| q.fits(body.len() as int)
                ||| match created {
                    Some(image) => image.len() > MAGIC_SIZE && SegmentView::created(
                        image,
                        q.head,
                    ).fits(body.len() as int),
                    None => false,
                }
            },
            _ => false,
        }
    }

    /// The operation can be called: there is an id left for a message that is
    /// put into the queue, and a new file has a usable length.
    pub open spec fn possible(self, q: QueueView) -> bool {
        &&& self.accepted(q) ==> q.head < u64::MAX
        &&& self matches QueueOp::Push { timestamp, body, created } ==> (created matches Some(image)
            ==> usable_len(image.len() as int))
    }

    /// The queue after the operation.
    pub open spec fn step(self, q: QueueView) -> QueueView {
        match self {
            QueueOp::Push { timestamp, body, created } => if q.fits(body.len() as int) {
                q.pushed(timestamp, body)
            } else {
                match created {
                    Some(image) => if image.len() <= MAGIC_SIZE {
                        q.refused()
                    } else if SegmentView::created(image, q.head).fits(body.len() as int) {
                        q.refused().pushed_new(image, timestamp, body)
                    } else {
                        q.refused().extended(image)
                    },
                    None => q.refused(),
                }
            },
            QueueOp::Purge => q.purged(),
            QueueOp::Gc { smallest_tail } => q.collected(smallest_tail),
            QueueOp::Checkpoint { full } => q.synced(full),
            QueueOp::Delete => q.emptied(),
        }
    }

    /// A new file is blank behind the place of the magic number.
    pub open spec fn blank(self) -> bool {
        self matches QueueOp::Push { timestamp, body, created } ==> (created matches Some(image)
            ==> forall|i: int| MAGIC_SIZE <= i < image.len() ==> #[trigger] image[i] == 0)
    }
}

/// The queue after a number of operations.
pub open spec fn run(q: QueueView, ops: Seq<QueueOp>) -> QueueView
    decreases ops.len(),
{
    if ops.len() == 0 {
        q
    } else {
        ops.last().step(run(q, ops.drop_last()))
    }
}

/// Each operation can be called where its turn comes.
pub open spec fn possible_run(q: QueueView, ops: Seq<QueueOp>) -> bool
    decreases ops.len(),
{
    ops.len() > 0 ==> possible_run(q, ops.drop_last()) && ops.last().possible(
        run(q, ops.drop_last()),
    )
}

/// The ids that the operations return, in the order of the calls.
pub open spec fn ids_given(q: QueueView, ops: Seq<QueueOp>) -> Seq<u64>
    decreases ops.len(),
{
    if ops.len() == 0 {
        Seq::empty()
    } else {
        let before = run(q, ops.drop_last());
        if ops.last().accepted(before) {
            ids_given(q, ops.drop_last()).push(before.head)
        } else {
            ids_given(q, ops.drop_last())
        }
    }
}

/// A push is accepted if and only if header and body fit behind the last message
/// of the last segment, or else behind the magic number of the new file.
pub proof fn law_push_is_accepted_where_there_is_room(
    q: QueueView,
    timestamp: u32,
    body: Seq<u8>,
    created: Option<Seq<u8>>,
)
    ensures
        (QueueOp::Push { timestamp, body, created }).accepted(q) <==> {
            ||| q.segments.len() > 0 && 20 + body.len() <= q.segments.last().file_size
                - q.segments.last().file_offset
            ||| created matches Some(image) && image.len() > 4 && 4 + 20 + body.len()
                <= image.len() % 0x1_0000_0000
        },
{
    if created is Some && created->0.len() > 4 {
        law_created_segment(created->0, q.head);
        law_room_is_what_is_left(SegmentView::created(created->0, q.head), body.len() as int);
    }
}

/// A message that fits in a file of its own, behind the magic number, is accepted
/// if such a file is at hand, and read back.
pub proof fn law_message_with_room_is_read_back(
    q: QueueView,
    timestamp: u32,
    body: Seq<u8>,
    image: Seq<u8>,
)
    requires
        q.wf(),
        q.in_order(),
        q.head < u64::MAX,
        4 + 20 + body.len() <= image.len() <= u32::MAX,
    ensures
        ({
            let op = QueueOp::Push { timestamp, body, created: Some(image) };
            &&& op.possible(q)
            &&& op.accepted(q)
            &&& op.step(q).head == q.head + 1
            &&& op.step(q).lookup(q.head) == Some(MessageView { id: q.head, timestamp, body })
        }),
{
    let op = QueueOp::Push { timestamp, body, created: Some(image) };
    law_push_is_accepted_where_there_is_room(q, timestamp, body, Some(image));
    law_operation_keeps_order(q, op);
    law_accepted_message_is_read(q, op);
}

/// Every operation keeps the queue well formed and in order, and moves its head
/// by one if it puts in a message and not otherwise.
pub proof fn law_operation_keeps_order(q: QueueView, op: QueueOp)
    requires
        q.wf(),
        op.possible(q),
    ensures
        op.step(q).wf(),
        op.step(q).head == if op.accepted(q) {
            q.head + 1
        } else {
            q.head as int
        },
        q.in_order() ==> op.step(q).in_order(),
        q.chained() ==> op.step(q).chained(),
{
    match op {
        QueueOp::Push { timestamp, body, created } => if q.fits(body.len() as int) {
            law_push_appends(q, timestamp, body);
        } else {
            law_refused_push_keeps_messages(q);
            match created {
                Some(image) => if image.len() > MAGIC_SIZE {
                    if SegmentView::created(image, q.head).fits(body.len() as int) {
                        law_push_to_new_segment_appends(q.refused(), image, timestamp, body);
                    } else {
                        law_refused_push_to_new_segment_keeps_messages(q.refused(), image);
                    }
                },
                None => {},
            }
        },
        QueueOp::Purge => {
            law_purge_moves_tail(q);
        },
        QueueOp::Gc { smallest_tail } => {
            law_gc_takes_oldest(q, smallest_tail);
        },
        QueueOp::Checkpoint { full } => {
            law_checkpoint_keeps_messages(q, full);
        },
        QueueOp::Delete => {},
    }
}

/// Whatever is done with a queue, it stays well formed and in order, and its
/// head never goes back.
pub proof fn law_operations_keep_order(q: QueueView, ops: Seq<QueueOp>)
    requires
        q.wf(),
        possible_run(q, ops),
    ensures
        run(q, ops).wf(),
        run(q, ops).head >= q.head,
        q.in_order() ==> run(q, ops).in_order(),
        q.chained() ==> run(q, ops).chained(),
    decreases ops.len(),
{
    if ops.len() > 0 {
        law_operations_keep_order(q, ops.drop_last());
        law_operation_keeps_order(run(q, ops.drop_last()), ops.last());
    }
}

/// In a queue that was started anew, whatever has been done with it since, each
/// segment starts where the one in front of it ends, the last one ends at the
/// head of the queue, and all but the last are closed.
pub proof fn law_new_queue_stays_chained(ops: Seq<QueueOp>)
    requires
        possible_run(QueueView::empty(), ops),
    ensures
        ({
            let q = run(QueueView::empty(), ops);
            &&& q.wf()
            &&& q.chained()
            &&& q.in_order()
            &&& forall|i: int|
                0 <= i < q.segments.len() ==> (#[trigger] q.segments[i]).tail
                    <= q.segments[i].head
            &&& q.segments.len() > 0 ==> q.segments.last().head == q.head
            &&& forall|i: int| 0 <= i < q.segments.len() - 1 ==> (#[trigger] q.segments[i]).closed
        }),
{
    let q = run(QueueView::empty(), ops);
    law_new_queue_is_empty();
    law_operations_keep_order(QueueView::empty(), ops);
    law_chained_queue_is_in_order(q);
    assert forall|i: int| 0 <= i < q.segments.len() implies (#[trigger] q.segments[i]).tail
        <= q.segments[i].head by {
        assert(q.segments[i].wf());
    }
}

/// The ids that pushes return are consecutive from the head of the queue on,
/// whatever is done in between, and the head ends behind the last of them. A
/// push that is refused uses up no id.
pub proof fn law_ids_given_are_consecutive(q: QueueView, ops: Seq<QueueOp>)
    requires
        q.wf(),
        possible_run(q, ops),
    ensures
        ids_given(q, ops) == Seq::new(ids_given(q, ops).len(), |i: int| (q.head + i) as u64),
        run(q, ops).head == q.head + ids_given(q, ops).len(),
    decreases ops.len(),
{
    let ids = ids_given(q, ops);
    if ops.len() > 0 {
        let front = ops.drop_last();
        law_ids_given_are_consecutive(q, front);
        law_operations_keep_order(q, front);
        law_operation_keeps_order(run(q, front), ops.last());
        let before = ids_given(q, front);
        assert forall|i: int| 0 <= i < ids.len() implies ids[i] == (q.head + i) as u64 by {
            if i < before.len() {
                assert(ids[i] == before[i]);
            }
        }
    }
    assert(ids =~= Seq::new(ids.len(), |i: int| (q.head + i) as u64));
}

/// A push that returns an id has stored the message under it: a read of the id
/// gives the message.
pub proof fn law_accepted_message_is_read(q: QueueView, op: QueueOp)
    requires
        q.wf(),
        q.in_order(),
        op.possible(q),
        op.accepted(q),
    ensures
        op matches QueueOp::Push { timestamp, body, created } && op.step(q).lookup(q.head) == Some(
            MessageView { id: q.head, timestamp, body },
        ),
        op.step(q).has_id(q.head),
{
    match op {
        QueueOp::Push { timestamp, body, created } => {
            let r = op.step(q);
            if q.fits(body.len() as int) {
                law_read_after_push(q, timestamp, body);
                let n = q.segments.len() - 1;
                assert(q.segments[n].wf());
                assert(r.segments[n].tail <= q.head < r.segments[n].head);
            } else {
                let image = created->0;
                let c = q.refused();
                law_refused_push_keeps_messages(q);
                law_read_after_push_to_new_segment(c, image, timestamp, body);
                let n = c.segments.len() as int;
                assert(r.segments[n].tail <= q.head < r.segments[n].head);
            }
        },
        _ => {},
    }
}

/// An operation changes no read that gave a message, nor the offset of the
/// message, unless it removes the segment of the message. A push, a purge and
/// a checkpoint remove none.
pub proof fn law_operation_keeps_reads(q: QueueView, op: QueueOp, id: u64)
    requires
        q.wf(),
        op.possible(q),
        q.read(id) is Some,
        match op {
            QueueOp::Gc { smallest_tail } => q.find(id, 0) >= q.gc_end(smallest_tail, 0),
            QueueOp::Delete => false,
            _ => true,
        },
    ensures
        op.step(q).read(id) == q.read(id),
{
    match op {
        QueueOp::Push { timestamp, body, created } => if q.fits(body.len() as int) {
            law_read_after_push(q, timestamp, body);
        } else {
            let c = q.refused();
            law_refused_push_keeps_messages(q);
            assert(c.read(id) == q.read(id));
            match created {
                Some(image) => if image.len() > MAGIC_SIZE {
                    if SegmentView::created(image, q.head).fits(body.len() as int) {
                        law_read_after_push_to_new_segment(c, image, timestamp, body);
                    } else {
                        law_refused_push_to_new_segment_keeps_messages(c, image);
                        assert(c.extended(image).read(id) == c.read(id));
                    }
                },
                None => {},
            }
        },
        QueueOp::Purge => {
            law_purge_moves_tail(q);
            assert(q.purged().read(id) == q.read(id));
        },
        QueueOp::Gc { smallest_tail } => {
            law_gc_keeps_reads(q, smallest_tail, id);
        },
        QueueOp::Checkpoint { full } => {
            law_checkpoint_keeps_messages(q, full);
            assert(q.synced(full).read(id) == q.read(id));
        },
        QueueOp::Delete => {},
    }
}

/// The segment that is found for an id that the queue has is the one with the
/// message.
proof fn lemma_find_holder(q: QueueView, id: u64, i: int)
    requires
        q.wf(),
        q.in_order(),
        0 <= i < q.segments.len(),
        q.segments[i].tail <= id < q.segments[i].head,
    ensures
        q.find(id, 0) == i,
        q.read(id) is Some,
{
    assert forall|j: int| 0 <= j < i implies !q.serves(j, id) by {
        assert(q.segments[j].head <= q.segments[i].tail);
    }
    lemma_find(q, id, 0, i);
}

/// A message that is there after an operation, and whose id had been given
/// before it, was there before the operation, and is read as it was.
proof fn lemma_step_keeps_message(q: QueueView, op: QueueOp, id: u64)
    requires
        q.wf(),
        q.in_order(),
        op.possible(q),
        id < q.head,
        op.step(q).has_id(id),
    ensures
        q.has_id(id),
        op.step(q).read(id) == q.read(id),
{
    let r = op.step(q);
    let i = choose|i: int|
        0 <= i < r.segments.len() && (#[trigger] r.segments[i]).tail <= id < r.segments[i].head;
    let k = match op {
        QueueOp::Gc { smallest_tail } => i + q.gc_end(smallest_tail, 0),
        _ => i,
    };
    if op is Gc {
        law_gc_ends_at_first_that_stays(q, op->smallest_tail, 0);
    }
    assert(q.segments[k].tail <= id < q.segments[k].head);
    lemma_find_holder(q, id, k);
    law_operation_keeps_reads(q, op, id);
}

/// A message is read as it was, at the same offset, after any number of
/// operations, as long as its segment has not been removed.
pub proof fn law_messages_stay_readable(q: QueueView, ops: Seq<QueueOp>, id: u64)
    requires
        q.wf(),
        q.in_order(),
        possible_run(q, ops),
        id < q.head,
        run(q, ops).has_id(id),
    ensures
        q.has_id(id),
        run(q, ops).read(id) == q.read(id),
    decreases ops.len(),
{
    if ops.len() > 0 {
        let front = ops.drop_last();
        law_operations_keep_order(q, front);
        lemma_step_keeps_message(run(q, front), ops.last(), id);
        law_messages_stay_readable(q, front, id);
    }
}

/// What was pushed is read back: after a push that returned an id, and any
/// number of operations since, a read of the id gives the message as it was
/// pushed, as long as its segment has not been removed.
pub proof fn law_pushed_message_is_read_back(q: QueueView, op: QueueOp, ops: Seq<QueueOp>)
    requires
        q.wf(),
        q.in_order(),
        op.possible(q),
        op.accepted(q),
        possible_run(op.step(q), ops),
        run(op.step(q), ops).has_id(q.head),
    ensures
        op matches QueueOp::Push { timestamp, body, created } && run(op.step(q), ops).lookup(q.head)
            == Some(MessageView { id: q.head, timestamp, body }),
        run(op.step(q), ops).read(q.head) == op.step(q).read(q.head),
{
    law_operation_keeps_order(q, op);
    law_accepted_message_is_read(q, op);
    law_messages_stay_readable(op.step(q), ops, q.head);
}

/// A queue whose files were blank when it took them keeps the space behind
/// the messages blank, whatever is done with it.
pub proof fn law_queue_stays_blank(q: QueueView, op: QueueOp)
    requires
        q.wf(),
        q.blank_behind(),
        op.possible(q),
        op.blank(),
    ensures
        op.step(q).blank_behind(),
{
    let r = op.step(q);
    let n = q.segments.len() as int;
    law_operation_keeps_order(q, op);
    match op {
        QueueOp::Push { timestamp, body, created } => if q.fits(body.len() as int) {
            assert(q.segments[n - 1].wf());
            assert(q.segments[n - 1].blank_behind());
            law_space_stays_blank(q.segments[n - 1], timestamp, body);
        } else {
            match created {
                Some(image) => if image.len() > MAGIC_SIZE {
                    let s = SegmentView::created(image, q.head);
                    lemma_created_wf(image, q.head);
                    law_created_segment_is_blank(image, q.head);
                    if s.fits(body.len() as int) {
                        law_space_stays_blank(s, timestamp, body);
                    } else {
                        assert(r.segments[n].image == s.image);
                    }
                },
                None => {},
            }
        },
        QueueOp::Gc { smallest_tail } => {
            law_gc_ends_at_first_that_stays(q, smallest_tail, 0);
        },
        _ => {},
    }
    assert forall|i: int| 0 <= i < r.segments.len() implies (#[trigger] r.segments[i]).tail >= 1
        && r.segments[i].blank_behind() by {
        match op {
            QueueOp::Gc { smallest_tail } => {
                assert(q.segments[i + q.gc_end(smallest_tail, 0)].blank_behind());
            },
            _ => {
                if i < n {
                    assert(q.segments[i].blank_behind());
                    assert(i < n - 1 ==> r.segments[i].image == q.segments[i].image);
                }
            },
        }
    }
}

/// The same holds of any number of operations.
pub proof fn law_operations_keep_blank(q: QueueView, ops: Seq<QueueOp>)
    requires
        q.wf(),
        q.blank_behind(),
        possible_run(q, ops),
        forall|i: int| 0 <= i < ops.len() ==> (#[trigger] ops[i]).blank(),
    ensures
        run(q, ops).blank_behind(),
    decreases ops.len(),
{
    if ops.len() > 0 {
        let front = ops.drop_last();
        assert forall|i: int| 0 <= i < front.len() implies (#[trigger] front[i]).blank() by {
            assert(ops[i].blank());
        }
        assert(ops[ops.len() - 1].blank());
        law_operations_keep_blank(q, front);
        law_operations_keep_order(q, front);
        law_queue_stays_blank(run(q, front), ops.last());
    }
}

/// The tail of the queue is where its first segment starts. It holds of a new
/// queue and of one that was opened.
pub open spec fn starts_at_tail(q: QueueView) -> bool {
    q.tail == if q.segments.len() > 0 {
        q.segments.first().tail
    } else {
        q.head
    }
}

/// The operation leaves no segment in front of the tail of the queue: a push, a
/// checkpoint, and in a chained queue a collection.
pub open spec fn keeps_start(q: QueueView, op: QueueOp) -> bool {
    op is Push || op is Checkpoint || op is Gc && q.chained()
}

/// Such operations keep the queue starting at its tail.
proof fn lemma_operations_keep_start(q: QueueView, ops: Seq<QueueOp>)
    requires
        q.wf(),
        starts_at_tail(q),
        possible_run(q, ops),
        forall|i: int| 0 <= i < ops.len() ==> keeps_start(q, #[trigger] ops[i]),
    ensures
        starts_at_tail(run(q, ops)),
    decreases ops.len(),
{
    if ops.len() > 0 {
        let front = ops.drop_last();
        let op = ops.last();
        let before = run(q, front);
        assert forall|i: int| 0 <= i < front.len() implies keeps_start(q, #[trigger] front[i]) by {
            assert(keeps_start(q, ops[i]));
        }
        assert(keeps_start(q, ops[ops.len() - 1]));
        lemma_operations_keep_start(q, front);
        law_operations_keep_order(q, front);
        if op is Gc {
            let n = before.gc_end(op->smallest_tail, 0);
            law_gc_ends_at_first_that_stays(before, op->smallest_tail, 0);
            if 0 < n < before.segments.len() {
                assert(before.segments[n - 1].head == before.segments[n].tail);
            }
        }
    }
}

/// A queue in files that were blank when it took them, and that has since
/// neither been purged nor deleted, is found again by its checkpoint: the same
/// head and tail, the same number of segments, and for every id the same read
/// at the same offset. It may have been started anew, or opened in the same way
/// itself: what was found meets the same conditions again, so the queue can be
/// used on and opened any number of times. (Every file has to have a byte left
/// behind its messages.)
pub proof fn law_used_queue_is_found_again(q: QueueView, ops: Seq<QueueOp>, full: bool)
    requires
        q.wf(),
        q.in_order(),
        q.blank_behind(),
        starts_at_tail(q),
        possible_run(q, ops),
        forall|i: int|
            0 <= i < ops.len() ==> keeps_start(q, #[trigger] ops[i]) && ops[i].blank(),
        run(q, ops).segments.len() > 0,
        forall|i: int|
            0 <= i < run(q, ops).segments.len() ==> {
                let s = #[trigger] run(q, ops).segments[i];
                s.offsets.len() > 0 ==> s.file_offset < s.file_size
            },
    ensures
        ({
            let u = run(q, ops);
            let files = u.segments.map_values(|s: SegmentView| file_of(s, full));
            let r = QueueView::recovered(files);
            &&& files.map_values(|f: SegmentFileView| f.checkpoint) == u.checkpoint(full)
            &&& r.head == u.head
            &&& r.tail == u.tail
            &&& r.segments.len() == u.segments.len()
            &&& r.messages() == u.messages()
            &&& forall|id: u64| #[trigger] r.read(id) == u.read(id)
            &&& r.wf()
            &&& r.in_order()
            &&& q.chained() ==> r.chained()
            &&& r.blank_behind()
            &&& starts_at_tail(r)
        }),
{
    let u = run(q, ops);
    lemma_operations_keep_start(q, ops);
    law_operations_keep_order(q, ops);
    law_operations_keep_blank(q, ops);
    assert forall|i: int| 0 <= i < u.segments.len() implies u.covered(#[trigger] u.segments[i]) by {
        assert(u.segments[0].wf());
        if i > 0 {
            assert(u.segments[0].head <= u.segments[i].tail);
        }
    }
    law_blank_queue_is_found_again(u, full);
}

/// A queue that was started anew in blank files, and neither purged nor deleted,
/// is found again by its checkpoint, with the same head and tail, number of
/// segments, and reads.
pub proof fn law_new_queue_is_found_again(ops: Seq<QueueOp>, full: bool)
    requires
        possible_run(QueueView::empty(), ops),
        forall|i: int|
            0 <= i < ops.len() ==> ((#[trigger] ops[i]) is Push || ops[i] is Checkpoint
                || ops[i] is Gc) && ops[i].blank(),
        run(QueueView::empty(), ops).segments.len() > 0,
        forall|i: int|
            0 <= i < run(QueueView::empty(), ops).segments.len() ==> {
                let s = #[trigger] run(QueueView::empty(), ops).segments[i];
                s.offsets.len() > 0 ==> s.file_offset < s.file_size
            },
    ensures
        ({
            let q = run(QueueView::empty(), ops);
            let files = q.segments.map_values(|s: SegmentView| file_of(s, full));
            let r = QueueView::recovered(files);
            &&& files.map_values(|f: SegmentFileView| f.checkpoint) == q.checkpoint(full)
            &&& r.head == q.head
            &&& r.tail == q.tail
            &&& r.segments.len() == q.segments.len()
            &&& r.messages() == q.messages()
            &&& forall|id: u64| #[trigger] r.read(id) == q.read(id)
        }),
{
    law_new_queue_is_empty();
    assert forall|i: int| 0 <= i < ops.len() implies keeps_start(
        QueueView::empty(),
        #[trigger] ops[i],
    ) && ops[i].blank() by {
        assert(ops[i].blank());
    }
    law_used_queue_is_found_again(QueueView::empty(), ops, full);
}

/// Pushes, checkpoints and purges never move the tail of the queue back.
proof fn lemma_tail_moves_on(q: QueueView, ops: Seq<QueueOp>)
    requires
        q.wf(),
        q.tail <= q.head,
        possible_run(q, ops),
        forall|i: int|
            0 <= i < ops.len() ==> (#[trigger] ops[i]) is Push || ops[i] is Checkpoint
                || ops[i] is Purge,
    ensures
        q.tail <= run(q, ops).tail <= run(q, ops).head,
    decreases ops.len(),
{
    if ops.len() > 0 {
        let front = ops.drop_last();
        assert forall|i: int| 0 <= i < front.len() implies (#[trigger] front[i]) is Push
            || front[i] is Checkpoint || front[i] is Purge by {
            assert(ops[i] is Push || ops[i] is Checkpoint || ops[i] is Purge);
        }
        assert(ops[ops.len() - 1] is Push || ops[ops.len() - 1] is Checkpoint || ops[ops.len()
            - 1] is Purge);
        lemma_tail_moves_on(q, front);
        law_operations_keep_order(q, front);
        law_operation_keeps_order(run(q, front), ops.last());
    }
}

/// What has been purged does not come back: after a purge, and any pushes,
/// checkpoints and purges since, a restart finds no message with an id that had
/// been given before the purge, whatever the files of the checkpoint hold.
pub proof fn law_purged_messages_stay_away(
    q: QueueView,
    ops: Seq<QueueOp>,
    full: bool,
    files: Seq<SegmentFileView>,
)
    requires
        q.wf(),
        possible_run(q.purged(), ops),
        forall|i: int|
            0 <= i < ops.len() ==> (#[trigger] ops[i]) is Push || ops[i] is Checkpoint
                || ops[i] is Purge,
        files.map_values(|f: SegmentFileView| f.checkpoint) == run(q.purged(), ops).checkpoint(
            full,
        ),
    ensures
        forall|m: MessageView| #[trigger]
            QueueView::recovered(files).messages().contains(m) ==> m.id >= q.head,
{
    let u = run(q.purged(), ops);
    law_purge_moves_tail(q);
    lemma_tail_moves_on(q.purged(), ops);
    law_restart_keeps_to_the_tail(u, full, files);
}

} // verus!
