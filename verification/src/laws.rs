//! What holds of the queue as a whole.
use crate::queue::{close_last, messages_of, QueueView};
use crate::record::{MessageView, MAGIC_SIZE};
use crate::segment::{
    lemma_created_wf, lemma_flags_keep_wf, lemma_push_keeps_wf, usable_len, SegmentView,
};
use vstd::prelude::*;

verus! {

/// The messages of two rows of segments are those of the one and then those
/// of the other.
proof fn lemma_messages_of_add(a: Seq<SegmentView>, b: Seq<SegmentView>)
    ensures
        messages_of(a + b) == messages_of(a) + messages_of(b),
    decreases b.len(),
{
    if b.len() == 0 {
        assert(a + b =~= a);
        assert(messages_of(a) + messages_of(b) =~= messages_of(a));
    } else {
        assert((a + b).drop_last() =~= a + b.drop_last());
        lemma_messages_of_add(a, b.drop_last());
        assert(messages_of(a + b) =~= messages_of(a) + messages_of(b));
    }
}

/// A message of a row of segments is a message of one of them.
proof fn lemma_message_has_segment(segments: Seq<SegmentView>, m: MessageView) -> (i: int)
    requires
        messages_of(segments).contains(m),
    ensures
        0 <= i < segments.len(),
        segments[i].messages().contains(m),
    decreases segments.len(),
{
    let front = segments.drop_last();
    let k = choose|k: int| 0 <= k < messages_of(segments).len() && messages_of(segments)[k] == m;
    if k < messages_of(front).len() {
        assert(messages_of(front)[k] == m);
        lemma_message_has_segment(front, m)
    } else {
        let last = segments.last().messages();
        assert(last[k - messages_of(front).len()] == m);
        segments.len() - 1
    }
}

/// A message of a segment is a message of the row.
proof fn lemma_segment_message_in_row(segments: Seq<SegmentView>, i: int, m: MessageView)
    requires
        0 <= i < segments.len(),
        segments[i].messages().contains(m),
    ensures
        messages_of(segments).contains(m),
    decreases segments.len(),
{
    let front = messages_of(segments.drop_last());
    let last = segments.last().messages();
    if i == segments.len() - 1 {
        let k = choose|k: int| 0 <= k < last.len() && last[k] == m;
        assert((front + last)[front.len() + k] == m);
    } else {
        lemma_segment_message_in_row(segments.drop_last(), i, m);
        let k = choose|k: int| 0 <= k < front.len() && front[k] == m;
        assert((front + last)[k] == m);
    }
}

/// The first segment that serves an id is the one that is found.
pub(crate) proof fn lemma_find(q: QueueView, id: u64, from: int, i: int)
    requires
        0 <= from <= i < q.segments.len(),
        q.serves(i, id),
        forall|j: int| from <= j < i ==> !q.serves(j, id),
    ensures
        q.find(id, from) == i,
    decreases i - from,
{
    if from < i {
        lemma_find(q, id, from + 1, i);
    }
}

/// What is found for an id is the first segment that serves it; if none does,
/// the number of segments.
pub proof fn law_find_gives_first_that_serves(q: QueueView, id: u64, from: int)
    requires
        0 <= from <= q.segments.len(),
    ensures
        from <= q.find(id, from) <= q.segments.len(),
        q.find(id, from) < q.segments.len() ==> q.serves(q.find(id, from), id),
        forall|j: int| from <= j < q.find(id, from) ==> !q.serves(j, id),
    decreases q.segments.len() - from,
{
    if from < q.segments.len() && !q.serves(from, id) {
        law_find_gives_first_that_serves(q, id, from + 1);
    }
}

/// Segments that serve an id alike are found alike.
proof fn lemma_find_alike(q: QueueView, r: QueueView, id: u64)
    requires
        q.find(id, 0) < q.segments.len() <= r.segments.len(),
        forall|j: int|
            0 <= j <= q.find(id, 0) ==> #[trigger] r.serves(j, id) == q.serves(j, id),
    ensures
        r.find(id, 0) == q.find(id, 0),
{
    law_find_gives_first_that_serves(q, id, 0);
    let i = q.find(id, 0);
    assert(r.serves(i, id));
    assert forall|j: int| 0 <= j < i implies !r.serves(j, id) by {
        assert(!q.serves(j, id));
    }
    lemma_find(r, id, 0, i);
}

/// Rows of segments that serve all ids alike and have the same messages give
/// the same reads.
pub(crate) proof fn lemma_same_reads(q: QueueView, r: QueueView, id: u64)
    requires
        q.segments.len() == r.segments.len(),
        forall|j: int|
            #![trigger r.segments[j]]
            0 <= j < q.segments.len() ==> {
                &&& r.segments[j].tail == q.segments[j].tail
                &&& r.segments[j].head == q.segments[j].head
                &&& r.segments[j].image == q.segments[j].image
                &&& r.segments[j].offsets == q.segments[j].offsets
            },
    ensures
        r.read(id) == q.read(id),
{
    law_find_gives_first_that_serves(q, id, 0);
    law_find_gives_first_that_serves(r, id, 0);
    assert forall|j: int| 0 <= j < q.segments.len() implies #[trigger] r.serves(j, id) == q.serves(
        j,
        id,
    ) by {
        assert(r.segments[j].tail == q.segments[j].tail);
    }
    let i = q.find(id, 0);
    if i < q.segments.len() {
        lemma_find_alike(q, r, id);
        assert(r.segments[i].tail == q.segments[i].tail);
    } else if r.find(id, 0) < r.segments.len() {
        assert(r.serves(r.find(id, 0), id));
        assert(!q.serves(r.find(id, 0), id));
    }
}

/// The ids of the messages in a segment run from its tail to its head.
pub proof fn law_ids_are_consecutive(s: SegmentView, i: int)
    requires
        s.wf(),
        0 <= i < s.messages().len(),
    ensures
        s.messages().len() == s.head - s.tail,
        s.messages()[i].id == s.tail + i,
        s.messages()[i] == s.message(s.tail + i),
{
    assert(s.holds(i));
}

/// A new queue is in order, has no messages and no segments.
pub proof fn law_new_queue_is_empty()
    ensures
        QueueView::empty().wf(),
        QueueView::empty().in_order(),
        QueueView::empty().chained(),
        QueueView::empty().messages() == Seq::<MessageView>::empty(),
{
}

/// A push puts the message behind all others and changes nothing else: the
/// queue has the messages that it had, in their order, and then the new one,
/// which has the old head as its id.
pub proof fn law_push_appends(q: QueueView, timestamp: u32, body: Seq<u8>)
    requires
        q.wf(),
        q.fits(body.len() as int),
        q.head < u64::MAX,
    ensures
        q.pushed(timestamp, body).wf(),
        q.pushed(timestamp, body).messages() == q.messages().push(
            MessageView { id: q.head, timestamp, body },
        ),
        q.pushed(timestamp, body).head == q.head + 1,
        q.in_order() ==> q.pushed(timestamp, body).in_order(),
        q.chained() ==> q.pushed(timestamp, body).chained(),
{
    let r = q.pushed(timestamp, body);
    let n = q.segments.len() - 1;
    let m = MessageView { id: q.head, timestamp, body };
    assert(q.segments[n].wf());
    lemma_push_keeps_wf(q.segments[n], timestamp, body);
    assert(r.segments.drop_last() =~= q.segments.drop_last());
    assert(r.messages() =~= q.messages().push(m));
    assert forall|i: int| 0 <= i < r.segments.len() implies #[trigger] r.segments[i].wf()
        && !r.segments[i].deleted by {
        assert(q.segments[i].wf());
    }
}

/// A push into a new segment puts the message behind all others, too.
pub proof fn law_push_to_new_segment_appends(
    q: QueueView,
    image: Seq<u8>,
    timestamp: u32,
    body: Seq<u8>,
)
    requires
        q.wf(),
        q.segments.len() > 0 ==> q.segments.last().closed,
        q.head < u64::MAX,
        image.len() > MAGIC_SIZE,
        usable_len(image.len() as int),
        SegmentView::created(image, q.head).fits(body.len() as int),
    ensures
        q.pushed_new(image, timestamp, body).wf(),
        q.pushed_new(image, timestamp, body).messages() == q.messages().push(
            MessageView { id: q.head, timestamp, body },
        ),
        q.pushed_new(image, timestamp, body).head == q.head + 1,
        q.in_order() ==> q.pushed_new(image, timestamp, body).in_order(),
        q.chained() ==> q.pushed_new(image, timestamp, body).chained(),
{
    let r = q.pushed_new(image, timestamp, body);
    let n = q.segments.len() as int;
    let m = MessageView { id: q.head, timestamp, body };
    lemma_created_wf(image, q.head);
    lemma_push_keeps_wf(SegmentView::created(image, q.head), timestamp, body);
    assert(r.segments.drop_last() =~= q.segments);
    assert(r.messages() =~= q.messages().push(m));
    assert forall|i: int| 0 <= i < r.segments.len() implies #[trigger] r.segments[i].wf()
        && !r.segments[i].deleted by {
        if i < n {
            assert(q.segments[i].wf());
        }
    }
    if q.in_order() {
        assert forall|i: int, j: int| 0 <= i < j < r.segments.len() implies (
        #[trigger] r.segments[i]).head <= (#[trigger] r.segments[j]).tail by {
            if j == n {
                lemma_heads_below(q, i);
            }
        }
    }
}

/// A queue in which each segment starts where the one in front of it ends is
/// in order.
pub proof fn law_chained_queue_is_in_order(q: QueueView)
    requires
        q.wf(),
        q.chained(),
    ensures
        q.in_order(),
{
    assert forall|i: int, j: int| 0 <= i < j < q.segments.len() implies (
    #[trigger] q.segments[i]).head <= (#[trigger] q.segments[j]).tail by {
        lemma_chain(q, i, j);
    }
}

/// In a chain of segments a later one starts no earlier than an earlier one
/// ends.
proof fn lemma_chain(q: QueueView, i: int, j: int)
    requires
        q.wf(),
        q.chained(),
        0 <= i < j < q.segments.len(),
    ensures
        q.segments[i].head <= q.segments[j].tail,
    decreases j - i,
{
    assert(q.segments[j - 1].head == q.segments[j].tail);
    if i < j - 1 {
        lemma_chain(q, i, j - 1);
        assert(q.segments[j - 1].wf());
    }
}

/// No segment of a queue in order reaches past the head of the queue.
pub(crate) proof fn lemma_heads_below(q: QueueView, i: int)
    requires
        q.wf(),
        q.in_order(),
        0 <= i < q.segments.len(),
    ensures
        q.segments[i].head <= q.head,
{
    let n = q.segments.len() - 1;
    assert(q.segments[n].wf());
    if i < n {
        assert(q.segments[i].head <= q.segments[n].tail);
    }
}

/// A read gives the message with the id asked for or, if there is none, the
/// one with the next id that there is. It gives nothing only if all messages
/// in the queue have smaller ids.
pub proof fn law_get_gives_next_available(q: QueueView, id: u64)
    requires
        q.wf(),
        q.in_order(),
    ensures
        match q.lookup(id) {
            Some(m) => {
                &&& q.messages().contains(m)
                &&& m.id >= id
                &&& forall|o: MessageView|
                    #[trigger] q.messages().contains(o) && o.id >= id ==> m.id <= o.id
            },
            None => forall|o: MessageView| #[trigger] q.messages().contains(o) ==> o.id < id,
        },
{
    let i = q.find(id, 0);
    law_find_gives_first_that_serves(q, id, 0);
    if i < q.segments.len() {
        let s = q.segments[i];
        assert(s.wf());
        let k = q.id_in(i, id) - s.tail;
        law_ids_are_consecutive(s, k);
        let m = s.messages()[k];
        assert(s.messages().contains(m));
        lemma_segment_message_in_row(q.segments, i, m);
        assert forall|o: MessageView| #[trigger] q.messages().contains(o) && o.id >= id implies m.id
            <= o.id by {
            lemma_later_messages(q, id, i, o);
        }
    } else {
        assert forall|o: MessageView| #[trigger] q.messages().contains(o) implies o.id < id by {
            lemma_later_messages(q, id, i, o);
        }
    }
}

/// A message whose id is not below `id` lies in the segment that is found for
/// `id` or behind it.
proof fn lemma_later_messages(q: QueueView, id: u64, i: int, o: MessageView)
    requires
        q.wf(),
        q.in_order(),
        i == q.find(id, 0),
        q.messages().contains(o),
    ensures
        i >= q.segments.len() ==> o.id < id,
        i < q.segments.len() && o.id >= id ==> q.id_in(i, id) <= o.id,
{
    law_find_gives_first_that_serves(q, id, 0);
    let j = lemma_message_has_segment(q.segments, o);
    let t = q.segments[j];
    assert(t.wf());
    let k = choose|k: int| 0 <= k < t.messages().len() && t.messages()[k] == o;
    law_ids_are_consecutive(t, k);
    if j < i {
        assert(!q.serves(j, id));
    } else if i < j {
        assert(q.segments[i].head <= q.segments[j].tail);
        assert(q.serves(i, id));
    }
}

/// The ids of a row of segments grow from message to message.
proof fn lemma_row_ids_grow(segments: Seq<SegmentView>)
    requires
        forall|i: int| 0 <= i < segments.len() ==> #[trigger] segments[i].wf(),
        forall|i: int, j: int|
            0 <= i < j < segments.len() ==> (#[trigger] segments[i]).head <= (
            #[trigger] segments[j]).tail,
    ensures
        forall|a: int, b: int|
            0 <= a < b < messages_of(segments).len() ==> (#[trigger] messages_of(segments)[a]).id
                < (#[trigger] messages_of(segments)[b]).id,
    decreases segments.len(),
{
    if segments.len() > 0 {
        let n = segments.len() - 1;
        let front = segments.drop_last();
        let last = segments.last();
        let row = messages_of(segments);
        let before = messages_of(front);
        assert(segments[n].wf());
        assert forall|i: int| 0 <= i < front.len() implies #[trigger] front[i].wf() by {
            assert(segments[i].wf());
        }
        assert forall|i: int, j: int| 0 <= i < j < front.len() implies (#[trigger] front[i]).head
            <= (#[trigger] front[j]).tail by {
            assert(segments[i].head <= segments[j].tail);
        }
        lemma_row_ids_grow(front);
        assert forall|a: int, b: int| 0 <= a < b < row.len() implies (#[trigger] row[a]).id < (
        #[trigger] row[b]).id by {
            if b >= before.len() {
                law_ids_are_consecutive(last, b - before.len());
                if a >= before.len() {
                    law_ids_are_consecutive(last, a - before.len());
                } else {
                    assert(before[a] == row[a]);
                    assert(before.contains(row[a]));
                    let j = lemma_message_has_segment(front, row[a]);
                    let s = segments[j];
                    assert(s.wf());
                    let k = choose|k: int|
                        0 <= k < s.messages().len() && s.messages()[k] == row[a];
                    law_ids_are_consecutive(s, k);
                    assert(segments[j].head <= segments[n].tail);
                }
            } else {
                assert(before[a] == row[a] && before[b] == row[b]);
            }
        }
    }
}

/// The ids grow from message to message.
pub proof fn law_ids_grow(q: QueueView, a: int, b: int)
    requires
        q.wf(),
        q.in_order(),
        0 <= a < b < q.messages().len(),
    ensures
        q.messages()[a].id < q.messages()[b].id,
{
    lemma_row_ids_grow(q.segments);
}

/// Reading on from message to message, each time with the id behind the last
/// one, gives every message of the queue once and in order: an id that is
/// behind message number `k - 1` and not behind message number `k` gives
/// message number `k`, and an id behind the last message gives none.
pub proof fn law_reading_on_gives_every_message(q: QueueView, k: int, id: u64)
    requires
        q.wf(),
        q.in_order(),
        0 <= k <= q.messages().len(),
        k > 0 ==> q.messages()[k - 1].id < id,
        k < q.messages().len() ==> id <= q.messages()[k].id,
    ensures
        q.lookup(id) == (if k < q.messages().len() {
            Some(q.messages()[k])
        } else {
            None
        }),
{
    let row = q.messages();
    lemma_row_ids_grow(q.segments);
    law_get_gives_next_available(q, id);
    if k < row.len() {
        assert(row.contains(row[k]));
        let m = q.lookup(id)->0;
        let j = choose|j: int| 0 <= j < row.len() && row[j] == m;
        if j < k {
            assert(j == k - 1 || row[j].id < row[k - 1].id);
        } else if k < j {
            assert(row[k].id < row[j].id);
        }
    } else if q.lookup(id) is Some {
        let m = q.lookup(id)->0;
        let j = choose|j: int| 0 <= j < row.len() && row[j] == m;
        assert(j == k - 1 || row[j].id < row[k - 1].id);
    }
}

/// A message that was just pushed is what a read of its id gives, if the queue
/// is in order. Reads that gave a message before give the same one still, at
/// the same offset.
pub proof fn law_read_after_push(q: QueueView, timestamp: u32, body: Seq<u8>)
    requires
        q.wf(),
        q.fits(body.len() as int),
        q.head < u64::MAX,
    ensures
        q.in_order() ==> q.pushed(timestamp, body).read(q.head) == Some(
            (MessageView { id: q.head, timestamp, body }, q.segments.last().file_offset),
        ),
        forall|id: u64|
            (#[trigger] q.read(id)) is Some ==> q.pushed(timestamp, body).read(id) == q.read(id),
{
    let r = q.pushed(timestamp, body);
    let n = q.segments.len() - 1;
    let s = q.segments[n];
    let m = MessageView { id: q.head, timestamp, body };
    assert(s.wf());
    lemma_push_keeps_wf(s, timestamp, body);
    assert(r.segments[n] == s.pushed(timestamp, body));
    let t = r.segments[n];
    if q.in_order() {
        assert forall|j: int| 0 <= j < n implies !r.serves(j, q.head) by {
            lemma_heads_below(q, j);
        }
        lemma_find(r, q.head, 0, n);
        assert(t.message(q.head as int) == t.messages()[q.head - t.tail]);
        assert(t.messages()[q.head - t.tail] == m);
    }
    assert forall|id: u64| (#[trigger] q.read(id)) is Some implies r.read(id) == q.read(id) by {
        law_find_gives_first_that_serves(q, id, 0);
        let i = q.find(id, 0);
        lemma_find_alike(q, r, id);
        if i == n {
            let k = q.id_in(n, id) - s.tail;
            assert(s.message(q.id_in(n, id)) == s.messages()[k]);
            assert(t.message(q.id_in(n, id)) == t.messages()[k]);
        }
    }
}

/// The same holds of a push into a new segment.
pub proof fn law_read_after_push_to_new_segment(
    q: QueueView,
    image: Seq<u8>,
    timestamp: u32,
    body: Seq<u8>,
)
    requires
        q.wf(),
        q.head < u64::MAX,
        image.len() > MAGIC_SIZE,
        usable_len(image.len() as int),
        SegmentView::created(image, q.head).fits(body.len() as int),
    ensures
        q.in_order() ==> q.pushed_new(image, timestamp, body).read(q.head) == Some(
            (MessageView { id: q.head, timestamp, body }, MAGIC_SIZE),
        ),
        forall|id: u64|
            (#[trigger] q.read(id)) is Some ==> q.pushed_new(image, timestamp, body).read(id)
                == q.read(id),
{
    let r = q.pushed_new(image, timestamp, body);
    let n = q.segments.len() as int;
    let s = SegmentView::created(image, q.head);
    lemma_created_wf(image, q.head);
    lemma_push_keeps_wf(s, timestamp, body);
    let t = r.segments[n];
    if q.in_order() {
        assert forall|j: int| 0 <= j < n implies !r.serves(j, q.head) by {
            lemma_heads_below(q, j);
        }
        lemma_find(r, q.head, 0, n);
        assert(t.message(q.head as int) == t.messages()[0]);
    }
    assert forall|id: u64| (#[trigger] q.read(id)) is Some implies r.read(id) == q.read(id) by {
        law_find_gives_first_that_serves(q, id, 0);
        lemma_find_alike(q, r, id);
    }
}

/// Closing the last segment keeps the messages.
pub(crate) proof fn lemma_close_last(segments: Seq<SegmentView>)
    requires
        forall|i: int| 0 <= i < segments.len() ==> #[trigger] segments[i].wf(),
    ensures
        forall|i: int| 0 <= i < segments.len() ==> #[trigger] close_last(segments)[i].wf(),
        messages_of(close_last(segments)) == messages_of(segments),
{
    if segments.len() > 0 {
        let n = segments.len() - 1;
        let c = close_last(segments);
        assert(segments[n].wf());
        lemma_flags_keep_wf(segments[n], c[n]);
        assert(c.drop_last() =~= segments.drop_last());
        assert forall|i: int| 0 <= i < segments.len() implies #[trigger] c[i].wf() by {
            assert(segments[i].wf());
        }
    }
}

/// A message that is refused leaves the queue with the messages that it had,
/// and with what reads gave. The last segment, which had no room, is closed.
pub proof fn law_refused_push_keeps_messages(q: QueueView)
    requires
        q.wf(),
    ensures
        q.refused().wf(),
        q.refused().head == q.head,
        q.refused().messages() == q.messages(),
        forall|id: u64| #[trigger] q.refused().read(id) == q.read(id),
        q.in_order() ==> q.refused().in_order(),
        q.chained() ==> q.refused().chained(),
{
    let r = q.refused();
    lemma_close_last(q.segments);
    assert forall|id: u64| #[trigger] r.read(id) == q.read(id) by {
        lemma_same_reads(q, r, id);
    }
    assert forall|i: int| 0 <= i < r.segments.len() implies #[trigger] r.segments[i].wf()
        && !r.segments[i].deleted by {
        assert(q.segments[i].wf());
    }
    lemma_same_ends(q, r);
}

/// If a message does not fit even in a new segment, that segment stays, closed
/// and without messages. Messages and reads are as before.
pub proof fn law_refused_push_to_new_segment_keeps_messages(q: QueueView, image: Seq<u8>)
    requires
        q.wf(),
        q.segments.len() > 0 ==> q.segments.last().closed,
        image.len() > MAGIC_SIZE,
        usable_len(image.len() as int),
    ensures
        q.extended(image).wf(),
        q.extended(image).head == q.head,
        q.extended(image).messages() == q.messages(),
        forall|id: u64| #[trigger] q.extended(image).read(id) == q.read(id),
        q.in_order() ==> q.extended(image).in_order(),
        q.chained() ==> q.extended(image).chained(),
{
    let created = SegmentView::created(image, q.head);
    let r = q.extended(image);
    let n = q.segments.len() as int;
    lemma_created_wf(image, q.head);
    lemma_flags_keep_wf(created, r.segments[n]);
    assert(r.segments.drop_last() =~= q.segments);
    assert(r.messages() =~= q.messages());
    assert forall|i: int| 0 <= i < n + 1 implies #[trigger] r.segments[i].wf()
        && !r.segments[i].deleted by {
        if i < n {
            assert(q.segments[i].wf());
        }
    }
    assert forall|i: int| 0 <= i < n implies (#[trigger] r.segments[i]).closed by {
        if i < n - 1 {
            assert(q.segments[i].closed);
        }
    }
    assert forall|id: u64| #[trigger] r.read(id) == q.read(id) by {
        law_find_gives_first_that_serves(q, id, 0);
        law_find_gives_first_that_serves(r, id, 0);
        if q.find(id, 0) < n {
            lemma_find_alike(q, r, id);
        } else if r.find(id, 0) < n {
            assert(r.serves(r.find(id, 0), id));
            assert(!q.serves(r.find(id, 0), id));
        }
    }
    if q.in_order() {
        assert forall|i: int, j: int| 0 <= i < j < n + 1 implies (
        #[trigger] r.segments[i]).head <= (#[trigger] r.segments[j]).tail by {
            if j == n {
                lemma_heads_below(q, i);
            } else {
                assert(q.segments[i].head <= q.segments[j].tail);
            }
        }
    }
}

/// Queues whose segments have the same ids are in order alike.
proof fn lemma_same_ends(q: QueueView, r: QueueView)
    requires
        q.tail <= q.head ==> r.tail <= r.head,
        q.segments.len() == r.segments.len(),
        forall|j: int|
            0 <= j < q.segments.len() ==> (#[trigger] r.segments[j]).tail == q.segments[j].tail
                && r.segments[j].head == q.segments[j].head,
    ensures
        q.in_order() ==> r.in_order(),
        q.chained() ==> r.chained(),
{
    if q.in_order() {
        assert forall|i: int, j: int| 0 <= i < j < r.segments.len() implies (
        #[trigger] r.segments[i]).head <= (#[trigger] r.segments[j]).tail by {
            assert(q.segments[i].head <= q.segments[j].tail);
        }
    }
    if q.chained() {
        assert forall|i: int, j: int| 0 <= i && j == i + 1 && j < r.segments.len() implies (
        #[trigger] r.segments[i]).head == (#[trigger] r.segments[j]).tail by {
            assert(q.segments[i].head == q.segments[j].tail);
        }
    }
}

/// A collection ends at the first segment that cannot be collected; if all can
/// be, behind the last one.
pub proof fn law_gc_ends_at_first_that_stays(q: QueueView, smallest_tail: u64, from: int)
    requires
        0 <= from <= q.segments.len(),
    ensures
        from <= q.gc_end(smallest_tail, from) <= q.segments.len(),
        forall|j: int|
            from <= j < q.gc_end(smallest_tail, from) ==> q.collectable(j, smallest_tail),
        q.gc_end(smallest_tail, from) < q.segments.len() ==> !q.collectable(
            q.gc_end(smallest_tail, from),
            smallest_tail,
        ),
    decreases q.segments.len() - from,
{
    if from < q.segments.len() && q.collectable(from, smallest_tail) {
        law_gc_ends_at_first_that_stays(q, smallest_tail, from + 1);
    }
}

/// A collection takes messages away from the start of the queue only, and
/// only such as have ids below `smallest_tail`.
pub proof fn law_gc_takes_oldest(q: QueueView, smallest_tail: u64)
    requires
        q.wf(),
    ensures
        ({
            let removed = messages_of(q.segments.take(q.gc_end(smallest_tail, 0)));
            let r = q.collected(smallest_tail);
            &&& r.wf()
            &&& r.head == q.head
            &&& q.messages() == removed + r.messages()
            &&& forall|m: MessageView| #[trigger] removed.contains(m) ==> m.id < smallest_tail
            &&& q.in_order() ==> r.in_order()
            &&& q.chained() ==> r.chained()
        }),
{
    let n = q.gc_end(smallest_tail, 0);
    let r = q.collected(smallest_tail);
    let front = q.segments.take(n);
    law_gc_ends_at_first_that_stays(q, smallest_tail, 0);
    assert(front + r.segments =~= q.segments);
    lemma_messages_of_add(front, r.segments);
    assert forall|m: MessageView| #[trigger] messages_of(front).contains(m) implies m.id
        < smallest_tail by {
        let j = lemma_message_has_segment(front, m);
        let s = q.segments[j];
        assert(s.wf());
        assert(q.collectable(j, smallest_tail));
        let k = choose|k: int| 0 <= k < s.messages().len() && s.messages()[k] == m;
        law_ids_are_consecutive(s, k);
    }
    assert forall|i: int| 0 <= i < r.segments.len() implies #[trigger] r.segments[i].wf()
        && !r.segments[i].deleted by {
        assert(q.segments[i + n].wf());
    }
    if r.segments.len() > 0 {
        assert(r.segments.last() == q.segments.last());
    }
    if q.chained() {
        law_chained_queue_is_in_order(q);
        assert forall|i: int, j: int| 0 <= i && j == i + 1 && j < r.segments.len() implies (
        #[trigger] r.segments[i]).head == (#[trigger] r.segments[j]).tail by {
            assert(q.segments[i + n].head == q.segments[j + n].tail);
        }
    }
    if q.in_order() && n > 0 {
        lemma_heads_below(q, n - 1);
    }
}

/// A collection changes no read that finds its message in a segment that
/// stays. All ids from `smallest_tail` on are read so.
pub proof fn law_gc_keeps_reads(q: QueueView, smallest_tail: u64, id: u64)
    requires
        q.wf(),
    ensures
        id >= smallest_tail ==> q.find(id, 0) >= q.gc_end(smallest_tail, 0),
        q.find(id, 0) >= q.gc_end(smallest_tail, 0) ==> q.collected(smallest_tail).read(id)
            == q.read(id),
{
    let n = q.gc_end(smallest_tail, 0);
    let r = q.collected(smallest_tail);
    law_gc_ends_at_first_that_stays(q, smallest_tail, 0);
    law_find_gives_first_that_serves(q, id, 0);
    law_find_gives_first_that_serves(r, id, 0);
    let i = q.find(id, 0);
    let k = r.find(id, 0);
    if i < n {
        assert(q.collectable(i, smallest_tail));
    } else if i < q.segments.len() {
        assert(r.serves(i - n, id));
        assert forall|j: int| 0 <= j < i - n implies !r.serves(j, id) by {
            assert(!q.serves(j + n, id));
        }
        lemma_find(r, id, 0, i - n);
    } else if k < r.segments.len() {
        assert(r.serves(k, id));
        assert(q.serves(k + n, id));
        assert(!q.serves(k + n, id));
    }
}

/// A purge keeps the messages, and what reads give, until they are collected.
/// It moves the tail of the queue to its head.
pub proof fn law_purge_moves_tail(q: QueueView)
    requires
        q.wf(),
    ensures
        q.purged().wf(),
        q.purged().tail == q.purged().head == q.head,
        q.purged().messages() == q.messages(),
        forall|id: u64| #[trigger] q.purged().read(id) == q.read(id),
        q.in_order() ==> q.purged().in_order(),
        q.chained() ==> q.purged().chained(),
{
    let r = q.purged();
    lemma_close_last(q.segments);
    assert forall|id: u64| #[trigger] r.read(id) == q.read(id) by {
        lemma_same_reads(q, r, id);
    }
    assert forall|i: int| 0 <= i < r.segments.len() implies #[trigger] r.segments[i].wf()
        && !r.segments[i].deleted by {
        assert(q.segments[i].wf());
    }
    lemma_same_ends(q, r);
}

/// After a purge, a collection up to the tail of the queue empties it.
pub proof fn law_purged_queue_is_collected(q: QueueView)
    requires
        q.wf(),
        q.in_order(),
    ensures
        q.purged().collected(q.purged().tail).segments.len() == 0,
        q.purged().collected(q.purged().tail).head == q.head,
{
    let r = q.purged();
    let n = r.gc_end(r.tail, 0);
    law_gc_ends_at_first_that_stays(r, r.tail, 0);
    if n < r.segments.len() {
        assert(r.segments[n].head == q.segments[n].head);
        lemma_heads_below(q, n);
        assert(r.segments[n].closed) by {
            if n < q.segments.len() - 1 {
                assert(q.segments[n].closed);
            }
        }
        assert(r.collectable(n, r.tail));
    }
}

/// A checkpoint changes neither the messages nor the reads of the queue. After
/// a full one all messages that it covers have reached the disk.
pub proof fn law_checkpoint_keeps_messages(q: QueueView, full: bool)
    requires
        q.wf(),
    ensures
        q.synced(full).wf(),
        q.synced(full).messages() == q.messages(),
        forall|id: u64| #[trigger] q.synced(full).read(id) == q.read(id),
        q.in_order() ==> q.synced(full).in_order(),
        q.chained() ==> q.synced(full).chained(),
        forall|i: int|
            0 <= i < q.segments.len() && full && q.covered(q.segments[i]) ==> (
            #[trigger] q.synced(full).segments[i]).sync_offset == q.segments[i].file_offset,
{
    let r = q.synced(full);
    assert forall|id: u64| #[trigger] r.read(id) == q.read(id) by {
        lemma_same_reads(q, r, id);
    }
    assert forall|i: int| 0 <= i < r.segments.len() implies #[trigger] r.segments[i].wf()
        && r.segments[i].messages() == q.segments[i].messages() by {
        assert(q.segments[i].wf());
        lemma_flags_keep_wf(q.segments[i], r.segments[i]);
    }
    lemma_same_messages(q.segments, r.segments);
    assert forall|i: int| 0 <= i < r.segments.len() implies !(#[trigger] r.segments[i]).deleted by {
        assert(q.segments[i].wf());
    }
    if r.segments.len() > 0 {
        assert(r.segments.last().head == q.segments.last().head);
    }
    lemma_same_ends(q, r);
    assert forall|i: int| 0 <= i < r.segments.len() - 1 implies (
    #[trigger] r.segments[i]).closed by {
        assert(q.segments[i].closed);
    }
    assert forall|i: int| 0 <= i < q.segments.len() && full && q.covered(q.segments[i]) implies (
    #[trigger] r.segments[i]).sync_offset == q.segments[i].file_offset by {
        assert(q.segments[i].wf());
    }
}

/// Rows of segments with the same messages each have the same messages.
pub(crate) proof fn lemma_same_messages(a: Seq<SegmentView>, b: Seq<SegmentView>)
    requires
        a.len() == b.len(),
        forall|i: int| 0 <= i < a.len() ==> (#[trigger] b[i]).messages() == a[i].messages(),
    ensures
        messages_of(a) == messages_of(b),
    decreases a.len(),
{
    if a.len() > 0 {
        assert(b[b.len() - 1].messages() == a[a.len() - 1].messages());
        assert forall|i: int| 0 <= i < a.len() - 1 implies (
        #[trigger] b.drop_last()[i]).messages() == a.drop_last()[i].messages() by {
            assert(b[i].messages() == a[i].messages());
        }
        lemma_same_messages(a.drop_last(), b.drop_last());
    }
}

} // verus!
