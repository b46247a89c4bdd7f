//! What the operations on the queue do, in terms of its segments and its files.
use crate::laws::{
    law_find_gives_first_that_serves, law_gc_ends_at_first_that_stays, lemma_same_messages,
};
use crate::layout::{
    law_created_segment, law_description_of_segment, law_message_layout, law_opened_segment,
    law_pushed_segment, law_sync_asks_for_what_it_counts, number,
};
use crate::queue::{
    file_views, messages_of, recovered_segments, segment_views, QueueView, SegmentFile,
    SegmentFileView, SyncRequest,
};
use crate::record::{xxh64, MessageView};
use crate::segment::{Segment, SegmentView};
use vstd::prelude::*;

verus! {

/// What is found on the disk is looked at file by file, with all its bytes.
pub proof fn law_files_are_seen_as_they_are(files: Seq<SegmentFile>, i: int)
    requires
        0 <= i < files.len(),
    ensures
        file_views(files).len() == files.len(),
        file_views(files)[i].checkpoint == files[i].checkpoint,
        match files[i].contents {
            Ok(mem) => file_views(files)[i].image == Some((*mem)@),
            Err(_) => file_views(files)[i].image is None,
        },
{
}

/// The segments of a queue are looked at one by one.
pub proof fn law_segments_are_seen_as_they_are(segments: Seq<Segment>, i: int)
    requires
        0 <= i < segments.len(),
    ensures
        segment_views(segments).len() == segments.len(),
        segment_views(segments)[i] == segments[i]@,
{
}

/// A file can be opened if it could not be read, and so is passed over, or if its
/// length can be used.
pub proof fn law_usable_files(f: SegmentFileView)
    ensures
        f.usable() <==> match f.image {
            Some(image) => image.len() <= 4 || image.len() % 0x1_0000_0000 >= 4,
            None => true,
        },
{
}

/// A new queue starts with the id one.
pub proof fn law_new_queue()
    ensures
        QueueView::empty().segments.len() == 0,
        QueueView::empty().head == 1,
        QueueView::empty().tail == 1,
{
}

/// The messages of a queue are those of its segments in their order.
pub proof fn law_messages_follow_segments(segments: Seq<SegmentView>, s: SegmentView)
    ensures
        messages_of(Seq::<SegmentView>::empty()).len() == 0,
        messages_of(segments.push(s)) == messages_of(segments) + s.messages(),
{
    assert(segments.push(s).drop_last() =~= segments);
}

/// Without files there is nothing to find. One more file adds nothing if it
/// could not be read or has no room behind the magic number. Otherwise it adds
/// the segment that it holds as the last one, and closes all others; of them
/// nothing else changes. The head of the queue is that of the last segment and
/// the tail that of the first.
pub proof fn law_recovery_of_one_more_file(files: Seq<SegmentFileView>, f: SegmentFileView)
    ensures
        QueueView::recovered(Seq::empty()) == QueueView::empty(),
        ({
            let q = QueueView::recovered(files);
            let r = QueueView::recovered(files.push(f));
            let n = q.segments.len();
            match f.image {
                Some(image) => if image.len() > 4 {
                    &&& r.segments.len() == n + 1
                    &&& r.segments[n as int] == SegmentView::opened(image, f.checkpoint)
                    &&& forall|i: int|
                        0 <= i < n ==> #[trigger] r.segments[i] == (SegmentView {
                            closed: true,
                            ..q.segments[i]
                        })
                    &&& r.head == r.segments[n as int].head
                    &&& r.tail == r.segments[0].tail
                } else {
                    r == q
                },
                None => r == q,
            }
        }),
    decreases files.len(),
{
    assert(files.push(f).drop_last() =~= files);
    assert(files.push(f).last() == f);
    if files.len() > 0 {
        law_recovery_of_one_more_file(files.drop_last(), files.last());
        assert(files.drop_last().push(files.last()) =~= files);
    }
    let q = QueueView::recovered(files);
    let r = QueueView::recovered(files.push(f));
    let n = q.segments.len();
    assert(q.segments =~= recovered_segments(files));
    lemma_recovered_closed(files);
    if f.image is Some && f.image->0.len() > 4 {
        assert forall|i: int| 0 <= i < n implies #[trigger] r.segments[i] == (SegmentView {
            closed: true,
            ..q.segments[i]
        }) by {
            if i < n - 1 {
                assert(q.segments[i].closed);
            }
        }
    }
}

/// All recovered segments but the last are closed.
proof fn lemma_recovered_closed(files: Seq<SegmentFileView>)
    ensures
        forall|i: int|
            0 <= i < recovered_segments(files).len() - 1 ==> (
            #[trigger] recovered_segments(files)[i]).closed,
    decreases files.len(),
{
    if files.len() > 0 {
        lemma_recovered_closed(files.drop_last());
        let before = recovered_segments(files.drop_last());
        let all = recovered_segments(files);
        assert forall|i: int| 0 <= i < all.len() - 1 implies (#[trigger] all[i]).closed by {
            if i < before.len() - 1 {
                assert(before[i].closed);
            }
        }
    }
}

/// A message fits in the queue if and only if header and body fit behind the
/// last message of the last segment.
pub proof fn law_queue_has_room_in_last_segment(q: QueueView, len: int)
    ensures
        q.fits(len) <==> q.segments.len() > 0 && 20 + len <= q.segments.last().file_size
            - q.segments.last().file_offset,
{
}

/// A push writes the message into the last segment, behind its last message, and
/// moves the head of the queue on by one. Nothing else changes.
pub proof fn law_effect_of_push(q: QueueView, timestamp: u32, body: Seq<u8>)
    requires
        q.segments.len() > 0,
        20 + body.len() <= q.segments.last().file_size - q.segments.last().file_offset,
        q.segments.last().file_size <= q.segments.last().image.len(),
        q.segments.last().head == q.head < u64::MAX,
    ensures
        ({
            let r = q.pushed(timestamp, body);
            let s = q.segments.last();
            let t = r.segments.last();
            let at = s.file_offset as int;
            let end = at + 20 + body.len();
            &&& r.head == q.head + 1
            &&& r.tail == q.tail
            &&& r.segments.len() == q.segments.len()
            &&& forall|i: int|
                0 <= i < q.segments.len() - 1 ==> #[trigger] r.segments[i] == q.segments[i]
            &&& t == (SegmentView {
                image: t.image,
                file_offset: end as u32,
                head: (s.head + 1) as u64,
                offsets: s.offsets.push(s.file_offset),
                ..s
            })
            &&& t.image.len() == s.image.len()
            &&& forall|i: int|
                0 <= i < s.image.len() && !(at <= i < end) ==> #[trigger] t.image[i] == s.image[i]
            &&& number(t.image, at, 4) == xxh64(0, t.image.subrange(at + 4, end)) % 0x1_0000_0000
            &&& number(t.image, at + 4, 8) == q.head
            &&& number(t.image, at + 12, 4) == timestamp
            &&& number(t.image, at + 16, 4) == body.len()
            &&& t.image.subrange(at + 20, end) == body
        }),
{
    law_pushed_segment(q.segments.last(), timestamp, body);
}

/// A push that is refused closes the last segment and changes nothing else.
pub proof fn law_effect_of_refused_push(q: QueueView)
    ensures
        ({
            let r = q.refused();
            let n = q.segments.len();
            &&& r.head == q.head
            &&& r.tail == q.tail
            &&& r.segments.len() == n
            &&& forall|i: int| 0 <= i < n - 1 ==> #[trigger] r.segments[i] == q.segments[i]
            &&& n > 0 ==> r.segments.last() == (SegmentView { closed: true, ..q.segments.last() })
        }),
{
}

/// A push into a new file adds a segment that starts at the head of the queue and
/// holds the message behind the magic number, and moves the head on by one.
/// Nothing else changes.
pub proof fn law_effect_of_push_to_new_segment(
    q: QueueView,
    image: Seq<u8>,
    timestamp: u32,
    body: Seq<u8>,
)
    requires
        4 + 20 + body.len() <= image.len() % 0x1_0000_0000,
        q.head < u64::MAX,
    ensures
        ({
            let r = q.pushed_new(image, timestamp, body);
            let n = q.segments.len();
            let t = r.segments[n as int];
            let end = 24 + body.len() as int;
            &&& r.head == q.head + 1
            &&& r.tail == q.tail
            &&& r.segments.len() == n + 1
            &&& forall|i: int| 0 <= i < n ==> #[trigger] r.segments[i] == q.segments[i]
            &&& t.tail == q.head
            &&& t.head == q.head + 1
            &&& t.offsets == seq![4u32]
            &&& t.file_size == image.len() % 0x1_0000_0000
            &&& t.file_offset == end
            &&& t.sync_offset == 0
            &&& !t.closed
            &&& !t.deleted
            &&& t.image.len() == image.len()
            &&& t.image.subrange(0, 4) == seq![0x11u8, 0x13u8, 0x03u8, 0xF1u8]
            &&& number(t.image, 4, 4) == xxh64(0, t.image.subrange(8, end)) % 0x1_0000_0000
            &&& number(t.image, 8, 8) == q.head
            &&& number(t.image, 16, 4) == timestamp
            &&& number(t.image, 20, 4) == body.len()
            &&& t.image.subrange(24, end) == body
            &&& forall|i: int| end <= i < image.len() ==> #[trigger] t.image[i] == image[i]
        }),
{
    let s = SegmentView::created(image, q.head);
    let t = s.pushed(timestamp, body);
    law_created_segment(image, q.head);
    law_pushed_segment(s, timestamp, body);
    assert(s.offsets.push(4u32) =~= seq![4u32]);
    assert forall|i: int| 0 <= i < 4 implies t.image[i] == s.image[i] by {}
    assert(t.image.subrange(0, 4) =~= s.image.subrange(0, 4));
    assert forall|i: int| 24 + body.len() <= i < image.len() implies #[trigger] t.image[i]
        == image[i] by {
        assert(t.image[i] == s.image[i]);
    }
}

/// A message that does not fit even in a new file leaves a segment behind: closed,
/// without messages, and with nothing written but the magic number.
pub proof fn law_effect_of_refused_push_to_new_segment(q: QueueView, image: Seq<u8>)
    requires
        image.len() > 4,
    ensures
        ({
            let r = q.extended(image);
            let n = q.segments.len();
            let t = r.segments[n as int];
            &&& r.head == q.head
            &&& r.tail == q.tail
            &&& r.segments.len() == n + 1
            &&& forall|i: int| 0 <= i < n ==> #[trigger] r.segments[i] == q.segments[i]
            &&& t.tail == q.head
            &&& t.head == q.head
            &&& t.offsets.len() == 0
            &&& t.file_size == image.len() % 0x1_0000_0000
            &&& t.file_offset == 4
            &&& t.sync_offset == 0
            &&& t.closed
            &&& !t.deleted
            &&& t.image.len() == image.len()
            &&& t.image.subrange(0, 4) == seq![0x11u8, 0x13u8, 0x03u8, 0xF1u8]
            &&& forall|i: int| 4 <= i < image.len() ==> #[trigger] t.image[i] == image[i]
        }),
{
    law_created_segment(image, q.head);
}

/// A read goes to the first segment with messages of which not all lie in front
/// of the id, and there gives the message with the id or, if the segment starts
/// behind it, the first one. It gives nothing if and only if there is no such
/// segment.
pub proof fn law_effect_of_read(q: QueueView, id: u64)
    ensures
        ({
            let i = q.find(id, 0);
            let n = q.segments.len();
            &&& 0 <= i <= n
            &&& forall|j: int|
                0 <= j < i ==> (#[trigger] q.segments[j]).head <= id || q.segments[j].head
                    <= q.segments[j].tail
            &&& i == n ==> q.read(id) is None && q.lookup(id) is None
            &&& i < n ==> {
                let s = q.segments[i];
                let k = if id > s.tail {
                    id - s.tail
                } else {
                    0
                };
                let at = s.offsets[k];
                &&& id < s.head
                &&& s.tail < s.head
                &&& q.read(id) matches Some((m, offset)) && {
                    &&& q.lookup(id) == Some(m)
                    &&& offset == at
                    &&& m.id == number(s.image, at + 4, 8)
                    &&& m.timestamp == number(s.image, at + 12, 4)
                    &&& m.body == s.image.subrange(
                        at + 20,
                        at + 20 + number(s.image, at + 16, 4),
                    )
                }
            }
        }),
{
    let i = q.find(id, 0);
    law_find_gives_first_that_serves(q, id, 0);
    assert forall|j: int| 0 <= j < i implies (#[trigger] q.segments[j]).head <= id
        || q.segments[j].head <= q.segments[j].tail by {
        assert(!q.serves(j, id));
    }
    if i < q.segments.len() {
        let s = q.segments[i];
        law_message_layout(s.image, s.offsets[q.id_in(i, id) - s.tail] as int);
    }
}

/// A purge moves the tail of the queue to its head and closes the last segment.
/// Nothing else changes.
pub proof fn law_effect_of_purge(q: QueueView)
    ensures
        ({
            let r = q.purged();
            let n = q.segments.len();
            &&& r.head == q.head
            &&& r.tail == q.head
            &&& r.segments.len() == n
            &&& forall|i: int| 0 <= i < n - 1 ==> #[trigger] r.segments[i] == q.segments[i]
            &&& n > 0 ==> r.segments.last() == (SegmentView { closed: true, ..q.segments.last() })
        }),
{
}

/// A queue that is deleted has no segments left, and goes on with the same id.
pub proof fn law_effect_of_delete(q: QueueView)
    ensures
        q.emptied().segments.len() == 0,
        q.emptied().head == q.head,
        q.emptied().tail == q.tail,
{
}

/// A collection takes the segments at the start of the queue that are closed and
/// whose ids all lie below `smallest_tail`, up to the first one that is open or
/// reaches further. The tail moves behind what was taken. Nothing else changes,
/// and an open segment is never taken.
pub proof fn law_effect_of_gc(q: QueueView, smallest_tail: u64)
    ensures
        ({
            let r = q.collected(smallest_tail);
            let n = q.gc_end(smallest_tail, 0);
            &&& 0 <= n <= q.segments.len()
            &&& forall|i: int|
                0 <= i < n ==> (#[trigger] q.segments[i]).closed && q.segments[i].head
                    <= smallest_tail
            &&& n < q.segments.len() ==> !q.segments[n].closed || q.segments[n].head
                > smallest_tail
            &&& r.segments.len() == q.segments.len() - n
            &&& forall|i: int|
                0 <= i < r.segments.len() ==> #[trigger] r.segments[i] == q.segments[i + n]
            &&& r.head == q.head
            &&& r.tail == if n > 0 {
                q.segments[n - 1].head
            } else {
                q.tail
            }
            &&& q.segments.len() > 0 && !q.segments.last().closed ==> r.segments.len() > 0
                && r.segments.last() == q.segments.last()
        }),
{
    let n = q.gc_end(smallest_tail, 0);
    law_gc_ends_at_first_that_stays(q, smallest_tail, 0);
    assert forall|i: int| 0 <= i < n implies (#[trigger] q.segments[i]).closed
        && q.segments[i].head <= smallest_tail by {
        assert(q.collectable(i, smallest_tail));
    }
}

/// Collecting in two steps is the same as collecting at once.
pub proof fn law_gc_in_steps(q: QueueView, a: u64, b: u64)
    requires
        a <= b,
    ensures
        q.collected(a).collected(b) == q.collected(b),
{
    let r = q.collected(a);
    let n = q.gc_end(a, 0);
    let k = r.gc_end(b, 0);
    let m = q.gc_end(b, 0);
    law_effect_of_gc(q, a);
    law_effect_of_gc(q, b);
    law_effect_of_gc(r, b);
    if m < n + k {
        if m < n {
            assert(q.segments[m].closed);
        } else {
            assert(r.segments[m - n].closed);
        }
    } else if n + k < m {
        assert(q.segments[n + k].closed);
        assert(r.segments[k] == q.segments[n + k]);
    }
    assert(r.collected(b).segments =~= q.collected(b).segments);
}

/// What a checkpoint says of a segment: its first id, the id behind its last
/// message, how far it is synced then, and whether it is closed.
pub proof fn law_description_after_sync(s: SegmentView, full: bool)
    ensures
        ({
            let c = s.synced(full).checkpoint();
            let target = if full {
                s.file_offset as int
            } else {
                s.file_offset - 1048576
            };
            &&& c.tail == s.tail
            &&& c.head == s.head
            &&& c.closed == s.closed
            &&& c.sync_offset == if target > s.sync_offset {
                target
            } else {
                s.sync_offset as int
            }
        }),
{
    law_sync_asks_for_what_it_counts(s, full);
    law_description_of_segment(s.synced(full));
}

/// A checkpoint describes the segments one by one. One more segment in the queue
/// adds its description behind the others if it starts at the tail of the queue
/// or behind it, and otherwise nothing.
pub proof fn law_checkpoint_of_one_more_segment(q: QueueView, s: SegmentView, full: bool)
    ensures
        (QueueView { segments: Seq::empty(), ..q }).checkpoint(full).len() == 0,
        (QueueView { segments: q.segments.push(s), ..q }).checkpoint(full) == if s.tail >= q.tail {
            q.checkpoint(full).push(s.synced(full).checkpoint())
        } else {
            q.checkpoint(full)
        },
{
    reveal(Seq::filter);
    let r = QueueView { segments: q.segments.push(s), ..q };
    let covered = |s: SegmentView| q.covered(s);
    assert(r.segments.drop_last() =~= q.segments);
    assert((|s: SegmentView| r.covered(s)) =~= covered);
    assert(r.checkpoint(full) =~= if s.tail >= q.tail {
        q.checkpoint(full).push(s.synced(full).checkpoint())
    } else {
        q.checkpoint(full)
    });
}

/// A checkpoint describes exactly the segments that do not start in front of the
/// tail of the queue: no entry starts in front of it, and every such segment has
/// its entry.
pub proof fn law_checkpoint_describes_what_is_kept(q: QueueView, full: bool)
    ensures
        forall|k: int| 0 <= k < q.checkpoint(full).len() ==> (#[trigger] q.checkpoint(full)[k]).tail
            >= q.tail,
        forall|k: int|
            0 <= k < q.checkpoint(full).len() ==> exists|i: int|
                0 <= i < q.segments.len() && #[trigger] q.segments[i].synced(full).checkpoint()
                    == #[trigger] q.checkpoint(full)[k],
        forall|i: int|
            0 <= i < q.segments.len() && (#[trigger] q.segments[i]).tail >= q.tail
                ==> q.checkpoint(full).contains(q.segments[i].synced(full).checkpoint()),
    decreases q.segments.len(),
{
    if q.segments.len() == 0 {
        assert(q.segments =~= Seq::empty());
        law_checkpoint_of_one_more_segment(q, arbitrary(), full);
        assert(q == (QueueView { segments: Seq::empty(), ..q }));
    } else {
        let n = q.segments.len() - 1;
        let p = QueueView { segments: q.segments.drop_last(), ..q };
        let s = q.segments.last();
        law_checkpoint_describes_what_is_kept(p, full);
        law_checkpoint_of_one_more_segment(p, s, full);
        law_description_after_sync(s, full);
        assert(p.segments.push(s) =~= q.segments);
        assert(q == (QueueView { segments: p.segments.push(s), ..p }));
        let all = q.checkpoint(full);
        let front = p.checkpoint(full);
        assert forall|k: int| 0 <= k < all.len() implies (#[trigger] all[k]).tail >= q.tail by {
            if k < front.len() {
                assert(front[k].tail >= p.tail);
            }
        }
        assert forall|k: int| 0 <= k < all.len() implies exists|i: int|
            0 <= i < q.segments.len() && #[trigger] q.segments[i].synced(full).checkpoint()
                == #[trigger] all[k] by {
            if k < front.len() {
                assert(front[k] == all[k]);
                let i = choose|i: int|
                    0 <= i < p.segments.len() && #[trigger] p.segments[i].synced(full).checkpoint()
                        == front[k];
                assert(q.segments[i].synced(full).checkpoint() == all[k]);
            } else {
                assert(q.segments[n].synced(full).checkpoint() == all[k]);
            }
        }
        assert forall|i: int|
            0 <= i < q.segments.len() && (#[trigger] q.segments[i]).tail
                >= q.tail implies all.contains(q.segments[i].synced(full).checkpoint()) by {
            let c = q.segments[i].synced(full).checkpoint();
            if i < n {
                assert(p.segments[i].tail >= p.tail);
                assert(front.contains(c));
                let k = choose|k: int| 0 <= k < front.len() && front[k] == c;
                assert(all[k] == c);
            } else {
                assert(all[front.len() as int] == c);
            }
        }
    }
}

/// A restart brings nothing back from in front of the tail: whatever the files of
/// a checkpoint hold by then, every message that is found has an id from the tail
/// of the queue on.
pub proof fn law_restart_keeps_to_the_tail(
    q: QueueView,
    full: bool,
    files: Seq<SegmentFileView>,
)
    requires
        files.map_values(|f: SegmentFileView| f.checkpoint) == q.checkpoint(full),
    ensures
        forall|m: MessageView| #[trigger]
            QueueView::recovered(files).messages().contains(m) ==> m.id >= q.tail,
        forall|i: int|
            0 <= i < QueueView::recovered(files).segments.len() ==> (
            #[trigger] QueueView::recovered(files).segments[i]).tail >= q.tail,
{
    law_checkpoint_describes_what_is_kept(q, full);
    assert forall|i: int| 0 <= i < files.len() implies (#[trigger] files[i]).checkpoint.tail
        >= q.tail by {
        assert(files.map_values(|f: SegmentFileView| f.checkpoint)[i] == files[i].checkpoint);
        assert(q.checkpoint(full)[i].tail >= q.tail);
    }
    lemma_found_from(files, q.tail);
}

/// If no file starts in front of an id, no message that is found does.
proof fn lemma_found_from(files: Seq<SegmentFileView>, id: u64)
    requires
        forall|i: int| 0 <= i < files.len() ==> (#[trigger] files[i]).checkpoint.tail >= id,
    ensures
        forall|m: MessageView| #[trigger]
            QueueView::recovered(files).messages().contains(m) ==> m.id >= id,
        forall|i: int|
            0 <= i < QueueView::recovered(files).segments.len() ==> (
            #[trigger] QueueView::recovered(files).segments[i]).tail >= id,
    decreases files.len(),
{
    let r = QueueView::recovered(files);
    if files.len() == 0 {
        assert(files =~= Seq::empty());
    } else {
        let front = files.drop_last();
        let f = files.last();
        assert forall|i: int| 0 <= i < front.len() implies (#[trigger] front[i]).checkpoint.tail
            >= id by {
            assert(files[i].checkpoint.tail >= id);
        }
        assert(files[files.len() - 1].checkpoint.tail >= id);
        lemma_found_from(front, id);
        law_recovery_of_one_more_file(front, f);
        assert(front.push(f) =~= files);
        let q = QueueView::recovered(front);
        let n = q.segments.len();
        if f.image is Some && f.image->0.len() > 4 {
            let last = SegmentView::opened(f.image->0, f.checkpoint);
            law_opened_segment(f.image->0, f.checkpoint);
            assert forall|i: int| 0 <= i < r.segments.len() implies (#[trigger] r.segments[i]).tail
                >= id by {
                if i < n {
                    assert(q.segments[i].tail >= id);
                }
            }
            let closed = r.segments.drop_last();
            assert(closed.push(last) =~= r.segments);
            law_messages_follow_segments(closed, last);
            assert forall|i: int| 0 <= i < n implies (#[trigger] closed[i]).messages()
                == q.segments[i].messages() by {
                assert(closed[i] == r.segments[i]);
                assert(closed[i].messages() =~= q.segments[i].messages());
            }
            lemma_same_messages(q.segments, closed);
            assert forall|m: MessageView| #[trigger] r.messages().contains(m) implies m.id >= id by {
                let k = choose|k: int| 0 <= k < r.messages().len() && r.messages()[k] == m;
                let before = q.messages();
                if k < before.len() {
                    assert(before[k] == m);
                    assert(q.messages().contains(m));
                } else {
                    let i = k - before.len();
                    assert(last.messages()[i] == m);
                    assert(number(last.image, last.offsets[i] + 4, 8) == f.checkpoint.tail + i);
                    law_message_layout(last.image, last.offsets[i] as int);
                }
            }
        }
    }
}

/// Whatever a checkpoint counts as newly synced it also asks for, and nothing
/// else: it asks once, in the order of the segments, for each segment whose sync
/// offset it moves, and for all bytes up to the new one. It moves those of the
/// segments that do not start in front of the tail, and if it is full all the way
/// to their last message.
pub proof fn law_checkpoint_asks_for_what_it_counts(q: QueueView, full: bool)
    requires
        q.segments.len() <= usize::MAX,
    ensures
        ({
            let r = q.synced(full);
            let n = q.segments.len() as int;
            let asked = q.sync_requests(full, n);
            &&& r.head == q.head
            &&& r.tail == q.tail
            &&& r.segments.len() == n
            &&& forall|i: int|
                0 <= i < n ==> {
                    let s = q.segments[i];
                    let t = #[trigger] r.segments[i];
                    let target = if full {
                        s.file_offset as int
                    } else {
                        s.file_offset - 1048576
                    };
                    &&& t == (SegmentView { sync_offset: t.sync_offset, ..s })
                    &&& t.sync_offset == if s.tail >= q.tail && target > s.sync_offset {
                        target
                    } else {
                        s.sync_offset as int
                    }
                }
            &&& forall|k: int|
                0 <= k < asked.len() ==> {
                    let i = (#[trigger] asked[k]).segment as int;
                    &&& i < n
                    &&& r.segments[i].sync_offset > q.segments[i].sync_offset
                    &&& asked[k].len == r.segments[i].sync_offset
                }
            &&& forall|i: int|
                0 <= i < n && (#[trigger] r.segments[i]).sync_offset > q.segments[i].sync_offset
                    ==> asked.contains(
                    SyncRequest { segment: i as usize, len: r.segments[i].sync_offset },
                )
            &&& forall|k: int, l: int|
                0 <= k < l < asked.len() ==> (#[trigger] asked[k]).segment < (
                #[trigger] asked[l]).segment
            &&& forall|i: int|
                0 <= i < n && full && (#[trigger] q.segments[i]).tail >= q.tail
                    && q.segments[i].file_offset > q.segments[i].sync_offset ==> asked.contains(
                    SyncRequest { segment: i as usize, len: q.segments[i].file_offset },
                )
        }),
{
    let r = q.synced(full);
    let n = q.segments.len() as int;
    assert forall|i: int| 0 <= i < n implies {
        let s = q.segments[i];
        let t = #[trigger] r.segments[i];
        let target = if full {
            s.file_offset as int
        } else {
            s.file_offset - 1048576
        };
        &&& t == (SegmentView { sync_offset: t.sync_offset, ..s })
        &&& t.sync_offset == if s.tail >= q.tail && target > s.sync_offset {
            target
        } else {
            s.sync_offset as int
        }
    } by {
        law_sync_asks_for_what_it_counts(q.segments[i], full);
    }
    lemma_asked(q, full, n);
    let asked = q.sync_requests(full, n);
    assert forall|i: int|
        0 <= i < n && full && (#[trigger] q.segments[i]).tail >= q.tail
            && q.segments[i].file_offset > q.segments[i].sync_offset implies asked.contains(
        SyncRequest { segment: i as usize, len: q.segments[i].file_offset },
    ) by {
        assert(r.segments[i].sync_offset == q.segments[i].file_offset);
    }
}

/// What is asked for of the first `n` segments.
proof fn lemma_asked(q: QueueView, full: bool, n: int)
    requires
        0 <= n <= q.segments.len() <= usize::MAX,
    ensures
        ({
            let r = q.synced(full);
            let asked = q.sync_requests(full, n);
            &&& forall|k: int|
                0 <= k < asked.len() ==> {
                    let i = (#[trigger] asked[k]).segment as int;
                    &&& i < n
                    &&& r.segments[i].sync_offset > q.segments[i].sync_offset
                    &&& asked[k].len == r.segments[i].sync_offset
                }
            &&& forall|i: int|
                0 <= i < n && (#[trigger] r.segments[i]).sync_offset > q.segments[i].sync_offset
                    ==> asked.contains(
                    SyncRequest { segment: i as usize, len: r.segments[i].sync_offset },
                )
            &&& forall|k: int, l: int|
                0 <= k < l < asked.len() ==> (#[trigger] asked[k]).segment < (
                #[trigger] asked[l]).segment
        }),
    decreases n,
{
    if n > 0 {
        let r = q.synced(full);
        let s = q.segments[n - 1];
        let before = q.sync_requests(full, n - 1);
        let asked = q.sync_requests(full, n);
        lemma_asked(q, full, n - 1);
        law_sync_asks_for_what_it_counts(s, full);
        assert(r.segments[n - 1].sync_offset > s.sync_offset <==> asked == before.push(
            SyncRequest { segment: (n - 1) as usize, len: r.segments[n - 1].sync_offset },
        ));
        assert forall|i: int|
            0 <= i < n && (#[trigger] r.segments[i]).sync_offset
                > q.segments[i].sync_offset implies asked.contains(
            SyncRequest { segment: i as usize, len: r.segments[i].sync_offset },
        ) by {
            let request = SyncRequest { segment: i as usize, len: r.segments[i].sync_offset };
            if i < n - 1 {
                assert(before.contains(request));
                let k = choose|k: int| 0 <= k < before.len() && before[k] == request;
                assert(asked[k] == request);
            } else {
                assert(asked[before.len() as int] == request);
            }
        }
    }
}

/// After a full checkpoint there is nothing left to ask for.
pub proof fn law_full_checkpoint_leaves_nothing(q: QueueView, again: bool)
    requires
        q.segments.len() <= usize::MAX,
    ensures
        q.synced(true).sync_requests(again, q.segments.len() as int).len() == 0,
        q.synced(true).synced(again) == q.synced(true),
{
    let r = q.synced(true);
    law_checkpoint_asks_for_what_it_counts(q, true);
    law_checkpoint_asks_for_what_it_counts(r, again);
    let asked = r.sync_requests(again, q.segments.len() as int);
    if asked.len() > 0 {
        let i = asked[0].segment as int;
        assert(r.synced(again).segments[i].sync_offset > r.segments[i].sync_offset);
        assert(r.segments[i].sync_offset >= q.segments[i].sync_offset);
    }
    assert forall|i: int| 0 <= i < r.segments.len() implies #[trigger] r.synced(
        again,
    ).segments[i] == r.segments[i] by {
        assert(r.segments[i].tail == q.segments[i].tail);
    }
    assert(r.synced(again).segments =~= r.segments);
}

} // verus!
