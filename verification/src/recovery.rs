//! What is found again when the files of a queue are opened.
use crate::bytes::{
    le32_bytes, le64, lemma_le32_bytes_of, lemma_le32_round_trip, overwrite, same_range,
};
use crate::checkpoint::SegmentCheckpoint;
use crate::laws::{
    law_chained_queue_is_in_order, law_get_gives_next_available, lemma_close_last,
    lemma_same_messages, lemma_same_reads,
};
use crate::queue::{
    close_last, messages_of, recovered_segments, QueueView, SegmentFileView,
};
use crate::record::{
    end_at, header_at, lemma_same_message, lemma_stored_len, next_in_file, scan, scan_end,
    MessageView, HEADER_SIZE, MAGIC_NUM, MAGIC_SIZE,
};
use crate::segment::{lemma_flags_keep_wf, lemma_push_keeps_wf, SegmentView};
use vstd::prelude::*;

verus! {

/// Later messages start at later offsets.
proof fn lemma_bounds_grow(s: SegmentView, i: int, j: int)
    requires
        s.wf(),
        0 <= i <= j <= s.offsets.len(),
    ensures
        MAGIC_SIZE <= s.bound(i) <= s.bound(j),
    decreases j - i,
{
    if i < s.offsets.len() {
        assert(s.holds(i));
    }
    if i < j {
        lemma_bounds_grow(s, i + 1, j);
    }
}

/// A file that agrees with a segment up to the start of message number `k`
/// holds the messages in front of it.
proof fn lemma_scan_agrees(s: SegmentView, image: Seq<u8>, i: int, k: int)
    requires
        s.wf(),
        0 <= i <= k <= s.offsets.len(),
        image.len() == s.image.len(),
        same_range(s.image, image, MAGIC_SIZE as int, s.bound(k)),
        i < k ==> s.bound(k) < s.file_size,
    ensures
        scan(image, s.file_size as int, s.bound(i), s.tail + i) == s.offsets.subrange(i, k) + scan(
            image,
            s.file_size as int,
            s.bound(k),
            s.tail + k,
        ),
        scan_end(image, s.file_size as int, s.bound(i), s.tail + i) == scan_end(
            image,
            s.file_size as int,
            s.bound(k),
            s.tail + k,
        ),
    decreases k - i,
{
    let size = s.file_size as int;
    let rest = scan(image, size, s.bound(k), s.tail + k);
    if i == k {
        assert(s.offsets.subrange(i, k) + rest =~= rest);
    } else {
        assert(s.holds(i));
        lemma_bounds_grow(s, i + 1, k);
        lemma_same_message(s.image, image, s.bound(i));
        assert(next_in_file(image, size, s.bound(i), s.tail + i) == Some(s.bound(i + 1)));
        lemma_scan_agrees(s, image, i + 1, k);
        assert(seq![s.offsets[i]] + (s.offsets.subrange(i + 1, k) + rest) =~= s.offsets.subrange(
            i,
            k,
        ) + rest);
    }
}

/// Writing the magic number over itself changes nothing.
proof fn lemma_magic_stays(s: SegmentView)
    requires
        s.wf(),
    ensures
        overwrite(s.image, 0, le32_bytes(MAGIC_NUM)) == s.image,
{
    lemma_le32_bytes_of(s.image, 0, MAGIC_NUM);
    assert forall|i: int| 0 <= i < 4 implies s.image[i] == le32_bytes(MAGIC_NUM)[i] by {
        assert(s.image.subrange(0, 4)[i] == s.image[i]);
    }
    assert(overwrite(s.image, 0, le32_bytes(MAGIC_NUM)) =~= s.image);
}

/// Damage to a file costs no message in front of it: as long as the bytes of
/// the first `k` messages are as they were, these messages are found, whatever
/// the rest of the file and the magic number have become. (They have to end
/// before the last byte of the file.) They are found at their places. If what
/// follows them is not the next message they are all that is found.
pub proof fn law_undamaged_messages_are_found(
    s: SegmentView,
    image: Seq<u8>,
    checkpoint: SegmentCheckpoint,
    k: int,
)
    requires
        s.wf(),
        0 <= k <= s.offsets.len(),
        image.len() == s.image.len(),
        same_range(s.image, image, MAGIC_SIZE as int, s.bound(k)),
        k > 0 ==> s.bound(k) < s.file_size,
        checkpoint.tail == s.tail,
    ensures
        SegmentView::opened(image, checkpoint).messages().len() >= k,
        SegmentView::opened(image, checkpoint).messages().take(k) == s.messages().take(k),
        SegmentView::opened(image, checkpoint).offsets.take(k) == s.offsets.take(k),
        next_in_file(image, s.file_size as int, s.bound(k), s.tail + k) is None ==> {
            &&& SegmentView::opened(image, checkpoint).messages() == s.messages().take(k)
            &&& SegmentView::opened(image, checkpoint).offsets == s.offsets.take(k)
            &&& SegmentView::opened(image, checkpoint).head == s.tail + k
            &&& SegmentView::opened(image, checkpoint).file_offset == s.bound(k)
        },
{
    let size = s.file_size as int;
    let o = SegmentView::opened(image, checkpoint);
    lemma_bounds_grow(s, 0, k);
    lemma_scan_agrees(s, o.image, 0, k);
    assert(s.bound(0) == MAGIC_SIZE);
    let rest = scan(o.image, size, s.bound(k), s.tail + k);
    assert(o.offsets == s.offsets.subrange(0, k) + rest);
    assert forall|i: int| 0 <= i < k implies o.messages()[i] == s.messages()[i] by {
        assert(o.offsets[i] == s.offsets[i]);
        assert(s.holds(i));
        lemma_bounds_grow(s, i + 1, k);
        lemma_same_message(s.image, o.image, s.bound(i));
    }
    assert(o.messages().take(k) =~= s.messages().take(k));
    assert(o.offsets.take(k) =~= s.offsets.take(k));
    if next_in_file(image, size, s.bound(k), s.tail + k) is None {
        lemma_bounds_grow(s, k, s.offsets.len() as int);
        lemma_next_ignores_magic(image, o.image, size, s.bound(k), s.tail + k);
        assert(rest.len() == 0);
        assert(o.messages() =~= s.messages().take(k));
        assert(o.offsets =~= s.offsets.take(k));
    }
}

/// Whether there is a message at an offset does not depend on the magic
/// number.
proof fn lemma_next_ignores_magic(a: Seq<u8>, b: Seq<u8>, size: int, at: int, id: int)
    requires
        MAGIC_SIZE <= at,
        size <= a.len(),
        a.len() == b.len(),
        same_range(a, b, MAGIC_SIZE as int, a.len() as int),
    ensures
        next_in_file(a, size, at, id) == next_in_file(b, size, at, id),
{
    if at + HEADER_SIZE < size {
        assert(header_at(a, at) == header_at(b, at)) by {
            reveal(header_at);
        }
        if end_at(a, at) < size {
            lemma_same_message(a, b, at);
        }
    }
}

/// A segment that is opened again is what it was: the same messages at the
/// same places, and the same next id. All of it counts as synced.
pub proof fn law_segment_is_found_again(s: SegmentView, checkpoint: SegmentCheckpoint)
    requires
        s.wf(),
        s.reopenable(),
        checkpoint.tail == s.tail,
    ensures
        SegmentView::opened(s.image, checkpoint) == (SegmentView {
            sync_offset: s.file_offset,
            closed: checkpoint.closed,
            deleted: false,
            ..s
        }),
{
    let n = s.offsets.len() as int;
    let o = SegmentView::opened(s.image, checkpoint);
    lemma_magic_stays(s);
    lemma_scan_agrees(s, s.image, 0, n);
    assert(s.offsets.subrange(0, n) =~= s.offsets);
    assert(o.offsets =~= s.offsets);
    assert(o =~= SegmentView {
        sync_offset: s.file_offset,
        closed: checkpoint.closed,
        deleted: false,
        ..s
    });
}

/// A message that ends with the last byte of its file is not found again. The
/// messages in front of it are.
pub proof fn law_last_message_of_full_file_is_lost(s: SegmentView, checkpoint: SegmentCheckpoint)
    requires
        s.wf(),
        s.offsets.len() > 0,
        s.file_offset == s.file_size,
        checkpoint.tail == s.tail,
    ensures
        SegmentView::opened(s.image, checkpoint).messages() == s.messages().drop_last(),
        SegmentView::opened(s.image, checkpoint).head == s.head - 1,
{
    let k = s.offsets.len() - 1;
    assert(s.holds(k));
    law_undamaged_messages_are_found(s, s.image, checkpoint, k);
    assert(s.messages().take(k) =~= s.messages().drop_last());
}

/// Blank space behind the last message is not taken for a message.
pub proof fn law_blank_space_ends_messages(s: SegmentView)
    requires
        s.wf(),
        s.blank_behind(),
        s.head != 0,
        s.offsets.len() > 0 ==> s.file_offset < s.file_size,
    ensures
        s.reopenable(),
{
    let at = s.file_offset as int;
    if at + HEADER_SIZE < s.file_size {
        assert(le64(s.image, at + 4) == 0);
        assert(header_at(s.image, at).id == 0) by {
            reveal(header_at);
        }
    }
}

/// In a file that started out blank the space behind the last message stays
/// blank.
pub proof fn law_space_stays_blank(s: SegmentView, timestamp: u32, body: Seq<u8>)
    requires
        s.wf(),
        s.blank_behind(),
        s.fits(body.len() as int),
        s.head < u64::MAX,
    ensures
        s.pushed(timestamp, body).blank_behind(),
{
    let t = s.pushed(timestamp, body);
    lemma_push_keeps_wf(s, timestamp, body);
    lemma_stored_len(MessageView { id: s.head, timestamp, body });
    assert forall|i: int| t.file_offset <= i < t.image.len() implies #[trigger] t.image[i] == 0 by {
        assert(s.image[i] == 0);
    }
}

/// A new segment in a blank file is blank behind its (no) messages.
pub proof fn law_created_segment_is_blank(image: Seq<u8>, start_id: u64)
    requires
        image.len() > MAGIC_SIZE,
        forall|i: int| MAGIC_SIZE <= i < image.len() ==> #[trigger] image[i] == 0,
    ensures
        SegmentView::created(image, start_id).blank_behind(),
{
}

/// Opening a file a second time finds what the first time found.
pub proof fn law_opening_again_changes_nothing(image: Seq<u8>, checkpoint: SegmentCheckpoint)
    ensures
        SegmentView::opened(SegmentView::opened(image, checkpoint).image, checkpoint)
            == SegmentView::opened(image, checkpoint),
{
    let once = overwrite(image, 0, le32_bytes(MAGIC_NUM));
    assert(overwrite(once, 0, le32_bytes(MAGIC_NUM)) =~= once);
}

/// Files that are missing or too small are passed over, and the others are
/// opened as if those were not there.
pub proof fn law_unreadable_files_are_skipped(files: Seq<SegmentFileView>)
    ensures
        recovered_segments(files) == recovered_segments(
            files.filter(|f: SegmentFileView| f.opened() is Some),
        ),
    decreases files.len(),
{
    reveal(Seq::filter);
    let readable = |f: SegmentFileView| f.opened() is Some;
    if files.len() > 0 {
        law_unreadable_files_are_skipped(files.drop_last());
        let front = files.drop_last().filter(readable);
        if readable(files.last()) {
            assert(front.push(files.last()).drop_last() =~= front);
        }
    }
}

/// All segments but the last are closed after a queue has been opened, whatever
/// the checkpoint says of them.
pub proof fn law_recovered_queue_has_one_open_segment(files: Seq<SegmentFileView>)
    ensures
        QueueView::recovered(files).one_open(),
        QueueView::recovered(files).segments == recovered_segments(files),
    decreases files.len(),
{
    if files.len() > 0 {
        let front = files.drop_last();
        law_recovered_queue_has_one_open_segment(front);
        let before = QueueView::recovered(front).segments;
        let all = recovered_segments(files);
        assert forall|i: int| 0 <= i < all.len() - 1 implies (#[trigger] all[i]).closed by {
            if i < before.len() - 1 {
                assert(before[i].closed);
            }
        }
    }
}

/// The head and the sync offset in a checkpoint have no influence on what is
/// found in a file: checkpoints with the same first id give the same segment,
/// but for the closed flag, which is that of the checkpoint.
pub proof fn law_checkpoint_gives_first_id_only(
    s: SegmentView,
    a: SegmentCheckpoint,
    b: SegmentCheckpoint,
)
    requires
        a.tail == b.tail,
    ensures
        s.recovered(a) == (SegmentView { closed: a.closed, ..s.recovered(b) }),
        s.recovered(a).messages() == s.recovered(b).messages(),
        SegmentView::opened(s.image, a) == (SegmentView {
            closed: a.closed,
            ..SegmentView::opened(s.image, b)
        }),
{
    assert(s.recovered(a).messages() =~= s.recovered(b).messages());
}

/// What is on the disk for a segment after a checkpoint: the file, and what
/// the checkpoint says of the segment.
pub open spec fn file_of(s: SegmentView, full: bool) -> SegmentFileView {
    SegmentFileView { checkpoint: s.synced(full).checkpoint(), image: Some(s.image) }
}

/// A segment after it has been opened again.
pub open spec fn reopened(s: SegmentView) -> SegmentView {
    SegmentView { sync_offset: s.file_offset, deleted: false, ..s }
}

/// A row of segments of which only the last may be open is found again.
proof fn lemma_row_is_found_again(segments: Seq<SegmentView>, full: bool)
    requires
        forall|i: int|
            0 <= i < segments.len() ==> #[trigger] segments[i].wf() && segments[i].reopenable(),
        forall|i: int| 0 <= i < segments.len() - 1 ==> (#[trigger] segments[i]).closed,
    ensures
        recovered_segments(segments.map_values(|s: SegmentView| file_of(s, full)))
            == segments.map_values(|s: SegmentView| reopened(s)),
    decreases segments.len(),
{
    let file = |s: SegmentView| file_of(s, full);
    let again = |s: SegmentView| reopened(s);
    let files = segments.map_values(file);
    let found = segments.map_values(again);
    if segments.len() == 0 {
        assert(recovered_segments(files) =~= found);
    } else {
        let front = segments.drop_last();
        let last = segments.last();
        assert forall|i: int| 0 <= i < front.len() implies #[trigger] front[i].wf()
            && front[i].reopenable() by {
            assert(segments[i].wf());
        }
        assert forall|i: int| 0 <= i < front.len() - 1 implies (#[trigger] front[i]).closed by {
            assert(segments[i].closed);
        }
        lemma_row_is_found_again(front, full);
        assert(files.drop_last() =~= front.map_values(file));
        let before = front.map_values(again);
        assert(segments[segments.len() - 1].wf());
        law_segment_is_found_again(last, file_of(last, full).checkpoint);
        assert(files.last().opened() == Some(reopened(last)));
        if before.len() > 0 {
            assert(segments[segments.len() - 2].closed);
            assert(before.last() == (SegmentView { closed: true, ..before.last() }));
        }
        assert(close_last(before) =~= before);
        assert(before.push(reopened(last)) =~= found);
    }
}

/// What holds of all segments holds of those that a filter leaves, and they
/// stay in their order.
proof fn lemma_filtered_row(segments: Seq<SegmentView>, kept: spec_fn(SegmentView) -> bool)
    ensures
        ({
            let f = segments.filter(kept);
            &&& forall|i: int| 0 <= i < f.len() ==> segments.contains(#[trigger] f[i])
            &&& (forall|i: int| 0 <= i < segments.len() - 1 ==> (#[trigger] segments[i]).closed)
                ==> forall|i: int| 0 <= i < f.len() - 1 ==> (#[trigger] f[i]).closed
            &&& (forall|i: int, j: int|
                0 <= i < j < segments.len() ==> (#[trigger] segments[i]).head <= (
                #[trigger] segments[j]).tail) ==> forall|i: int, j: int|
                0 <= i < j < f.len() ==> (#[trigger] f[i]).head <= (#[trigger] f[j]).tail
        }),
    decreases segments.len(),
{
    reveal(Seq::filter);
    if segments.len() > 0 {
        let front = segments.drop_last();
        let g = front.filter(kept);
        let f = segments.filter(kept);
        lemma_filtered_row(front, kept);
        assert forall|i: int| 0 <= i < f.len() implies segments.contains(#[trigger] f[i]) by {
            if i < g.len() {
                assert(front.contains(g[i]));
                let k = choose|k: int| 0 <= k < front.len() && front[k] == g[i];
                assert(segments[k] == f[i]);
            } else {
                assert(segments[segments.len() - 1] == f[i]);
            }
        }
        if forall|i: int| 0 <= i < segments.len() - 1 ==> (#[trigger] segments[i]).closed {
            assert forall|i: int| 0 <= i < g.len() implies (#[trigger] g[i]).closed by {
                assert(front.contains(g[i]));
                let k = choose|k: int| 0 <= k < front.len() && front[k] == g[i];
                assert(segments[k].closed);
            }
        }
        if forall|i: int, j: int|
            0 <= i < j < segments.len() ==> (#[trigger] segments[i]).head <= (
            #[trigger] segments[j]).tail {
            assert forall|i: int, j: int| 0 <= i < j < front.len() implies (
            #[trigger] front[i]).head <= (#[trigger] front[j]).tail by {
                assert(segments[i].head <= segments[j].tail);
            }
            assert forall|i: int, j: int| 0 <= i < j < f.len() implies (#[trigger] f[i]).head <= (
            #[trigger] f[j]).tail by {
                if j < g.len() {
                    assert(g[i].head <= g[j].tail);
                } else {
                    assert(front.contains(g[i]));
                    let k = choose|k: int| 0 <= k < front.len() && front[k] == g[i];
                    assert(segments[k].head <= segments[segments.len() - 1].tail);
                }
            }
        }
    }
}

/// A queue is found again by its checkpoint: opening the files gives the
/// segments that the checkpoint covers, with all their messages at their
/// places. If it covers all segments the queue has all its messages, gives the
/// same reads and goes on with the same id. Files that were blank when the
/// queue took them still are behind their messages.
pub proof fn law_queue_is_found_again(q: QueueView, full: bool)
    requires
        q.wf(),
        forall|i: int|
            0 <= i < q.segments.len() && q.covered(q.segments[i]) ==> (
            #[trigger] q.segments[i]).reopenable(),
    ensures
        ({
            let covered = q.segments.filter(|s: SegmentView| q.covered(s));
            let files = covered.map_values(|s: SegmentView| file_of(s, full));
            let r = QueueView::recovered(files);
            &&& files.map_values(|f: SegmentFileView| f.checkpoint) == q.checkpoint(full)
            &&& r.segments == covered.map_values(|s: SegmentView| reopened(s))
            &&& r.wf()
            &&& r.segments.len() == covered.len()
            &&& r.messages() == messages_of(covered)
            &&& forall|id: u64|
                #[trigger] r.read(id) == (QueueView { segments: covered, ..q }).read(id)
            &&& q.in_order() ==> r.in_order()
            &&& q.blank_behind() ==> r.blank_behind()
            &&& covered.len() > 0 ==> r.tail == covered.first().tail
            &&& q.segments.len() > 0 && q.covered(q.segments.last()) ==> r.head == q.head
            &&& (forall|i: int| 0 <= i < q.segments.len() ==> q.covered(#[trigger] q.segments[i]))
                ==> {
                &&& covered == q.segments
                &&& r.messages() == q.messages()
                &&& forall|id: u64| #[trigger] r.read(id) == q.read(id)
                &&& q.chained() ==> r.chained()
            }
        }),
{
    let pred = |s: SegmentView| q.covered(s);
    let covered = q.segments.filter(pred);
    let files = covered.map_values(|s: SegmentView| file_of(s, full));
    let r = QueueView::recovered(files);
    lemma_filtered_row(q.segments, pred);
    assert forall|i: int| 0 <= i < covered.len() implies #[trigger] covered[i].wf()
        && covered[i].reopenable() by {
        broadcast use Seq::lemma_filter_pred;

        assert(q.segments.contains(covered[i]));
        assert(pred(covered[i]));
        let k = choose|k: int| 0 <= k < q.segments.len() && q.segments[k] == covered[i];
        assert(q.segments[k].wf());
        assert(q.segments[k].reopenable());
    }
    lemma_row_is_found_again(covered, full);
    assert(files.map_values(|f: SegmentFileView| f.checkpoint) =~= q.checkpoint(full));
    let again = covered.map_values(|s: SegmentView| reopened(s));
    assert(r.segments =~= again);
    assert forall|i: int| 0 <= i < covered.len() implies (#[trigger] again[i]).messages()
        == covered[i].messages() by {
        assert(again[i].messages() =~= covered[i].messages());
    }
    lemma_same_messages(covered, again);
    let part = QueueView { segments: covered, ..q };
    assert forall|id: u64| #[trigger] r.read(id) == part.read(id) by {
        lemma_same_reads(part, r, id);
    }
    assert forall|i: int| 0 <= i < again.len() - 1 implies (#[trigger] again[i]).closed by {
        assert(covered[i].closed);
    }
    assert forall|i: int| 0 <= i < again.len() implies #[trigger] r.segments[i].wf()
        && !r.segments[i].deleted by {
        assert(covered[i].wf());
        lemma_flags_keep_wf(covered[i], again[i]);
    }
    if q.blank_behind() {
        assert forall|i: int| 0 <= i < again.len() implies (#[trigger] r.segments[i]).tail >= 1
            && r.segments[i].blank_behind() by {
            assert(q.segments.contains(covered[i]));
            let k = choose|k: int| 0 <= k < q.segments.len() && q.segments[k] == covered[i];
            assert(q.segments[k].blank_behind());
            assert(again[i].image == covered[i].image);
        }
        if again.len() > 0 {
            assert(covered[again.len() - 1].wf());
            assert(r.segments[again.len() - 1].tail >= 1);
        }
    }
    if q.in_order() {
        assert forall|i: int, j: int| 0 <= i < j < again.len() implies (#[trigger] again[i]).head
            <= (#[trigger] again[j]).tail by {
            assert(covered[i].head <= covered[j].tail);
        }
        if again.len() > 0 {
            let n = again.len() - 1;
            assert(covered[0].wf());
            assert(covered[n].wf());
            if n > 0 {
                assert(covered[0].head <= covered[n].tail);
            }
        }
    }
    if q.segments.len() > 0 && q.covered(q.segments.last()) {
        reveal(Seq::filter);
        assert(covered.last() == q.segments.last());
    }
    if forall|i: int| 0 <= i < q.segments.len() ==> q.covered(#[trigger] q.segments[i]) {
        lemma_filter_keeps_all(q.segments, pred);
        assert(part == q);
        if q.chained() {
            law_chained_queue_is_in_order(q);
            assert forall|i: int, j: int| 0 <= i && j == i + 1 && j < again.len() implies (
            #[trigger] r.segments[i]).head == (#[trigger] r.segments[j]).tail by {
                assert(q.segments[i].head == q.segments[j].tail);
            }
        }
    }
}

/// A queue whose files were blank when it took them is found again by its
/// checkpoint: the same messages and reads, the same number of segments and the
/// same next id. The tail is that of the first segment. What was found can be
/// found again in the same way. (Every file has to have a byte left behind its
/// messages.)
pub proof fn law_blank_queue_is_found_again(q: QueueView, full: bool)
    requires
        q.wf(),
        q.blank_behind(),
        q.segments.len() > 0,
        forall|i: int|
            0 <= i < q.segments.len() ==> q.covered(#[trigger] q.segments[i]) && (
            q.segments[i].offsets.len() > 0 ==> q.segments[i].file_offset
                < q.segments[i].file_size),
    ensures
        ({
            let files = q.segments.map_values(|s: SegmentView| file_of(s, full));
            let r = QueueView::recovered(files);
            &&& files.map_values(|f: SegmentFileView| f.checkpoint) == q.checkpoint(full)
            &&& r.wf()
            &&& r.blank_behind()
            &&& q.in_order() ==> r.in_order()
            &&& q.chained() ==> r.chained()
            &&& r.segments == q.segments.map_values(|s: SegmentView| reopened(s))
            &&& r.messages() == q.messages()
            &&& forall|id: u64| #[trigger] r.read(id) == q.read(id)
            &&& r.segments.len() == q.segments.len()
            &&& r.head == q.head
            &&& r.tail == q.segments.first().tail
        }),
{
    assert forall|i: int| 0 <= i < q.segments.len() && q.covered(q.segments[i]) implies (
    #[trigger] q.segments[i]).reopenable() by {
        assert(q.segments[i].wf());
        assert(q.segments[i].blank_behind());
        law_blank_space_ends_messages(q.segments[i]);
    }
    law_queue_is_found_again(q, full);
    lemma_filter_keeps_all(q.segments, |s: SegmentView| q.covered(s));
    assert(q.covered(q.segments[q.segments.len() - 1]));
}

/// There is a file, and it is long enough for a segment.
pub open spec fn readable(image: Option<Seq<u8>>) -> bool {
    image matches Some(bytes) && bytes.len() > MAGIC_SIZE
}

/// Of the file of a segment the first `k` messages are left, and what follows
/// them in `image` is not the next message.
pub open spec fn keeps(s: SegmentView, image: Seq<u8>, k: int) -> bool {
    &&& 0 <= k <= s.offsets.len()
    &&& image.len() == s.image.len()
    &&& same_range(s.image, image, MAGIC_SIZE as int, s.bound(k))
    &&& k > 0 ==> s.bound(k) < s.file_size
    &&& next_in_file(image, s.file_size as int, s.bound(k), s.tail + k) is None
}

/// What is on the disk for a row of segments after a checkpoint, if each file
/// has become what `images` says.
pub open spec fn files_left(
    segments: Seq<SegmentView>,
    images: Seq<Option<Seq<u8>>>,
    full: bool,
) -> Seq<SegmentFileView> {
    Seq::new(
        segments.len(),
        |i: int|
            SegmentFileView {
                checkpoint: file_of(segments[i], full).checkpoint,
                image: images[i],
            },
    )
}

/// The first `kept[i]` messages of each segment whose file can be read, one
/// segment after the other.
pub open spec fn messages_left(
    segments: Seq<SegmentView>,
    images: Seq<Option<Seq<u8>>>,
    kept: Seq<int>,
) -> Seq<MessageView>
    decreases segments.len(),
{
    if segments.len() == 0 {
        Seq::empty()
    } else {
        let before = messages_left(segments.drop_last(), images.drop_last(), kept.drop_last());
        if readable(images.last()) {
            before + segments.last().messages().take(kept.last())
        } else {
            before
        }
    }
}

/// A segment that is opened from a damaged file holds what is left of it.
proof fn lemma_opened_keeps(s: SegmentView, image: Seq<u8>, checkpoint: SegmentCheckpoint, k: int)
    requires
        s.wf(),
        keeps(s, image, k),
        checkpoint.tail == s.tail,
    ensures
        ({
            let o = SegmentView::opened(image, checkpoint);
            &&& o.wf()
            &&& !o.deleted
            &&& o.tail == s.tail
            &&& o.head == s.tail + k
            &&& o.messages() == s.messages().take(k)
        }),
{
    let o = SegmentView::opened(image, checkpoint);
    law_undamaged_messages_are_found(s, image, checkpoint, k);
    lemma_bounds_grow(s, 0, k);
    lemma_bounds_grow(s, k, s.offsets.len() as int);
    assert(o.image.subrange(0, 4) =~= le32_bytes(MAGIC_NUM));
    lemma_le32_round_trip(o.image, 0, MAGIC_NUM);
    assert forall|i: int| 0 <= i < o.offsets.len() implies #[trigger] o.holds(i) by {
        assert(s.holds(i));
        lemma_bounds_grow(s, i + 1, k);
        lemma_same_message(s.image, o.image, s.bound(i));
    }
}

/// The ids of a segment lie among those of a segment of the row.
spec fn among(s: SegmentView, row: Seq<SegmentView>) -> bool {
    exists|k: int|
        0 <= k < row.len() && (#[trigger] row[k]).tail == s.tail && s.head <= row[k].head
}

/// What is left of a row of segments is found.
proof fn lemma_row_left_is_found(
    segments: Seq<SegmentView>,
    images: Seq<Option<Seq<u8>>>,
    kept: Seq<int>,
    full: bool,
)
    requires
        images.len() == segments.len(),
        kept.len() == segments.len(),
        forall|i: int| 0 <= i < segments.len() ==> #[trigger] segments[i].wf(),
        forall|i: int, j: int|
            0 <= i < j < segments.len() ==> (#[trigger] segments[i]).head <= (
            #[trigger] segments[j]).tail,
        forall|i: int|
            0 <= i < segments.len() && readable(images[i]) ==> keeps(
                #[trigger] segments[i],
                images[i]->0,
                kept[i],
            ),
    ensures
        ({
            let found = recovered_segments(files_left(segments, images, full));
            &&& forall|i: int|
                0 <= i < found.len() ==> #[trigger] found[i].wf() && !found[i].deleted
            &&& forall|i: int| 0 <= i < found.len() ==> among(#[trigger] found[i], segments)
            &&& forall|i: int, j: int|
                0 <= i < j < found.len() ==> (#[trigger] found[i]).head <= (
                #[trigger] found[j]).tail
            &&& messages_of(found) == messages_left(segments, images, kept)
            &&& segments.len() > 0 && readable(images.last()) ==> found.len() > 0
                && found.last().head == segments.last().tail + kept.last()
            &&& segments.len() > 0 && readable(images.first()) ==> found.len() > 0
                && found.first().tail == segments.first().tail
        }),
    decreases segments.len(),
{
    let files = files_left(segments, images, full);
    if segments.len() > 0 {
        let n = segments.len() - 1;
        let front = segments.drop_last();
        let before = recovered_segments(files_left(front, images.drop_last(), full));
        let found = recovered_segments(files);
        assert forall|i: int| 0 <= i < front.len() implies #[trigger] front[i].wf() by {
            assert(segments[i].wf());
        }
        assert forall|i: int, j: int| 0 <= i < j < front.len() implies (#[trigger] front[i]).head
            <= (#[trigger] front[j]).tail by {
            assert(segments[i].head <= segments[j].tail);
        }
        assert forall|i: int|
            0 <= i < front.len() && readable(images.drop_last()[i]) implies keeps(
            #[trigger] front[i],
            images.drop_last()[i]->0,
            kept.drop_last()[i],
        ) by {
            assert(segments[i].wf());
        }
        lemma_row_left_is_found(front, images.drop_last(), kept.drop_last(), full);
        assert(files.drop_last() =~= files_left(front, images.drop_last(), full));
        let closed = close_last(before);
        lemma_close_last(before);
        if readable(images.last()) {
            let last = SegmentView::opened(images.last()->0, files.last().checkpoint);
            assert(segments[n].wf());
            lemma_opened_keeps(segments[n], images[n]->0, files.last().checkpoint, kept[n]);
            assert(found == closed.push(last));
            assert(found.drop_last() =~= closed);
        } else {
            assert(found == before);
        }
        assert forall|i: int| 0 <= i < found.len() implies #[trigger] found[i].wf()
            && !found[i].deleted by {
            if i < before.len() {
                assert(before[i].wf());
                assert(readable(images.last()) ==> closed[i].wf());
            }
        }
        assert forall|i: int| 0 <= i < found.len() implies among(#[trigger] found[i], segments) by {
            if i < before.len() {
                assert(among(before[i], front));
                let k = choose|k: int|
                    0 <= k < front.len() && (#[trigger] front[k]).tail == before[i].tail
                        && before[i].head <= front[k].head;
                assert(segments[k].tail == found[i].tail);
            } else {
                assert(segments[n].tail == found[i].tail);
            }
        }
        assert forall|i: int, j: int| 0 <= i < j < found.len() implies (#[trigger] found[i]).head
            <= (#[trigger] found[j]).tail by {
            if j < before.len() {
                assert(before[i].head <= before[j].tail);
            } else {
                assert(among(before[i], front));
                let k = choose|k: int|
                    0 <= k < front.len() && (#[trigger] front[k]).tail == before[i].tail
                        && before[i].head <= front[k].head;
                assert(segments[k].head <= segments[n].tail);
            }
        }
    }
}

/// A queue whose files were lost or damaged is read on with what is left of
/// them: it is in order, it has the messages in front of the damage of each
/// file that can be read, and no others, and a read gives the message with the
/// id asked for or the next one of these. (What is left of a file has to end
/// before its last byte, and not to be followed by what would be the next
/// message.)
pub proof fn law_damaged_queue_is_read_on(
    q: QueueView,
    images: Seq<Option<Seq<u8>>>,
    kept: Seq<int>,
    full: bool,
)
    requires
        q.wf(),
        q.in_order(),
        ({
            let covered = q.segments.filter(|s: SegmentView| q.covered(s));
            &&& images.len() == covered.len()
            &&& kept.len() == covered.len()
            &&& forall|i: int|
                0 <= i < covered.len() && readable(images[i]) ==> keeps(
                    #[trigger] covered[i],
                    images[i]->0,
                    kept[i],
                )
        }),
    ensures
        ({
            let covered = q.segments.filter(|s: SegmentView| q.covered(s));
            let files = files_left(covered, images, full);
            let r = QueueView::recovered(files);
            let left = messages_left(covered, images, kept);
            &&& files.map_values(|f: SegmentFileView| f.checkpoint) == q.checkpoint(full)
            &&& r.wf()
            &&& r.in_order()
            &&& r.messages() == left
            &&& forall|id: u64|
                match #[trigger] r.lookup(id) {
                    Some(m) => {
                        &&& left.contains(m)
                        &&& m.id >= id
                        &&& forall|o: MessageView|
                            #[trigger] left.contains(o) && o.id >= id ==> m.id <= o.id
                    },
                    None => forall|o: MessageView| #[trigger] left.contains(o) ==> o.id < id,
                }
            &&& covered.len() > 0 && readable(images.first()) ==> r.tail == covered.first().tail
            &&& covered.len() > 0 && readable(images.last()) ==> r.head == covered.last().tail
                + kept.last()
            &&& (forall|i: int| 0 <= i < covered.len() ==> !readable(#[trigger] images[i])) ==> r
                == QueueView::empty()
            &&& (forall|i: int| 0 <= i < q.segments.len() ==> q.covered(#[trigger] q.segments[i]))
                ==> covered == q.segments
        }),
{
    let pred = |s: SegmentView| q.covered(s);
    let covered = q.segments.filter(pred);
    let files = files_left(covered, images, full);
    let r = QueueView::recovered(files);
    lemma_filtered_row(q.segments, pred);
    assert forall|i: int| 0 <= i < covered.len() implies #[trigger] covered[i].wf() by {
        assert(q.segments.contains(covered[i]));
        let k = choose|k: int| 0 <= k < q.segments.len() && q.segments[k] == covered[i];
        assert(q.segments[k].wf());
    }
    lemma_row_left_is_found(covered, images, kept, full);
    law_recovered_queue_has_one_open_segment(files);
    assert(files.map_values(|f: SegmentFileView| f.checkpoint) =~= q.checkpoint(full));
    if r.segments.len() > 0 {
        let n = r.segments.len() - 1;
        assert(r.segments[0].wf());
        assert(r.segments[n].wf());
        if n > 0 {
            assert(r.segments[0].head <= r.segments[n].tail);
        }
    }
    assert forall|id: u64|
        match #[trigger] r.lookup(id) {
            Some(m) => {
                &&& r.messages().contains(m)
                &&& m.id >= id
                &&& forall|o: MessageView|
                    #[trigger] r.messages().contains(o) && o.id >= id ==> m.id <= o.id
            },
            None => forall|o: MessageView| #[trigger] r.messages().contains(o) ==> o.id < id,
        } by {
        law_get_gives_next_available(r, id);
    }
    if forall|i: int| 0 <= i < covered.len() ==> !readable(#[trigger] images[i]) {
        lemma_nothing_left(files);
    }
    if forall|i: int| 0 <= i < q.segments.len() ==> q.covered(#[trigger] q.segments[i]) {
        lemma_filter_keeps_all(q.segments, pred);
    }
}

/// Files of which none can be read hold no segments.
proof fn lemma_nothing_left(files: Seq<SegmentFileView>)
    requires
        forall|i: int| 0 <= i < files.len() ==> (#[trigger] files[i]).opened() is None,
    ensures
        recovered_segments(files) == Seq::<SegmentView>::empty(),
    decreases files.len(),
{
    if files.len() > 0 {
        let front = files.drop_last();
        assert forall|i: int| 0 <= i < front.len() implies (#[trigger] front[i]).opened()
            is None by {
            assert(files[i].opened() is None);
        }
        lemma_nothing_left(front);
        assert(files[files.len() - 1].opened() is None);
    }
}

/// A filter that accepts everything changes nothing.
proof fn lemma_filter_keeps_all(segments: Seq<SegmentView>, kept: spec_fn(SegmentView) -> bool)
    requires
        forall|i: int| 0 <= i < segments.len() ==> kept(#[trigger] segments[i]),
    ensures
        segments.filter(kept) == segments,
    decreases segments.len(),
{
    reveal(Seq::filter);
    if segments.len() > 0 {
        let front = segments.drop_last();
        assert forall|i: int| 0 <= i < front.len() implies kept(#[trigger] front[i]) by {
            assert(kept(segments[i]));
        }
        lemma_filter_keeps_all(front, kept);
        assert(kept(segments[segments.len() - 1]));
        assert(front.push(segments.last()) =~= segments);
    }
}

} // verus!
