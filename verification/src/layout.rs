//! What segments hold and how they change, down to the bytes of their files.
use crate::bytes::{
    le32, le32_bytes, le64, le64_bytes, lemma_le32_round_trip, lemma_le64_round_trip, overwrite,
    same_range,
};
use crate::checkpoint::SegmentCheckpoint;
use crate::record::{
    end_at, header_at, intact_at, lemma_stored_len, lemma_stored_round_trip, message_at,
    next_in_file, payload_hash, scan, scan_end, xxh64, MessageView,
};
use crate::recovery::law_undamaged_messages_are_found;
use crate::segment::{usable_len, SegmentView};
use vstd::prelude::*;

verus! {

/// The number that `n` bytes from `at` on stand for, the least significant one
/// first.
pub open spec fn number(s: Seq<u8>, at: int, n: nat) -> int
    decreases n,
{
    if n == 0 {
        0
    } else {
        s[at] + 256 * number(s, at + 1, (n - 1) as nat)
    }
}

/// Four bytes are read as one number, and so are eight.
pub proof fn law_integers_are_little_endian(s: Seq<u8>, at: int)
    ensures
        le32(s, at) == number(s, at, 4),
        le64(s, at) == number(s, at, 8),
        0 <= number(s, at, 4) <= u32::MAX,
        0 <= number(s, at, 8) <= u64::MAX,
{
    reveal_with_fuel(number, 9);
}

/// The bytes that are written for a number stand for that number.
pub proof fn law_integers_are_written_as_they_are_read(x: u32, y: u64)
    ensures
        le32_bytes(x).len() == 4,
        number(le32_bytes(x), 0, 4) == x,
        le64_bytes(y).len() == 8,
        number(le64_bytes(y), 0, 8) == y,
{
    let a = le32_bytes(x);
    let b = le64_bytes(y);
    assert(a.subrange(0, 4) =~= a);
    assert(b.subrange(0, 8) =~= b);
    lemma_le32_round_trip(a, 0, x);
    lemma_le64_round_trip(b, 0, y);
    law_integers_are_little_endian(a, 0);
    law_integers_are_little_endian(b, 0);
}

/// Writing bytes changes those in their place and no others.
pub proof fn law_writing_stays_in_place(s: Seq<u8>, at: int, bytes: Seq<u8>)
    requires
        0 <= at,
        at + bytes.len() <= s.len(),
    ensures
        overwrite(s, at, bytes).len() == s.len(),
        overwrite(s, at, bytes).subrange(at, at + bytes.len()) == bytes,
        forall|i: int|
            0 <= i < s.len() && !(at <= i < at + bytes.len()) ==> #[trigger] overwrite(
                s,
                at,
                bytes,
            )[i] == s[i],
{
}

/// Equal bytes stand for equal numbers.
proof fn lemma_same_number(a: Seq<u8>, b: Seq<u8>, at: int, n: nat)
    requires
        same_range(a, b, at, at + n),
    ensures
        number(a, at, n) == number(b, at, n),
    decreases n,
{
    if n > 0 {
        assert(a[at] == b[at]);
        lemma_same_number(a, b, at + 1, (n - 1) as nat);
    }
}

/// A message in a file is its hash in four bytes, its id in eight, the timestamp
/// and the length of the body in four each, and the body.
pub proof fn law_message_layout(s: Seq<u8>, at: int)
    ensures
        header_at(s, at).hash == number(s, at, 4),
        header_at(s, at).id == number(s, at + 4, 8),
        header_at(s, at).timestamp == number(s, at + 12, 4),
        header_at(s, at).len == number(s, at + 16, 4),
        end_at(s, at) == at + 20 + number(s, at + 16, 4),
        message_at(s, at).id == number(s, at + 4, 8),
        message_at(s, at).timestamp == number(s, at + 12, 4),
        message_at(s, at).body == s.subrange(at + 20, at + 20 + number(s, at + 16, 4)),
{
    reveal(header_at);
    law_integers_are_little_endian(s, at);
    law_integers_are_little_endian(s, at + 4);
    law_integers_are_little_endian(s, at + 12);
    law_integers_are_little_endian(s, at + 16);
}

/// The hash of a message is the low half of the xxHash, under seed zero, of all
/// its bytes behind the hash, however long the message is.
pub proof fn law_hash_covers_whole_message(s: Seq<u8>, at: int)
    ensures
        intact_at(s, at) <==> number(s, at, 4) == xxh64(
            0,
            s.subrange(at + 4, at + 20 + number(s, at + 16, 4)),
        ) % 0x1_0000_0000,
{
    law_message_layout(s, at);
}

/// The low half of a digest is what is kept of it, whatever was hashed.
pub proof fn law_hash_is_low_half_of_digest(bytes: Seq<u8>)
    ensures
        payload_hash(bytes) == xxh64(0, bytes) % 0x1_0000_0000,
{
}

/// A change to a message behind its hash goes unnoticed only if the digests of
/// the two messages, over all their bytes behind the hash, have the same low
/// half.
pub proof fn law_change_needs_same_digest(a: Seq<u8>, b: Seq<u8>, at: int)
    requires
        intact_at(a, at),
        intact_at(b, at),
        same_range(a, b, at, at + 4),
    ensures
        xxh64(0, a.subrange(at + 4, at + 20 + number(a, at + 16, 4))) % 0x1_0000_0000 == xxh64(
            0,
            b.subrange(at + 4, at + 20 + number(b, at + 16, 4)),
        ) % 0x1_0000_0000,
{
    law_hash_covers_whole_message(a, at);
    law_hash_covers_whole_message(b, at);
    lemma_same_number(a, b, at, 4);
}

/// A message is stored as it is read: all its parts are there, in their places,
/// under the hash of what is behind the hash.
pub proof fn law_stored_message_layout(m: MessageView)
    requires
        m.body.len() <= u32::MAX,
    ensures
        m.stored().len() == 20 + m.body.len(),
        number(m.stored(), 0, 4) == xxh64(0, m.stored().subrange(4, m.stored().len() as int))
            % 0x1_0000_0000,
        number(m.stored(), 4, 8) == m.id,
        number(m.stored(), 12, 4) == m.timestamp,
        number(m.stored(), 16, 4) == m.body.len(),
        m.stored().subrange(20, m.stored().len() as int) == m.body,
{
    let s = m.stored();
    lemma_stored_len(m);
    assert(s.subrange(0, s.len() as int) =~= s);
    lemma_stored_round_trip(s, 0, m);
    law_message_layout(s, 0);
    law_hash_covers_whole_message(s, 0);
}

/// There is a message at a place in a file if and only if it has the id asked
/// for, which is not the largest there is, it ends before the last byte of the
/// file, and its hash is right.
pub proof fn law_what_counts_as_message(s: Seq<u8>, size: int, at: int, id: int)
    ensures
        next_in_file(s, size, at, id) == (if id < u64::MAX && at + 20 < size && number(
            s,
            at + 4,
            8,
        ) == id && at + 20 + number(s, at + 16, 4) < size && number(s, at, 4) == xxh64(
            0,
            s.subrange(at + 4, at + 20 + number(s, at + 16, 4)),
        ) % 0x1_0000_0000 {
            Some(at + 20 + number(s, at + 16, 4))
        } else {
            None
        }),
{
    law_message_layout(s, at);
    law_hash_covers_whole_message(s, at);
}

/// The messages that a scan finds follow one another, and behind the last one
/// there is no further message.
proof fn lemma_scan_is_longest_run(s: Seq<u8>, size: int, at: int, id: int)
    requires
        0 <= at <= u32::MAX,
        size <= u32::MAX,
        id <= u64::MAX,
    ensures
        ({
            let found = scan(s, size, at, id);
            let end = scan_end(s, size, at, id);
            &&& id + found.len() <= u64::MAX
            &&& at <= end <= u32::MAX
            &&& found.len() == 0 ==> end == at
            &&& found.len() > 0 ==> found[0] == at && end < size
            &&& forall|i: int|
                0 <= i < found.len() ==> next_in_file(
                    s,
                    size,
                    #[trigger] found[i] as int,
                    id + i,
                ) == Some(
                    if i + 1 < found.len() {
                        found[i + 1] as int
                    } else {
                        end
                    },
                )
            &&& next_in_file(s, size, end, id + found.len()) is None
        }),
    decreases size - at,
{
    let found = scan(s, size, at, id);
    match next_in_file(s, size, at, id) {
        Some(next) => {
            law_what_counts_as_message(s, size, at, id);
            law_integers_are_little_endian(s, at + 16);
            lemma_scan_is_longest_run(s, size, next, id + 1);
            let rest = scan(s, size, next, id + 1);
            assert(found =~= seq![at as u32] + rest);
            assert forall|i: int| 0 <= i < found.len() implies next_in_file(
                s,
                size,
                #[trigger] found[i] as int,
                id + i,
            ) == Some(
                if i + 1 < found.len() {
                    found[i + 1] as int
                } else {
                    scan_end(s, size, at, id)
                },
            ) by {
                if i > 0 {
                    assert(rest[i - 1] == found[i]);
                    if i + 1 < found.len() {
                        assert(rest[i] == found[i + 1]);
                    }
                } else if found.len() > 1 {
                    assert(rest[0] == found[1]);
                }
            }
        },
        None => {},
    }
}

/// What is found in a file: the messages from the id in the checkpoint on, one
/// behind the other from the fifth byte on, each with the next id, whole and with
/// the right hash; and all such messages, so that behind the last one there is
/// no message with the next id, or none that is whole, or one whose hash is
/// wrong. Of the file only the magic number is written.
pub proof fn law_recovered_segment(s: SegmentView, checkpoint: SegmentCheckpoint)
    requires
        s.image.len() > 4,
    ensures
        ({
            let o = s.recovered(checkpoint);
            let n = o.offsets.len();
            &&& o.tail == checkpoint.tail
            &&& o.head == checkpoint.tail + n
            &&& o.closed == checkpoint.closed
            &&& o.deleted == s.deleted
            &&& o.file_size == s.file_size
            &&& o.sync_offset == o.file_offset
            &&& o.image.len() == s.image.len()
            &&& o.image.subrange(0, 4) == seq![0x11u8, 0x13u8, 0x03u8, 0xF1u8]
            &&& forall|i: int| 4 <= i < s.image.len() ==> #[trigger] o.image[i] == s.image[i]
            &&& n == 0 ==> o.file_offset == 4
            &&& n > 0 ==> o.offsets[0] == 4
            &&& forall|i: int|
                0 <= i < n ==> {
                    let at = #[trigger] o.offsets[i] as int;
                    let end = at + 20 + number(o.image, at + 16, 4);
                    &&& end == if i + 1 < n {
                        o.offsets[i + 1] as int
                    } else {
                        o.file_offset as int
                    }
                    &&& end < o.file_size
                    &&& number(o.image, at + 4, 8) == checkpoint.tail + i
                    &&& number(o.image, at, 4) == xxh64(0, o.image.subrange(at + 4, end))
                        % 0x1_0000_0000
                }
            &&& {
                let at = o.file_offset as int;
                let end = at + 20 + number(o.image, at + 16, 4);
                ||| o.head == u64::MAX
                ||| at + 20 >= o.file_size
                ||| number(o.image, at + 4, 8) != o.head
                ||| end >= o.file_size
                ||| number(o.image, at, 4) != xxh64(0, o.image.subrange(at + 4, end))
                    % 0x1_0000_0000
            }
        }),
{
    let o = s.recovered(checkpoint);
    let size = o.file_size as int;
    lemma_scan_is_longest_run(o.image, size, 4, checkpoint.tail as int);
    assert(o.image.subrange(0, 4) =~= seq![0x11u8, 0x13u8, 0x03u8, 0xF1u8]);
    assert forall|i: int| 0 <= i < o.offsets.len() implies {
        let at = #[trigger] o.offsets[i] as int;
        let end = at + 20 + number(o.image, at + 16, 4);
        &&& end == if i + 1 < o.offsets.len() {
            o.offsets[i + 1] as int
        } else {
            o.file_offset as int
        }
        &&& end < o.file_size
        &&& number(o.image, at + 4, 8) == checkpoint.tail + i
        &&& number(o.image, at, 4) == xxh64(0, o.image.subrange(at + 4, end)) % 0x1_0000_0000
    } by {
        law_what_counts_as_message(o.image, size, o.offsets[i] as int, checkpoint.tail + i);
    }
    law_what_counts_as_message(o.image, size, o.file_offset as int, o.head as int);
}

/// The same holds of a file that is opened, which starts out as it was mapped and
/// is used up to its length as a 32 bit number.
pub proof fn law_opened_segment(image: Seq<u8>, checkpoint: SegmentCheckpoint)
    requires
        image.len() > 4,
    ensures
        ({
            let o = SegmentView::opened(image, checkpoint);
            let n = o.offsets.len();
            &&& o.tail == checkpoint.tail
            &&& o.head == checkpoint.tail + n
            &&& o.closed == checkpoint.closed
            &&& !o.deleted
            &&& o.file_size == image.len() % 0x1_0000_0000
            &&& o.sync_offset == o.file_offset
            &&& o.image.len() == image.len()
            &&& o.image.subrange(0, 4) == seq![0x11u8, 0x13u8, 0x03u8, 0xF1u8]
            &&& forall|i: int| 4 <= i < image.len() ==> #[trigger] o.image[i] == image[i]
            &&& n == 0 ==> o.file_offset == 4
            &&& n > 0 ==> o.offsets[0] == 4
            &&& forall|i: int|
                0 <= i < n ==> {
                    let at = #[trigger] o.offsets[i] as int;
                    let end = at + 20 + number(o.image, at + 16, 4);
                    &&& end == if i + 1 < n {
                        o.offsets[i + 1] as int
                    } else {
                        o.file_offset as int
                    }
                    &&& end < o.file_size
                    &&& number(o.image, at + 4, 8) == checkpoint.tail + i
                    &&& number(o.image, at, 4) == xxh64(0, o.image.subrange(at + 4, end))
                        % 0x1_0000_0000
                }
            &&& {
                let at = o.file_offset as int;
                let end = at + 20 + number(o.image, at + 16, 4);
                ||| o.head == u64::MAX
                ||| at + 20 >= o.file_size
                ||| number(o.image, at + 4, 8) != o.head
                ||| end >= o.file_size
                ||| number(o.image, at, 4) != xxh64(0, o.image.subrange(at + 4, end))
                    % 0x1_0000_0000
            }
        }),
{
    let s = SegmentView::mapped(image, checkpoint.tail);
    law_created_segment(image, checkpoint.tail);
    law_recovered_segment(s, checkpoint);
}

/// A file is refused if it has no room behind the magic number. Any other can be
/// used if its length, as a 32 bit number, has room for the magic number; that is
/// so of every length that 32 bits can hold.
pub proof fn law_usable_lengths(len: int)
    requires
        0 <= len,
    ensures
        usable_len(len) <==> len <= 4 || len % 0x1_0000_0000 >= 4,
        len <= u32::MAX ==> usable_len(len),
{
}

/// A new segment: the magic number at the start of the file, nothing else
/// changed, and no messages.
pub proof fn law_created_segment(image: Seq<u8>, start_id: u64)
    requires
        image.len() > 4,
    ensures
        ({
            let s = SegmentView::created(image, start_id);
            &&& s.image.len() == image.len()
            &&& s.image.subrange(0, 4) == seq![0x11u8, 0x13u8, 0x03u8, 0xF1u8]
            &&& forall|i: int| 4 <= i < image.len() ==> #[trigger] s.image[i] == image[i]
            &&& s.file_size == image.len() % 0x1_0000_0000
            &&& s.file_offset == 4
            &&& s.sync_offset == 0
            &&& s.tail == start_id
            &&& s.head == start_id
            &&& !s.closed
            &&& !s.deleted
            &&& s.offsets.len() == 0
        }),
        ({
            let s = SegmentView::mapped(image, start_id);
            &&& s.image == image
            &&& s.file_size == image.len() % 0x1_0000_0000
            &&& s.file_offset == 0
            &&& s.sync_offset == 0
            &&& s.tail == start_id
            &&& s.head == start_id
            &&& !s.closed
            &&& !s.deleted
            &&& s.offsets.len() == 0
        }),
{
    let s = SegmentView::created(image, start_id);
    assert(s.image.subrange(0, 4) =~= seq![0x11u8, 0x13u8, 0x03u8, 0xF1u8]);
}

/// A segment has room for a message if and only if the header and the body fit
/// between its last message and the end of its file, whatever their length.
pub proof fn law_room_is_what_is_left(s: SegmentView, len: int)
    ensures
        s.fits(len) <==> 20 + len <= s.file_size - s.file_offset,
{
}

/// A push writes the message behind the last one, with the next id, and changes
/// no other byte of the file.
pub proof fn law_pushed_segment(s: SegmentView, timestamp: u32, body: Seq<u8>)
    requires
        20 + body.len() <= s.file_size - s.file_offset,
        s.file_size <= s.image.len(),
        s.head < u64::MAX,
    ensures
        ({
            let t = s.pushed(timestamp, body);
            let at = s.file_offset as int;
            let end = at + 20 + body.len();
            &&& t.file_offset == end
            &&& t.head == s.head + 1
            &&& t.offsets == s.offsets.push(s.file_offset)
            &&& t.tail == s.tail
            &&& t.file_size == s.file_size
            &&& t.sync_offset == s.sync_offset
            &&& t.closed == s.closed
            &&& t.deleted == s.deleted
            &&& t.image.len() == s.image.len()
            &&& forall|i: int|
                0 <= i < s.image.len() && !(at <= i < end) ==> #[trigger] t.image[i] == s.image[i]
            &&& number(t.image, at, 4) == xxh64(0, t.image.subrange(at + 4, end)) % 0x1_0000_0000
            &&& number(t.image, at + 4, 8) == s.head
            &&& number(t.image, at + 12, 4) == timestamp
            &&& number(t.image, at + 16, 4) == body.len()
            &&& t.image.subrange(at + 20, end) == body
        }),
{
    let t = s.pushed(timestamp, body);
    let at = s.file_offset as int;
    let m = MessageView { id: s.head, timestamp, body };
    lemma_stored_len(m);
    assert(t.image.subrange(at, at + m.size()) =~= m.stored());
    lemma_stored_round_trip(t.image, at, m);
    law_message_layout(t.image, at);
    law_hash_covers_whole_message(t.image, at);
}

/// A full sync covers all messages, a partial one all but the last mebibyte. What
/// has been synced stays so. If the sync moves on, it asks for all bytes up to
/// where it moves, and otherwise for none; nothing but the sync offset changes.
pub proof fn law_sync_asks_for_what_it_counts(s: SegmentView, full: bool)
    ensures
        ({
            let t = s.synced(full);
            let target = if full {
                s.file_offset as int
            } else {
                s.file_offset - 1048576
            };
            &&& t == (SegmentView { sync_offset: t.sync_offset, ..s })
            &&& t.sync_offset >= s.sync_offset
            &&& t.sync_offset >= target
            &&& t.sync_offset == s.sync_offset || t.sync_offset == target
            &&& t.sync_offset > s.sync_offset ==> s.sync_len(full) == Some(t.sync_offset)
            &&& t.sync_offset == s.sync_offset ==> s.sync_len(full) is None
        }),
{
}

/// What a checkpoint says of a segment.
pub proof fn law_description_of_segment(s: SegmentView)
    ensures
        s.checkpoint().tail == s.tail,
        s.checkpoint().head == s.head,
        s.checkpoint().sync_offset == s.sync_offset,
        s.checkpoint().closed == s.closed,
{
}

/// The messages of a segment are what its file holds at its offsets, in their
/// order, and the one with a given id is found by its distance from the tail.
pub proof fn law_messages_of_segment(s: SegmentView, i: int)
    requires
        0 <= i < s.offsets.len(),
    ensures
        s.messages().len() == s.offsets.len(),
        s.message(s.tail + i) == s.messages()[i],
        s.messages()[i].id == number(s.image, s.offsets[i] + 4, 8),
        s.messages()[i].timestamp == number(s.image, s.offsets[i] + 12, 4),
        s.messages()[i].body == s.image.subrange(
            s.offsets[i] + 20,
            s.offsets[i] + 20 + number(s.image, s.offsets[i] + 16, 4),
        ),
{
    law_message_layout(s.image, s.offsets[i] as int);
}

/// A well-formed segment holds what its numbers say: its messages follow one
/// another from the fifth byte to the file offset, have the ids from its tail to
/// its head, and are undamaged.
pub proof fn law_well_formed_segment(s: SegmentView)
    requires
        s.wf(),
    ensures
        s.file_size == s.image.len() % 0x1_0000_0000,
        4 <= s.file_offset <= s.file_size,
        s.sync_offset <= s.file_offset,
        s.head == s.tail + s.offsets.len(),
        number(s.image, 0, 4) == 0xF1031311,
        s.offsets.len() == 0 ==> s.file_offset == 4,
        s.offsets.len() > 0 ==> s.offsets[0] == 4,
        forall|i: int|
            0 <= i < s.offsets.len() ==> {
                let at = #[trigger] s.offsets[i] as int;
                let end = at + 20 + number(s.image, at + 16, 4);
                &&& end == if i + 1 < s.offsets.len() {
                    s.offsets[i + 1] as int
                } else {
                    s.file_offset as int
                }
                &&& number(s.image, at + 4, 8) == s.tail + i
                &&& number(s.image, at, 4) == xxh64(0, s.image.subrange(at + 4, end))
                    % 0x1_0000_0000
            },
{
    law_integers_are_little_endian(s.image, 0);
    assert(s.bound(0) == 4);
    assert forall|i: int| 0 <= i < s.offsets.len() implies {
        let at = #[trigger] s.offsets[i] as int;
        let end = at + 20 + number(s.image, at + 16, 4);
        &&& end == if i + 1 < s.offsets.len() {
            s.offsets[i + 1] as int
        } else {
            s.file_offset as int
        }
        &&& number(s.image, at + 4, 8) == s.tail + i
        &&& number(s.image, at, 4) == xxh64(0, s.image.subrange(at + 4, end)) % 0x1_0000_0000
    } by {
        assert(s.holds(i));
        law_message_layout(s.image, s.offsets[i] as int);
        law_hash_covers_whole_message(s.image, s.offsets[i] as int);
    }
}

/// A damaged message is found only by chance: if the bytes of message number `k`
/// behind its hash have changed, and those in front of the message and the hash
/// have not, the message is found only if the digests over all its bytes, as
/// they were and as they are, have the same low half.
pub proof fn law_damaged_message_needs_same_digest(
    s: SegmentView,
    image: Seq<u8>,
    checkpoint: SegmentCheckpoint,
    k: int,
)
    requires
        s.wf(),
        image.len() == s.image.len(),
        checkpoint.tail == s.tail,
        0 <= k < s.offsets.len(),
        same_range(s.image, image, 4, s.offsets[k] + 4),
        SegmentView::opened(image, checkpoint).offsets.len() > k,
    ensures
        ({
            let at = s.offsets[k] as int;
            xxh64(0, s.image.subrange(at + 4, at + 20 + number(s.image, at + 16, 4)))
                % 0x1_0000_0000 == xxh64(
                0,
                image.subrange(at + 4, at + 20 + number(image, at + 16, 4)),
            ) % 0x1_0000_0000
        }),
{
    let at = s.offsets[k] as int;
    assert(4 <= at && intact_at(s.image, at)) by {
        assert(s.holds(k));
    }
    lemma_undamaged_offset(s, image, checkpoint, k);
    lemma_opened_is_intact(image, checkpoint, k);
    law_change_needs_same_digest(s.image, image, at);
}

/// A message that is found is intact in the file as it was handed in.
proof fn lemma_opened_is_intact(image: Seq<u8>, checkpoint: SegmentCheckpoint, k: int)
    requires
        image.len() > 4,
        0 <= k < SegmentView::opened(image, checkpoint).offsets.len(),
        SegmentView::opened(image, checkpoint).offsets[k] >= 4,
    ensures
        intact_at(image, SegmentView::opened(image, checkpoint).offsets[k] as int),
{
    let o = SegmentView::opened(image, checkpoint);
    let at = o.offsets[k] as int;
    let end = at + 20 + number(o.image, at + 16, 4);
    law_opened_segment(image, checkpoint);
    law_integers_are_little_endian(o.image, at + 16);
    lemma_same_number(o.image, image, at, 4);
    lemma_same_number(o.image, image, at + 16, 4);
    assert(o.image.subrange(at + 4, end) =~= image.subrange(at + 4, end));
    law_hash_covers_whole_message(image, at);
}

/// A message starts where it did if the bytes in front of it are as they were.
proof fn lemma_undamaged_offset(
    s: SegmentView,
    image: Seq<u8>,
    checkpoint: SegmentCheckpoint,
    k: int,
)
    requires
        s.wf(),
        image.len() == s.image.len(),
        checkpoint.tail == s.tail,
        0 <= k < s.offsets.len(),
        same_range(s.image, image, 4, s.offsets[k] as int),
        SegmentView::opened(image, checkpoint).offsets.len() > k,
    ensures
        SegmentView::opened(image, checkpoint).offsets[k] == s.offsets[k],
{
    let o = SegmentView::opened(image, checkpoint);
    assert(s.holds(k));
    if k == 0 {
        law_opened_segment(image, checkpoint);
        assert(s.bound(0) == 4);
    } else {
        let before = s.offsets[k - 1] as int;
        assert(s.holds(k - 1));
        assert(o.offsets[k - 1] == before) by {
            law_undamaged_messages_are_found(s, image, checkpoint, k);
            assert(o.offsets.take(k)[k - 1] == s.offsets.take(k)[k - 1]);
        }
        assert(o.offsets[k] == before + 20 + number(o.image, before + 16, 4) && same_range(
            image,
            o.image,
            4,
            image.len() as int,
        )) by {
            law_opened_segment(image, checkpoint);
            assert(o.offsets[k - 1] == before);
        }
        law_message_layout(s.image, before);
        law_integers_are_little_endian(s.image, before + 16);
        assert(same_range(s.image, o.image, before + 16, before + 20)) by {
            assert forall|i: int| before + 16 <= i < before + 20 implies #[trigger] s.image[i]
                == o.image[i] by {
                assert(s.image[i] == image[i]);
                assert(image[i] == o.image[i]);
            }
        }
        lemma_same_number(s.image, o.image, before + 16, 4);
    }
}

} // verus!
