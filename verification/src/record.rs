//! The layout of a segment file.
//!
//! A file starts with a magic number of four bytes. Behind it the messages
//! follow one another without gaps. Each message is a header of twenty bytes
//! (hash, id, timestamp and length of the body, all little-endian) and the
//! body. The hash covers everything in the message behind the hash itself.
use crate::bytes::{
    le32, le32_bytes, le64, le64_bytes, lemma_le32_round_trip, lemma_le64_round_trip, overwrite,
    read_u32, read_u64, same_range, write_bytes, write_u32, write_u64,
};
use std::hash::Hasher;
use twox_hash::XxHash;
use vstd::prelude::*;

verus! {

/// The number at the start of every segment file.
pub const MAGIC_NUM: u32 = 0xF1031311;

/// The size of the magic number, and so the offset of the first message.
pub const MAGIC_SIZE: u32 = 4;

/// The size of a message header.
pub const HEADER_SIZE: u32 = 20;

/// What a message consists of: its number in the queue, the time at which it
/// was pushed, and its contents.
#[verifier::ext_equal]
pub struct MessageView {
    pub id: u64,
    pub timestamp: u32,
    pub body: Seq<u8>,
}

/// The header in front of a message body.
#[derive(Debug, Clone, Copy, PartialEq, Eq, Structural)]
pub struct MessageHeader {
    pub hash: u32,
    pub id: u64,
    pub timestamp: u32,
    pub len: u32,
}

/// The 64 bit xxHash of `bytes` under `seed`.
pub uninterp spec fn xxh64(seed: u64, bytes: Seq<u8>) -> u64;

/// The hash that a message header carries: the low half of the xxHash, under
/// seed zero, of the message without its hash.
pub open spec fn payload_hash(payload: Seq<u8>) -> u32 {
    (xxh64(0, payload) % 0x1_0000_0000) as u32
}

impl MessageView {
    /// The number of bytes that the message takes in a file.
    pub open spec fn size(self) -> int {
        HEADER_SIZE + self.body.len()
    }

    /// The message as it is stored, without its hash.
    pub open spec fn payload(self) -> Seq<u8> {
        le64_bytes(self.id) + le32_bytes(self.timestamp) + le32_bytes(self.body.len() as u32)
            + self.body
    }

    /// The message as it is stored.
    #[verifier::opaque]
    pub open spec fn stored(self) -> Seq<u8> {
        le32_bytes(payload_hash(self.payload())) + self.payload()
    }
}

/// The header stored at `at`.
#[verifier::opaque]
pub open spec fn header_at(s: Seq<u8>, at: int) -> MessageHeader {
    MessageHeader {
        hash: le32(s, at) as u32,
        id: le64(s, at + 4) as u64,
        timestamp: le32(s, at + 12) as u32,
        len: le32(s, at + 16) as u32,
    }
}

/// Where the message stored at `at` ends, going by its header.
pub open spec fn end_at(s: Seq<u8>, at: int) -> int {
    at + HEADER_SIZE + header_at(s, at).len
}

/// The message stored at `at`.
pub open spec fn message_at(s: Seq<u8>, at: int) -> MessageView {
    MessageView {
        id: header_at(s, at).id,
        timestamp: header_at(s, at).timestamp,
        body: s.subrange(at + HEADER_SIZE, end_at(s, at)),
    }
}

/// The message stored at `at` has the hash that its header gives.
pub open spec fn intact_at(s: Seq<u8>, at: int) -> bool {
    header_at(s, at).hash == payload_hash(s.subrange(at + 4, end_at(s, at)))
}

/// The end of the message numbered `id` at `at`, in a file of `size` bytes, or
/// `None` if the file holds no such message there. The message has to end
/// before the last byte of the file. The largest number is never taken: there
/// would be none left for the message behind it.
pub open spec fn next_in_file(s: Seq<u8>, size: int, at: int, id: int) -> Option<int> {
    if id < u64::MAX && at + HEADER_SIZE < size && header_at(s, at).id == id && end_at(s, at) < size
        && intact_at(s, at) {
        Some(end_at(s, at))
    } else {
        None
    }
}

/// The offsets of the messages numbered `id`, `id + 1` and so on that a file
/// of `size` bytes holds one behind the other from `at` on.
pub open spec fn scan(s: Seq<u8>, size: int, at: int, id: int) -> Seq<u32>
    decreases size - at,
{
    match next_in_file(s, size, at, id) {
        Some(end) => seq![at as u32] + scan(s, size, end, id + 1),
        None => Seq::empty(),
    }
}

/// The offset behind the last of the messages that `scan` finds.
pub open spec fn scan_end(s: Seq<u8>, size: int, at: int, id: int) -> int
    decreases size - at,
{
    match next_in_file(s, size, at, id) {
        Some(end) => scan_end(s, size, end, id + 1),
        None => at,
    }
}

/// A stored message is as long as its size says.
pub proof fn lemma_stored_len(m: MessageView)
    ensures
        m.stored().len() == m.size(),
{
    reveal(MessageView::stored);
}

/// Reading a stored message gives the message back.
pub proof fn lemma_stored_round_trip(s: Seq<u8>, at: int, m: MessageView)
    requires
        0 <= at,
        at + m.size() <= s.len(),
        m.body.len() <= u32::MAX,
        s.subrange(at, at + m.size()) == m.stored(),
    ensures
        message_at(s, at) == m,
        end_at(s, at) == at + m.size(),
        intact_at(s, at),
{
    reveal(header_at);
    reveal(MessageView::stored);
    let r = s.subrange(at, at + m.size());
    let len = m.body.len() as u32;
    let hash = payload_hash(m.payload());
    assert(s.subrange(at, at + 4) =~= le32_bytes(hash)) by {
        assert(s.subrange(at, at + 4) =~= r.subrange(0, 4));
        assert(r.subrange(0, 4) =~= le32_bytes(hash));
    }
    assert(s.subrange(at + 4, at + 12) =~= le64_bytes(m.id)) by {
        assert(s.subrange(at + 4, at + 12) =~= r.subrange(4, 12));
        assert(r.subrange(4, 12) =~= le64_bytes(m.id));
    }
    assert(s.subrange(at + 12, at + 16) =~= le32_bytes(m.timestamp)) by {
        assert(s.subrange(at + 12, at + 16) =~= r.subrange(12, 16));
        assert(r.subrange(12, 16) =~= le32_bytes(m.timestamp));
    }
    assert(s.subrange(at + 16, at + 20) =~= le32_bytes(len)) by {
        assert(s.subrange(at + 16, at + 20) =~= r.subrange(16, 20));
        assert(r.subrange(16, 20) =~= le32_bytes(len));
    }
    lemma_le32_round_trip(s, at, hash);
    lemma_le64_round_trip(s, at + 4, m.id);
    lemma_le32_round_trip(s, at + 12, m.timestamp);
    lemma_le32_round_trip(s, at + 16, len);
    assert(s.subrange(at + 20, at + m.size()) =~= m.body) by {
        assert(s.subrange(at + 20, at + m.size()) =~= r.subrange(20, m.size()));
        assert(r.subrange(20, m.size()) =~= m.body);
    }
    assert(s.subrange(at + 4, at + m.size()) =~= m.payload()) by {
        assert(s.subrange(at + 4, at + m.size()) =~= r.subrange(4, m.size()));
        assert(r.subrange(4, m.size()) =~= m.payload());
    }
}

/// What is stored at an offset depends on the bytes from there to the end of
/// the message alone.
pub proof fn lemma_same_message(a: Seq<u8>, b: Seq<u8>, at: int)
    requires
        0 <= at,
        end_at(a, at) <= a.len(),
        end_at(a, at) <= b.len(),
        same_range(a, b, at, end_at(a, at)),
    ensures
        header_at(a, at) == header_at(b, at),
        end_at(a, at) == end_at(b, at),
        message_at(a, at) == message_at(b, at),
        intact_at(a, at) == intact_at(b, at),
{
    assert(header_at(a, at) == header_at(b, at)) by {
        reveal(header_at);
    }
    assert(a.subrange(at + 20, end_at(a, at)) =~= b.subrange(at + 20, end_at(a, at)));
    assert(a.subrange(at + 4, end_at(a, at)) =~= b.subrange(at + 4, end_at(a, at)));
}

/// Hashes `bytes` under `seed` with `twox_hash::XxHash`.
///
/// Trusted: `XxHash::with_seed` starts a hash, `write` feeds it all of
/// `bytes`, and `finish` returns a digest that depends on the seed and the
/// bytes alone (the words of the input are taken as little-endian on every
/// machine). The digest is called `xxh64`; nothing more is claimed of it.
#[verifier::external_body]
fn xx_hash(seed: u64, bytes: &[u8]) -> (digest: u64)
    ensures
        digest == xxh64(seed, bytes@),
{
    let mut hasher = XxHash::with_seed(seed);
    hasher.write(bytes);
    hasher.finish()
}

/// The half of a digest that a message header keeps.
pub fn truncate_digest(digest: u64) -> (hash: u32)
    ensures
        hash == digest % 0x1_0000_0000,
{
    assert(digest & 0xFFFF_FFFF == digest % 0x1_0000_0000) by (bit_vector);
    (digest & 0xFFFF_FFFF) as u32
}

/// The hash of a stored message, given from its header on. The first four
/// bytes are the place of the hash and do not count.
pub fn hash_segment_message(message: &[u8]) -> (hash: u32)
    requires
        message@.len() >= HEADER_SIZE,
    ensures
        hash == payload_hash(message@.subrange(4, message@.len() as int)),
        hash == xxh64(0, message@.subrange(4, message@.len() as int)) % 0x1_0000_0000,
{
    truncate_digest(xx_hash(0, &message[4..message.len()]))
}

impl MessageHeader {
    /// Reads the header at `at`.
    pub fn read(mem: &[u8], at: usize) -> (header: MessageHeader)
        requires
            at + HEADER_SIZE <= mem@.len(),
        ensures
            header == header_at(mem@, at as int),
    {
        reveal(header_at);
        assert(at + HEADER_SIZE <= mem.len());
        MessageHeader {
            hash: read_u32(mem, at),
            id: read_u64(mem, at + 4),
            timestamp: read_u32(mem, at + 12),
            len: read_u32(mem, at + 16),
        }
    }

    /// The end of the message if this is the header, at `offset`, of the
    /// message numbered `id` and if that message ends before the last byte of
    /// a file of `file_size` bytes.
    pub fn end_in_file(&self, file_size: u32, offset: u32, id: u64) -> (end: Option<u32>)
        ensures
            end == (if self.id == id && offset + HEADER_SIZE + self.len < file_size {
                Some((offset + HEADER_SIZE + self.len) as u32)
            } else {
                None
            }),
    {
        if self.id != id {
            return None;
        }
        let end: u64 = offset as u64 + HEADER_SIZE as u64 + self.len as u64;
        if end < file_size as u64 {
            Some(end as u32)
        } else {
            None
        }
    }
}

/// The end of the message numbered `id` at `at`, or `None` if there is no such
/// message, or not a whole one, or one whose hash is wrong, or if there is no
/// number behind `id`.
pub fn next_message(mem: &[u8], size: u32, at: u32, id: u64) -> (end: Option<u32>)
    requires
        size <= mem@.len(),
    ensures
        match next_in_file(mem@, size as int, at as int, id as int) {
            Some(e) => end == Some(e as u32) && e < size,
            None => end is None,
        },
{
    if id == u64::MAX || at as u64 + HEADER_SIZE as u64 >= size as u64 {
        return None;
    }
    assert(size <= mem.len());
    let header = MessageHeader::read(mem, at as usize);
    match header.end_in_file(size, at, id) {
        Some(end) => {
            let message = &mem[at as usize..end as usize];
            assert(message@.subrange(4, message@.len() as int) =~= mem@.subrange(
                at + 4,
                end as int,
            ));
            if header.hash == hash_segment_message(message) {
                Some(end)
            } else {
                None
            }
        },
        None => None,
    }
}

/// Stores a message at `at`; the bytes around it keep their values.
pub fn write_message(mem: &mut [u8], at: usize, id: u64, timestamp: u32, body: &[u8])
    requires
        at + HEADER_SIZE + body@.len() <= old(mem)@.len(),
        body@.len() <= u32::MAX,
    ensures
        final(mem)@ == overwrite(
            old(mem)@,
            at as int,
            (MessageView { id, timestamp, body: body@ }).stored(),
        ),
{
    let ghost m = MessageView { id, timestamp, body: body@ };
    assert(at + HEADER_SIZE + body.len() <= mem.len());
    let end: usize = at + HEADER_SIZE as usize + body.len();
    write_u64(mem, at + 4, id);
    write_u32(mem, at + 12, timestamp);
    write_u32(mem, at + 16, body.len() as u32);
    write_bytes(mem, at + 20, body);
    assert(mem@.subrange(at as int, end as int).subrange(4, end - at) =~= m.payload());
    let hash: u32 = hash_segment_message(&mem[at..end]);
    write_u32(mem, at, hash);
    reveal(MessageView::stored);
    assert(mem@ =~= overwrite(old(mem)@, at as int, m.stored()));
}

} // verus!
