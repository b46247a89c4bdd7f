use queue_backend::bytes::{read_u32, read_u64, write_bytes, write_u32, write_u64};
use queue_backend::file_name::gen_file_name;
use queue_backend::offset_index::OffsetIndex;
use queue_backend::record::{
    hash_segment_message, next_message, truncate_digest, write_message, MessageHeader,
};
use queue_backend::segment::SYNC_LAG;
use queue_backend::{
    InnerMessage, QueueBackendCheckpoint, QueueBackendError, Segment, SegmentCheckpoint,
};
use std::hash::Hasher;
use twox_hash::XxHash;

const MAGIC: [u8; 4] = [0x11, 0x13, 0x03, 0xF1];

fn checkpoint(tail: u64) -> SegmentCheckpoint {
    SegmentCheckpoint { tail, head: 0, sync_offset: 0, closed: false }
}

#[test]
fn integers_are_little_endian() {
    let mut mem = [0xEEu8; 14];
    write_u32(&mut mem, 1, 0x0403_0201);
    write_u64(&mut mem, 5, 0x0C0B_0A09_0807_0605);
    assert_eq!(mem, [0xEE, 1, 2, 3, 4, 5, 6, 7, 8, 9, 10, 11, 12, 0xEE]);
    assert_eq!(read_u32(&mem, 1), 0x0403_0201);
    assert_eq!(read_u64(&mem, 5), 0x0C0B_0A09_0807_0605);
    write_u64(&mut mem, 5, u64::MAX);
    assert_eq!(read_u64(&mem, 5), u64::MAX);
    write_bytes(&mut mem, 0, &[9, 8]);
    assert_eq!(&mem[..3], &[9, 8, 2]);
}

#[test]
fn digest_is_cut_to_its_low_half() {
    assert_eq!(truncate_digest(0x1234_5678_9abc_def0), 0x9abc_def0);
    assert_eq!(truncate_digest(u64::MAX), u32::MAX);
}

#[test]
fn hash_covers_all_but_the_hash() {
    let payload: Vec<u8> = (0..100).collect();
    let mut message = vec![0u8; 4];
    message.extend(&payload);
    // the digest of these hundred bytes is 6ac1e58032166597
    assert_eq!(hash_segment_message(&message), 0x3216_6597);
    message[..4].fill(0xFF);
    assert_eq!(hash_segment_message(&message), 0x3216_6597);
    message[50] ^= 1;
    assert_ne!(hash_segment_message(&message), 0x3216_6597);
}

#[test]
fn message_is_stored_behind_its_header() {
    let mut mem = [0u8; 30];
    write_message(&mut mem, 2, 0x0102, 0x0304, b"abc");
    let mut payload = vec![2, 1, 0, 0, 0, 0, 0, 0, 4, 3, 0, 0, 3, 0, 0, 0];
    payload.extend(b"abc");
    assert_eq!(&mem[6..25], &payload[..]);
    let mut hasher = XxHash::with_seed(0);
    hasher.write(&payload);
    let hash = hasher.finish() as u32;
    assert_eq!(&mem[2..6], &hash.to_le_bytes());
    assert_eq!(&mem[..2], &[0, 0]);
    assert_eq!(&mem[25..], &[0; 5]);
    assert_eq!(
        MessageHeader::read(&mem, 2),
        MessageHeader { hash, id: 0x0102, timestamp: 0x0304, len: 3 }
    );
    assert_eq!(next_message(&mem, 30, 2, 0x0102), Some(25));
    assert_eq!(next_message(&mem, 26, 2, 0x0102), Some(25));
    // a message has to end before the last byte
    assert_eq!(next_message(&mem, 25, 2, 0x0102), None);
    assert_eq!(next_message(&mem, 30, 2, 0x0103), None);
    mem[24] ^= 1;
    assert_eq!(next_message(&mem, 30, 2, 0x0102), None);
}

#[test]
fn header_with_an_absurd_length_ends_the_messages() {
    let header = MessageHeader { hash: 0, id: 7, timestamp: 0, len: u32::MAX };
    assert_eq!(header.end_in_file(u32::MAX, 4, 7), None);
    let header = MessageHeader { hash: 0, id: 7, timestamp: 0, len: 10 };
    assert_eq!(header.end_in_file(35, 4, 7), Some(34));
    assert_eq!(header.end_in_file(34, 4, 7), None);
    assert_eq!(header.end_in_file(35, 4, 8), None);
}

#[test]
fn index_knows_the_ids_that_were_pushed() {
    let mut index = OffsetIndex::new(5);
    assert_eq!(index.get_offset(5), None);
    index.push_offset(5, 4);
    index.push_offset(6, 40);
    assert_eq!(index.get_offset(4), None);
    assert_eq!(index.get_offset(5), Some(4));
    assert_eq!(index.get_offset(6), Some(40));
    assert_eq!(index.get_offset(7), None);
}

#[test]
fn file_names_have_fifteen_digits() {
    assert_eq!(gen_file_name(0, "data"), "000000000000000.data");
    assert_eq!(gen_file_name(1, "data"), "000000000000001.data");
    assert_eq!(gen_file_name(36158, "x"), "000000000036158.x");
    assert_eq!(gen_file_name(u64::MAX, "data"), "18446744073709551615.data");
    assert_eq!(gen_file_name(42, "data"), format!("{:015}.{}", 42, "data"));
    assert_ne!(gen_file_name(12, "data"), gen_file_name(21, "data"));
}

#[test]
fn created_segment_starts_with_the_magic_number() {
    let mut file = [0u8; 40];
    let segment = Segment::create(&mut file, 3).unwrap();
    assert_eq!((segment.tail(), segment.head()), (3, 3));
    assert_eq!(segment.file_size(), 40);
    assert!(!segment.closed());
    assert_eq!(segment.get(3), Err(()));
    let (mem, deleted) = segment.release();
    assert_eq!(&mem[..4], &MAGIC);
    assert_eq!(&mem[4..], &[0; 36]);
    assert!(!deleted);
}

#[test]
fn too_small_file_is_no_segment() {
    let mut file = [0u8; 4];
    assert!(matches!(
        Segment::create(&mut file, 1),
        Err(QueueBackendError::SegmentFileInvalid)
    ));
    assert!(matches!(
        Segment::open(&mut file, &checkpoint(1)),
        Err(QueueBackendError::SegmentFileInvalid)
    ));
    assert!(matches!(
        Segment::new(&mut file, 1),
        Err(QueueBackendError::SegmentFileInvalid)
    ));
    let mut file = [0u8; 5];
    assert!(Segment::create(&mut file, 1).is_ok());
}

#[test]
fn segment_takes_messages_up_to_its_last_byte() {
    let mut file = [0u8; 4 + 23 + 20];
    let mut segment = Segment::create(&mut file, 1).unwrap();
    assert_eq!(segment.push(b"abc", 5).unwrap(), 1);
    assert!(matches!(segment.push(b"d", 6), Err(QueueBackendError::SegmentFull)));
    assert!(segment.closed());
    assert_eq!(segment.head(), 2);
    assert_eq!(segment.push(b"", 7).unwrap(), 2);
    assert!(matches!(segment.push(b"", 8), Err(QueueBackendError::SegmentFull)));
    assert_eq!(segment.get(1), Ok(InnerMessage { offset: 4 }));
    assert_eq!(segment.get(2), Ok(InnerMessage { offset: 27 }));
    assert_eq!(segment.get(0), Err(()));
    assert_eq!(segment.get(3), Err(()));
    assert_eq!(&segment.mapped()[24..27], b"abc");
}

#[test]
fn opened_segment_has_the_messages_of_the_file() {
    let mut file = vec![0u8; 200];
    {
        let mut segment = Segment::create(&mut file, 7).unwrap();
        for i in 0..3u8 {
            segment.push(&[i; 5], i as u32).unwrap();
        }
    }
    let found = SegmentCheckpoint { tail: 7, head: 7, sync_offset: 0, closed: true };
    let mut segment = Segment::open(&mut file, &found).unwrap();
    assert_eq!((segment.tail(), segment.head()), (7, 10));
    assert!(segment.closed());
    assert_eq!(segment.get(9), Ok(InnerMessage { offset: 54 }));
    // what was found counts as synced
    assert_eq!(segment.sync(true), None);
    assert_eq!(segment.checkpoint(true).0.sync_offset, 79);
    assert_eq!(segment.push(b"more", 0).unwrap(), 10);
    // opened with another id the file holds nothing
    drop(segment);
    let segment = Segment::open(&mut file, &checkpoint(8)).unwrap();
    assert_eq!((segment.tail(), segment.head()), (8, 8));
}

#[test]
fn messages_in_front_of_damage_are_found() {
    let mut blank = vec![0u8; 200];
    let mut segment = Segment::create(&mut blank, 1).unwrap();
    for i in 0..4u8 {
        segment.push(&[i; 5], 0).unwrap();
    }
    let whole = segment.mapped().to_vec();
    // each message takes twenty-five bytes
    for at in 4..104 {
        let mut file = whole.clone();
        file[at] ^= 0x80;
        let segment = Segment::open(&mut file, &checkpoint(1)).unwrap();
        assert_eq!(segment.head() as usize, 1 + (at - 4) / 25);
    }
    // damage to the magic number is repaired
    let mut file = whole.clone();
    file[0] = 0;
    let segment = Segment::open(&mut file, &checkpoint(1)).unwrap();
    assert_eq!(segment.head(), 5);
    assert_eq!(segment.mapped(), &whole[..]);
    // opening again finds the same
    drop(segment);
    let segment = Segment::open(&mut file, &checkpoint(1)).unwrap();
    assert_eq!(segment.head(), 5);
}

#[test]
fn partial_sync_stays_behind() {
    let mut file = vec![0u8; SYNC_LAG as usize + 1000];
    let mut segment = Segment::create(&mut file, 1).unwrap();
    assert_eq!(segment.sync(false), None);
    assert_eq!(segment.sync(true), Some(4));
    let body = vec![1u8; SYNC_LAG as usize];
    segment.push(&body, 0).unwrap();
    assert_eq!(segment.sync(false), Some(24));
    assert_eq!(segment.sync(false), None);
    assert_eq!(
        segment.checkpoint(true),
        (
            SegmentCheckpoint {
                tail: 1,
                head: 2,
                sync_offset: SYNC_LAG + 24,
                closed: false,
            },
            Some(SYNC_LAG + 24)
        )
    );
    // a sync does not go back
    assert_eq!(segment.sync(false), None);
}

#[test]
fn purged_segment_takes_its_file_along() {
    let mut file = [0u8; 40];
    let mut segment = Segment::create(&mut file, 1).unwrap();
    segment.close();
    assert!(segment.closed());
    segment.purge();
    assert!(segment.release().1);
}

#[test]
fn default_checkpoints_are_empty() {
    assert_eq!(SegmentCheckpoint::default(), checkpoint(0));
    assert_eq!(QueueBackendCheckpoint::default().segments, vec![]);
}

#[test]
fn too_small_file_keeps_its_bytes() {
    let mut file = [9u8, 8, 7, 6];
    assert!(Segment::create(&mut file, 1).is_err());
    assert!(Segment::open(&mut file, &checkpoint(1)).is_err());
    assert!(Segment::new(&mut file, 1).is_err());
    assert_eq!(file, [9, 8, 7, 6]);
}

#[test]
fn checkpoint_gives_only_the_first_id_of_a_segment() {
    let mut file = vec![0u8; 100];
    {
        let mut segment = Segment::create(&mut file, 7).unwrap();
        segment.push(b"abc", 1).unwrap();
        segment.push(b"defg", 2).unwrap();
    }
    for (head, sync_offset) in [(0, 0), (7, 4), (9, 51), (u64::MAX, u32::MAX)] {
        let found = SegmentCheckpoint { tail: 7, head, sync_offset, closed: false };
        let segment = Segment::open(&mut file, &found).unwrap();
        assert_eq!((segment.tail(), segment.head()), (7, 9));
        assert_eq!(segment.get(7), Ok(InnerMessage { offset: 4 }));
        assert_eq!(segment.get(8), Ok(InnerMessage { offset: 27 }));
    }
}

#[test]
fn message_with_the_largest_id_is_not_found() {
    let mut file = vec![0u8; 100];
    write_message(&mut file, 4, u64::MAX - 1, 0, b"last");
    write_message(&mut file, 28, u64::MAX, 0, b"none");
    let segment = Segment::open(&mut file, &checkpoint(u64::MAX - 1)).unwrap();
    assert_eq!((segment.tail(), segment.head()), (u64::MAX - 1, u64::MAX));
    drop(segment);
    assert_eq!(next_message(&file, 100, 28, u64::MAX), None);
    let segment = Segment::open(&mut file, &checkpoint(u64::MAX)).unwrap();
    assert_eq!((segment.tail(), segment.head()), (u64::MAX, u64::MAX));
}
