use queue_backend::{
    QueueBackend, QueueBackendError, QueueBackendResult, SegmentCheckpoint, SegmentFile,
    SyncRequest,
};
use std::io;
use std::slice::IterMut;

const SEGMENT_SIZE: usize = 4 * 1024 * 1024;

fn gen_message() -> &'static [u8] {
    return b"333333333333333333333333333333333333333333333333333333333333333333333333333333333333333333333333";
}

fn blank_files(count: usize, size: usize) -> Vec<Vec<u8>> {
    (0..count).map(|_| vec![0u8; size]).collect()
}

fn push<'a>(
    backend: &mut QueueBackend<'a>,
    spare: &mut IterMut<'a, Vec<u8>>,
    body: &[u8],
    timestamp: u32,
) -> QueueBackendResult<u64> {
    match backend.push(body, timestamp) {
        Err(QueueBackendError::SegmentFull) => {
            let file: &'a mut [u8] = spare.next().expect("no file left");
            backend.push_to_new_segment(Ok(file), body, timestamp)
        }
        result => result,
    }
}

fn not_found() -> QueueBackendError {
    QueueBackendError::from(io::Error::from(io::ErrorKind::NotFound))
}

fn get_backend_recover<'a>(
    files: &'a mut [Vec<u8>],
    missing: &[usize],
    checkpoints: &[SegmentCheckpoint],
) -> QueueBackend<'a> {
    let found: Vec<SegmentFile<'a>> = files
        .iter_mut()
        .zip(checkpoints)
        .enumerate()
        .map(|(i, (file, checkpoint))| SegmentFile {
            checkpoint: *checkpoint,
            contents: if missing.contains(&i) {
                Err(not_found())
            } else {
                Ok(file)
            },
        })
        .collect();
    QueueBackend::new(Some(found))
}

/// Reads the queue from the first id on: how many messages there are, how
/// often ids are skipped, and the id behind the last message.
fn read_all(backend: &QueueBackend) -> (u64, u64, u64) {
    let mut num_reads = 0;
    let mut id = 1;
    let mut holes = 0;
    while let Some(message) = backend.get(id) {
        num_reads += 1;
        if message.id() != id {
            holes += 1
        }
        id = message.id() + 1;
    }
    (num_reads, holes, id)
}

#[test]
fn test_corrupt_files() {
    let mut files = blank_files(3, SEGMENT_SIZE);
    let mut num_writes = 0;
    let checkpoints;
    {
        let mut spare = files.iter_mut();
        let mut backend = QueueBackend::new(None);
        while backend.segments_count() < 3 {
            push(&mut backend, &mut spare, gen_message(), 0).unwrap();
            num_writes += 1;
        }
        checkpoints = backend.checkpoint(true).0.segments;
        assert_eq!(backend.segments()[0].file_size() as usize, SEGMENT_SIZE);
    }

    // zero second half of first file
    files[0][SEGMENT_SIZE / 2..].fill(0);
    // nuke the second
    files[1].fill(0);
    {
        let backend = get_backend_recover(&mut files, &[], &checkpoints);
        let (num_reads, holes, id) = read_all(&backend);
        assert_eq!(id, backend.head());
        assert_eq!(num_reads, num_writes / 4 + 1);
        assert_eq!(holes, 1);
    }

    // truncate the third
    files[2].clear();
    let mut backend = get_backend_recover(&mut files, &[], &checkpoints);
    let (num_reads, holes, id) = read_all(&backend);
    assert_eq!(id, backend.segments()[0].head());
    assert_eq!(num_reads, num_writes / 4);
    assert_eq!(holes, 0);

    // the second file, which was nuked, is the last one now
    let prev_reads = num_reads;
    backend.push(gen_message(), 0).unwrap();
    backend.push(gen_message(), 0).unwrap();

    let (num_reads, holes, id) = read_all(&backend);
    assert_eq!(id, backend.head());
    assert_eq!(num_reads, prev_reads + 2);
    assert_eq!(holes, 1);
}

#[test]
fn test_missing_file() {
    let mut files = blank_files(3, SEGMENT_SIZE);
    let mut num_writes = 0;
    let checkpoints;
    {
        let mut spare = files.iter_mut();
        let mut backend = QueueBackend::new(None);
        while backend.segments_count() < 3 {
            push(&mut backend, &mut spare, gen_message(), 0).unwrap();
            num_writes += 1;
        }
        checkpoints = backend.checkpoint(true).0.segments;
    }

    let mut missing = Vec::new();
    for segment_num in 0..3 {
        missing.push(segment_num);
        let backend = get_backend_recover(&mut files, &missing, &checkpoints);
        let (num_reads, holes, id) = read_all(&backend);
        assert_eq!(id, backend.head());
        match segment_num {
            0 => {
                assert_eq!(num_reads, (num_writes - 1) / 2 + 1);
                assert_eq!(holes, 1);
            }
            1 => {
                assert_eq!(num_reads, 1);
                assert_eq!(holes, 1);
            }
            2 => {
                assert_eq!(num_reads, 0);
                assert_eq!(holes, 0);
            }
            _ => unreachable!(),
        }
    }
}

#[test]
fn new_queue_is_empty() {
    let mut backend = QueueBackend::new(None);
    assert_eq!(backend.head(), 1);
    assert_eq!(backend.tail(), 1);
    assert_eq!(backend.segments_count(), 0);
    assert!(backend.get(0).is_none());
    assert!(backend.get(1).is_none());
    assert!(matches!(
        backend.push(b"x", 0),
        Err(QueueBackendError::SegmentFull)
    ));
    assert_eq!(backend.segments_count(), 0);
}

#[test]
fn pushed_messages_are_read_back() {
    let mut files = blank_files(2, 64);
    let mut spare = files.iter_mut();
    let mut backend = QueueBackend::new(None);
    assert_eq!(push(&mut backend, &mut spare, b"one", 10).unwrap(), 1);
    assert_eq!(push(&mut backend, &mut spare, b"", 20).unwrap(), 2);
    assert_eq!(push(&mut backend, &mut spare, b"three", 30).unwrap(), 3);
    assert_eq!(backend.head(), 4);
    assert_eq!(backend.tail(), 1);
    assert_eq!(backend.segments_count(), 2);
    let found: Vec<(u64, u32, Vec<u8>, u32)> = (1..4)
        .map(|id| {
            let m = backend.get(id).unwrap();
            (m.id(), m.timestamp(), m.body().to_vec(), m.fd_offset())
        })
        .collect();
    assert_eq!(
        found,
        vec![
            (1, 10, b"one".to_vec(), 4),
            (2, 20, b"".to_vec(), 27),
            (3, 30, b"three".to_vec(), 4),
        ]
    );
    let message = backend.get(1).unwrap();
    let start = message.fd_offset() as usize + 20;
    assert_eq!(&message.mapped()[start..start + 3], b"one");
    assert!(backend.segments()[0].closed());
    assert!(!backend.segments()[1].closed());
    // an id in front of the first one gives the first one
    assert_eq!(backend.get(0).unwrap().id(), 1);
    assert!(backend.get(4).is_none());
}

#[test]
fn reads_skip_to_the_next_message() {
    let mut files = blank_files(3, 44);
    let checkpoints;
    {
        let mut spare = files.iter_mut();
        let mut backend = QueueBackend::new(None);
        for _ in 0..3 {
            push(&mut backend, &mut spare, b"0123456789", 0).unwrap();
        }
        assert_eq!(backend.segments_count(), 3);
        checkpoints = backend.checkpoint(true).0.segments;
    }
    let backend = get_backend_recover(&mut files, &[1], &checkpoints);
    assert_eq!(backend.segments_count(), 2);
    assert_eq!(backend.get(1).unwrap().id(), 1);
    assert_eq!(backend.get(2).unwrap().id(), 3);
    assert_eq!(backend.get(3).unwrap().id(), 3);
    assert!(backend.get(4).is_none());
}

#[test]
fn failure_to_create_a_file_is_handed_on() {
    let mut backend = QueueBackend::new(None);
    assert!(matches!(
        backend.push(b"x", 0),
        Err(QueueBackendError::SegmentFull)
    ));
    let result = backend.push_to_new_segment(Err(not_found()), b"x", 0);
    match result {
        Err(QueueBackendError::Io(error)) => assert_eq!(error.kind(), io::ErrorKind::NotFound),
        _ => panic!("no error"),
    }
    assert_eq!(backend.segments_count(), 0);
    assert_eq!(backend.head(), 1);

    let mut tiny = [0u8; 4];
    assert!(matches!(
        backend.push_to_new_segment(Ok(&mut tiny), b"x", 0),
        Err(QueueBackendError::SegmentFileInvalid)
    ));
    assert_eq!(backend.segments_count(), 0);
}

#[test]
fn message_that_fits_nowhere_is_refused() {
    let mut files = blank_files(3, 64);
    let mut spare = files.iter_mut();
    let mut backend = QueueBackend::new(None);
    push(&mut backend, &mut spare, b"a", 0).unwrap();
    let long = vec![7u8; 41];
    assert!(matches!(
        push(&mut backend, &mut spare, &long, 0),
        Err(QueueBackendError::SegmentFull)
    ));
    assert_eq!(backend.segments_count(), 2);
    assert_eq!(backend.head(), 2);
    assert!(backend.segments()[0].closed());
    assert!(backend.segments()[1].closed());
    // the new segment is there, though closed, and takes the next message
    assert_eq!(push(&mut backend, &mut spare, b"b", 0).unwrap(), 2);
    assert_eq!(backend.segments_count(), 2);
    assert_eq!(backend.get(2).unwrap().body(), b"b");
    assert_eq!(read_all(&backend), (2, 0, 3));
}

#[test]
fn gc_removes_closed_segments_below_the_tail() {
    let mut files = blank_files(3, 70);
    let mut spare = files.iter_mut();
    let mut backend = QueueBackend::new(None);
    for _ in 0..6 {
        push(&mut backend, &mut spare, b"0123456789", 0).unwrap();
    }
    // ids 1 and 2, 3 and 4, 5 and 6
    assert_eq!(backend.segments_count(), 3);
    assert_eq!(backend.gc(2).len(), 0);
    assert_eq!(backend.tail(), 1);
    let collected = backend.gc(4);
    assert_eq!(collected.len(), 1);
    assert_eq!((collected[0].tail(), collected[0].head()), (1, 3));
    for segment in collected {
        assert!(segment.release().1);
    }
    assert_eq!(backend.tail(), 3);
    assert_eq!(backend.segments_count(), 2);
    assert_eq!(backend.get(1).unwrap().id(), 3);
    assert_eq!(backend.get(4).unwrap().id(), 4);
    // the last segment is open and stays
    assert_eq!(backend.gc(100).len(), 1);
    assert_eq!(backend.tail(), 5);
    assert_eq!(backend.head(), 7);
    assert_eq!(backend.segments_count(), 1);
}

#[test]
fn purged_queue_can_be_collected() {
    let mut files = blank_files(3, 70);
    let mut spare = files.iter_mut();
    let mut backend = QueueBackend::new(None);
    for _ in 0..3 {
        push(&mut backend, &mut spare, b"0123456789", 0).unwrap();
    }
    backend.purge();
    assert_eq!(backend.tail(), 4);
    assert_eq!(backend.head(), 4);
    // until then the messages can be read
    assert_eq!(read_all(&backend), (3, 0, 4));
    // no segment starts at the tail or behind it
    let (checkpoint, requests) = backend.checkpoint(true);
    assert_eq!(checkpoint.segments, vec![]);
    assert_eq!(requests, vec![]);
    assert_eq!(backend.gc(backend.tail()).len(), 2);
    assert_eq!(backend.segments_count(), 0);
    assert_eq!(push(&mut backend, &mut spare, b"next", 0).unwrap(), 4);
    assert_eq!(backend.segments()[0].tail(), 4);
}

#[test]
fn deleted_queue_hands_out_its_segments() {
    let mut files = blank_files(2, 70);
    let mut spare = files.iter_mut();
    let mut backend = QueueBackend::new(None);
    for _ in 0..3 {
        push(&mut backend, &mut spare, b"0123456789", 0).unwrap();
    }
    let deleted = backend.delete();
    assert_eq!(deleted.len(), 2);
    for segment in deleted {
        assert!(segment.release().1);
    }
    assert_eq!(backend.segments_count(), 0);
    assert_eq!(backend.head(), 4);
    assert!(backend.get(1).is_none());
}

#[test]
fn checkpoint_describes_the_segments() {
    let mut files = blank_files(2, 70);
    let mut spare = files.iter_mut();
    let mut backend = QueueBackend::new(None);
    for _ in 0..3 {
        push(&mut backend, &mut spare, b"0123456789", 0).unwrap();
    }
    // less than the lag has been written: nothing is due yet
    let (checkpoint, requests) = backend.checkpoint(false);
    assert_eq!(requests, vec![]);
    assert_eq!(checkpoint.segments[0].sync_offset, 0);

    let (checkpoint, requests) = backend.checkpoint(true);
    let first = SegmentCheckpoint { tail: 1, head: 3, sync_offset: 64, closed: true };
    let second = SegmentCheckpoint { tail: 3, head: 4, sync_offset: 34, closed: false };
    assert_eq!(checkpoint.segments, vec![first, second]);
    assert_eq!(
        requests,
        vec![SyncRequest { segment: 0, len: 64 }, SyncRequest { segment: 1, len: 34 }]
    );
    // all of it has been synced
    assert_eq!(backend.checkpoint(true).1, vec![]);
    assert_eq!(read_all(&backend), (3, 0, 4));
}

#[test]
fn queue_is_found_again_by_its_checkpoint() {
    let mut files = blank_files(3, 70);
    let checkpoints;
    {
        let mut spare = files.iter_mut();
        let mut backend = QueueBackend::new(None);
        for i in 0..5u8 {
            push(&mut backend, &mut spare, &[i; 10], i as u32).unwrap();
        }
        checkpoints = backend.checkpoint(false).0.segments;
    }
    let mut backend = get_backend_recover(&mut files, &[], &checkpoints);
    assert_eq!(backend.head(), 6);
    assert_eq!(backend.tail(), 1);
    assert_eq!(backend.segments_count(), 3);
    for i in 0..5u8 {
        let message = backend.get(i as u64 + 1).unwrap();
        assert_eq!(message.id(), i as u64 + 1);
        assert_eq!(message.timestamp(), i as u32);
        assert_eq!(message.body(), &[i; 10]);
    }
    let open: Vec<bool> = backend.segments().iter().map(|s| !s.closed()).collect();
    assert_eq!(open, vec![false, false, true]);
    assert_eq!(backend.push(b"0123456789", 9).unwrap(), 6);
}

#[test]
fn message_at_the_very_end_of_a_file_is_not_found_again() {
    let mut files = blank_files(2, 64);
    let checkpoints;
    {
        let mut spare = files.iter_mut();
        let mut backend = QueueBackend::new(None);
        for _ in 0..3 {
            push(&mut backend, &mut spare, b"0123456789", 0).unwrap();
        }
        assert_eq!(backend.segments_count(), 2);
        checkpoints = backend.checkpoint(true).0.segments;
    }
    let backend = get_backend_recover(&mut files, &[], &checkpoints);
    assert_eq!(backend.segments()[0].head(), 2);
    assert_eq!(backend.get(2).unwrap().id(), 3);
}

#[test]
fn open_segment_closes_the_one_in_front_of_it() {
    let mut files = blank_files(2, 70);
    let checkpoints = [
        SegmentCheckpoint { tail: 5, head: 5, sync_offset: 0, closed: false },
        SegmentCheckpoint { tail: 9, head: 9, sync_offset: 0, closed: false },
    ];
    let backend = get_backend_recover(&mut files, &[], &checkpoints);
    assert_eq!(backend.tail(), 5);
    assert_eq!(backend.head(), 9);
    assert!(backend.segments()[0].closed());
    assert!(!backend.segments()[1].closed());
    assert!(backend.get(1).is_none());
}

#[test]
fn queue_without_readable_files_starts_anew() {
    let mut files = blank_files(2, 70);
    let checkpoint = SegmentCheckpoint { tail: 5, head: 8, sync_offset: 0, closed: true };
    let backend = get_backend_recover(&mut files, &[0, 1], &[checkpoint, checkpoint]);
    assert_eq!(backend.segments_count(), 0);
    assert_eq!(backend.head(), 1);
    assert_eq!(backend.tail(), 1);
}

#[test]
fn only_the_last_segment_found_is_open() {
    let flags = |closed: &[bool]| -> Vec<bool> {
        let mut files = blank_files(closed.len(), 70);
        let checkpoints: Vec<SegmentCheckpoint> = closed
            .iter()
            .zip(1..)
            .map(|(&closed, tail)| SegmentCheckpoint { tail, head: tail, sync_offset: 0, closed })
            .collect();
        let backend = get_backend_recover(&mut files, &[], &checkpoints);
        backend.segments().iter().map(|segment| segment.closed()).collect()
    };
    assert_eq!(flags(&[false, true]), vec![true, true]);
    assert_eq!(flags(&[false, true, false]), vec![true, true, false]);
    assert_eq!(flags(&[false, false, true, false, true]), vec![true; 5]);
    assert_eq!(flags(&[true]), vec![true]);
    assert_eq!(flags(&[false]), vec![false]);
}

/// Everything that a read of each id up to `last` gives.
fn reads(backend: &QueueBackend, last: u64) -> Vec<Option<(u64, u32, Vec<u8>, u32)>> {
    (0..=last)
        .map(|id| {
            let message = backend.get(id)?;
            Some((
                message.id(),
                message.timestamp(),
                message.body().to_vec(),
                message.fd_offset(),
            ))
        })
        .collect()
}

#[test]
fn refused_pushes_use_no_id_and_change_no_read() {
    let mut files = blank_files(6, 70);
    let mut spare = files.iter_mut();
    let mut backend = QueueBackend::new(None);
    let long = vec![7u8; 47];
    let mut ids = Vec::new();
    for round in 0..3 {
        ids.push(push(&mut backend, &mut spare, b"0123456789", round).unwrap());
        let before = reads(&backend, 5);
        // no room in the last segment, and no new file
        assert!(matches!(
            backend.push(&long, 0),
            Err(QueueBackendError::SegmentFull)
        ));
        assert!(backend.push_to_new_segment(Err(not_found()), &long, 0).is_err());
        assert_eq!(reads(&backend, 5), before);
        // no room in a new segment, either
        assert!(push(&mut backend, &mut spare, &long, 0).is_err());
        assert_eq!(reads(&backend, 5), before);
        assert_eq!(backend.head(), round as u64 + 2);
    }
    assert_eq!(ids, vec![1, 2, 3]);
    assert_eq!(backend.segments_count(), 4);
}

#[test]
fn segments_stay_chained() {
    let mut files = blank_files(12, 70);
    let mut spare = files.iter_mut();
    let mut backend = QueueBackend::new(None);
    for step in 0..14u32 {
        push(&mut backend, &mut spare, b"0123456789", step).unwrap();
        match step {
            4 => assert_eq!(backend.gc(4).len(), 1),
            6 => assert!(push(&mut backend, &mut spare, &[0; 60], 0).is_err()),
            8 => backend.purge(),
            9 => assert_eq!(backend.gc(backend.tail()).len(), 4),
            10 => drop(backend.checkpoint(true)),
            11 => drop(backend.delete()),
            _ => (),
        }
        let segments = backend.segments();
        for pair in segments.windows(2) {
            assert_eq!(pair[0].head(), pair[1].tail());
            assert!(pair[0].closed());
        }
        for segment in segments {
            assert!(segment.tail() <= segment.head());
        }
        if let Some(last) = segments.last() {
            assert_eq!(last.head(), backend.head());
        }
        assert_eq!(backend.head(), step as u64 + 2);
    }
}

#[test]
fn message_is_read_back_until_its_segment_is_removed() {
    let mut files = blank_files(4, 70);
    let mut spare = files.iter_mut();
    let mut backend = QueueBackend::new(None);
    for i in 0..3u8 {
        push(&mut backend, &mut spare, &[i; 10], i as u32).unwrap();
    }
    let expected = Some((3, 2, vec![2u8; 10], 4));
    assert_eq!(reads(&backend, 3)[3], expected);
    assert!(push(&mut backend, &mut spare, &[0; 60], 0).is_err());
    assert_eq!(reads(&backend, 3)[3], expected);
    push(&mut backend, &mut spare, b"x", 0).unwrap();
    assert_eq!(reads(&backend, 3)[3], expected);
    backend.checkpoint(true);
    backend.purge();
    assert_eq!(reads(&backend, 3)[3], expected);
    assert_eq!(backend.gc(3).len(), 1);
    assert_eq!(reads(&backend, 3)[3], expected);
    assert_eq!(backend.gc(4).len(), 1);
    assert_eq!(backend.get(3).unwrap().id(), 4);
}

#[test]
fn reopened_queue_gives_the_same_reads() {
    let mut files = blank_files(5, 90);
    let checkpoints;
    let before;
    {
        let mut spare = files.iter_mut();
        let mut backend = QueueBackend::new(None);
        for i in 0..6u8 {
            push(&mut backend, &mut spare, &vec![i; 5 * i as usize], i as u32).unwrap();
            backend.checkpoint(false);
        }
        assert!(push(&mut backend, &mut spare, &[0; 70], 0).is_err());
        before = (backend.head(), backend.tail(), backend.segments_count(), reads(&backend, 8));
        checkpoints = backend.checkpoint(true).0.segments;
    }
    let backend = get_backend_recover(&mut files, &[], &checkpoints);
    let after = (backend.head(), backend.tail(), backend.segments_count(), reads(&backend, 8));
    assert_eq!(after, before);
    assert_eq!(after.0, 7);
    assert_eq!(after.1, 1);
}

#[test]
fn too_small_files_keep_their_bytes() {
    let mut files = vec![vec![1u8, 2, 3], vec![0u8; 70], vec![4u8; 4]];
    let checkpoint = SegmentCheckpoint { tail: 5, head: 5, sync_offset: 0, closed: false };
    {
        let backend = get_backend_recover(&mut files, &[], &[checkpoint; 3]);
        assert_eq!(backend.segments_count(), 1);
    }
    assert_eq!(files[0], vec![1, 2, 3]);
    assert_eq!(files[2], vec![4; 4]);
}

#[test]
fn damaged_queue_is_read_on() {
    // files of three messages each, of which every one takes thirty bytes
    let mut files = blank_files(4, 100);
    let checkpoints;
    {
        let mut spare = files.iter_mut();
        let mut backend = QueueBackend::new(None);
        for i in 0..12u8 {
            push(&mut backend, &mut spare, &[i; 10], i as u32).unwrap();
        }
        assert_eq!(backend.segments_count(), 4);
        checkpoints = backend.checkpoint(true).0.segments;
    }
    // the second message of the first file, all of the second, and the length
    // of the third; the fourth keeps two messages
    files[0][40] ^= 1;
    files[1].fill(0);
    files[2].truncate(4);
    files[3][70] ^= 1;
    let backend = get_backend_recover(&mut files, &[], &checkpoints);
    assert_eq!(backend.segments_count(), 3);
    assert_eq!((backend.tail(), backend.head()), (1, 12));
    let left: Vec<(u64, Vec<u8>, u32)> = reads(&backend, 12)
        .into_iter()
        .flatten()
        .map(|(id, _, body, at)| (id, body, at))
        .collect();
    let mut expected = vec![(1, vec![0u8; 10], 4); 2];
    expected.extend(vec![(10, vec![9u8; 10], 4); 9]);
    expected.push((11, vec![10u8; 10], 34));
    assert_eq!(left, expected);
    let ends: Vec<(u64, u64)> =
        backend.segments().iter().map(|segment| (segment.tail(), segment.head())).collect();
    assert_eq!(ends, vec![(1, 2), (4, 4), (10, 12)]);
}

#[test]
fn queue_can_be_opened_any_number_of_times() {
    let mut files = blank_files(6, 100);
    let mut checkpoints: Vec<SegmentCheckpoint> = Vec::new();
    for round in 0..4u64 {
        let count = checkpoints.len();
        let (old, new) = files.split_at_mut(count);
        let mut spare = new.iter_mut();
        let mut backend = get_backend_recover(old, &[], &checkpoints);
        assert_eq!(backend.head(), 4 * round + 1);
        assert_eq!(backend.tail(), 1);
        for id in 1..backend.head() {
            assert_eq!(backend.get(id).unwrap().id(), id);
            assert_eq!(backend.get(id).unwrap().body(), &[id as u8; 10]);
        }
        for id in backend.head()..backend.head() + 4 {
            assert_eq!(push(&mut backend, &mut spare, &[id as u8; 10], 0).unwrap(), id);
        }
        checkpoints = backend.checkpoint(true).0.segments;
    }
    assert_eq!(checkpoints.len(), 6);
}
