use s3_archiving::archive_stream::{
    all_parts, download_size, opened_upload, slab_part_number, start_failed, taken_part,
    upload_outcome, write_failed, DownloadSize, BUFFER_CHUNKS_COUNT, CHUNK_SIZE_BYTES,
    MAX_CONCURRENT_DOWNLOADS, MAX_CONCURRENT_UPLOADS, MAX_DOWNLOADS_MEMORY,
};
use s3_archiving::lambda_executor::{
    batches_for_workers, distribute, response_payload, ExecutorAction, ExecutorState,
    LambdaExecutorCommand,
};
use s3_archiving::multipart::UploadedPart;
use s3_archiving::slabs_ring::{
    Reader, Received, Slab, SlabLease, SlabRing, SlabState, WriteError, Writer,
};

fn lease_of(reader: &mut Reader, ring: &mut SlabRing) -> SlabLease {
    match reader.recv(ring) {
        Received::Lease(lease) => lease,
        other => panic!("no slab is ready: {other:?}"),
    }
}

#[test]
fn slab_states() {
    let mut slab = Slab::new(SlabState::Free);
    assert_eq!(slab.state(), SlabState::Free);
    slab.set_state(SlabState::Filling);
    assert_eq!(slab.swap_state(SlabState::Ready), SlabState::Filling);
    assert_eq!(slab.state(), SlabState::Ready);
}

#[test]
fn ring_starts_with_one_slab_filling() {
    let (ring, writer, _reader) = SlabRing::create(4, 3);
    assert_eq!(ring.buf.len(), 12);
    let states: Vec<SlabState> = ring.slabs.iter().map(|s| s.state()).collect();
    assert_eq!(states, vec![SlabState::Filling, SlabState::Free, SlabState::Free]);
    assert_eq!(writer.slab_idx, 0);
    assert_eq!(ring.slab_start(2), 8);
    assert!(!ring.is_zero_space());
}

#[test]
fn ring_gives_back_what_was_written() {
    let (mut ring, mut writer, mut reader) = SlabRing::new(4, 3);
    assert!(matches!(reader.recv(&mut ring), Received::Wait));
    assert_eq!(writer.write(&mut ring, b"abcdef"), Ok(6));
    assert_eq!(writer.write(&mut ring, b"ghij"), Ok(4));
    let first = lease_of(&mut reader, &mut ring);
    assert_eq!(first.as_slice(&ring), b"abcd");
    assert_eq!(first.into_vec(&mut ring), b"abcd");
    let second = lease_of(&mut reader, &mut ring);
    assert_eq!(second.into_vec(&mut ring), b"efgh");
    assert!(matches!(reader.recv(&mut ring), Received::Wait));
    writer.flush(&mut ring);
    let last = lease_of(&mut reader, &mut ring);
    assert_eq!(last.into_vec(&mut ring), b"ij");
    writer.close(&mut ring);
    assert!(matches!(reader.recv(&mut ring), Received::Closed));
}

#[test]
fn full_ring_makes_the_writer_wait() {
    let (mut ring, mut writer, mut reader) = SlabRing::create(2, 2);
    assert_eq!(writer.write(&mut ring, b"abcdefg"), Ok(4));
    assert!(writer.waiting);
    assert_eq!(writer.write(&mut ring, b"efg"), Ok(0));
    let lease = lease_of(&mut reader, &mut ring);
    assert_eq!(lease.into_vec(&mut ring), b"ab");
    assert_eq!(writer.write(&mut ring, b"efg"), Ok(2));
    assert_eq!(lease_of(&mut reader, &mut ring).into_vec(&mut ring), b"cd");
    assert_eq!(writer.write(&mut ring, b"g"), Ok(1));
    writer.flush(&mut ring);
    assert_eq!(lease_of(&mut reader, &mut ring).into_vec(&mut ring), b"ef");
    assert_eq!(lease_of(&mut reader, &mut ring).into_vec(&mut ring), b"g");
}

#[test]
fn leased_slab_is_not_written_over() {
    let (mut ring, mut writer, mut reader) = SlabRing::create(2, 3);
    assert_eq!(writer.write(&mut ring, b"abc"), Ok(3));
    let lease = lease_of(&mut reader, &mut ring);
    assert_eq!(writer.write(&mut ring, b"defghi"), Ok(3));
    assert_eq!(lease.as_slice(&ring), b"ab");
    lease.release(&mut ring);
    assert_eq!(writer.write(&mut ring, b"ghi"), Ok(2));
}

#[test]
fn single_slab_is_never_claimed_again() {
    let (mut ring, mut writer, mut reader) = SlabRing::create(2, 1);
    assert_eq!(writer.write(&mut ring, b"abc"), Ok(2));
    lease_of(&mut reader, &mut ring).release(&mut ring);
    assert_eq!(writer.write(&mut ring, b"c"), Ok(0));
}

#[test]
fn what_is_written_after_a_flush_is_not_handed_over() {
    let (mut ring, mut writer, mut reader) = SlabRing::create(4, 2);
    assert_eq!(writer.write(&mut ring, b"ab"), Ok(2));
    writer.flush(&mut ring);
    assert_eq!(writer.write(&mut ring, b"cdef"), Ok(4));
    assert_eq!(lease_of(&mut reader, &mut ring).into_vec(&mut ring), b"ab");
    assert!(matches!(reader.recv(&mut ring), Received::Wait));
}

#[test]
fn flush_of_nothing_hands_over_nothing() {
    let (mut ring, mut writer, mut reader) = SlabRing::create(4, 2);
    writer.flush(&mut ring);
    assert!(matches!(reader.recv(&mut ring), Received::Wait));
}

#[test]
fn ring_without_bytes_takes_nothing() {
    let (mut ring, _, mut reader) = SlabRing::create(0, 0);
    let mut writer = Writer::default();
    assert!(ring.is_zero_space());
    assert_eq!(writer.write(&mut ring, b"a"), Err(WriteError::ZeroSpace));
    assert_eq!(WriteError::ZeroSpace.message(), "This SlabRing buffer has 0 space");
    writer.flush(&mut ring);
    assert!(matches!(reader.recv(&mut ring), Received::Wait));
}

#[test]
fn stream_sizes() {
    assert_eq!(MAX_CONCURRENT_DOWNLOADS, 20);
    assert_eq!(MAX_DOWNLOADS_MEMORY, 100 * 1024 * 1024);
    assert_eq!(MAX_CONCURRENT_UPLOADS, 7);
    assert_eq!(CHUNK_SIZE_BYTES, 10 * 1024 * 1024);
    assert_eq!(BUFFER_CHUNKS_COUNT, 3);
}

#[test]
fn download_needs_a_length() {
    assert_eq!(
        download_size(Some(7)),
        Ok(DownloadSize { bytes: 7, permits: 7 })
    );
    assert_eq!(
        download_size(Some(0x1_0000_0005)),
        Ok(DownloadSize { bytes: 0x1_0000_0005, permits: 5 })
    );
    assert_eq!(
        download_size(None),
        Err("No content_length in GetObject response".to_string())
    );
}

#[test]
fn upload_answers() {
    assert_eq!(opened_upload(Some("u".to_string())), Ok("u".to_string()));
    assert_eq!(
        opened_upload(None),
        Err("No upload ID in multipart upload response".to_string())
    );
    let part = taken_part(3, Some("tag".to_string())).unwrap();
    assert_eq!((part.part_number, part.e_tag.as_str()), (3, "tag"));
    assert_eq!(
        taken_part(3, None).err(),
        Some("No ETag in upload part response".to_string())
    );
    assert_eq!(slab_part_number(0), 1);
    assert_eq!(slab_part_number(6), 7);
}

#[test]
fn first_failed_part_fails_the_upload() {
    let part = |n: i32| UploadedPart { part_number: n, e_tag: format!("t{n}") };
    let all = all_parts(vec![Ok(part(2)), Ok(part(1))]).unwrap();
    let numbers: Vec<i32> = all.iter().map(|p| p.part_number).collect();
    assert_eq!(numbers, vec![2, 1]);
    let failed = all_parts(vec![Ok(part(1)), Err("x".to_string()), Err("y".to_string())]);
    assert_eq!(failed.err(), Some("x".to_string()));
    assert!(upload_outcome(Ok(Ok(vec![part(1)]))).is_ok());
    assert_eq!(
        upload_outcome(Ok(Err("x".to_string()))).err(),
        Some("Upload job failed: x".to_string())
    );
    assert_eq!(
        upload_outcome(Err("x".to_string())).err(),
        Some("Upload job panicked: x".to_string())
    );
}

#[test]
fn entry_failures_in_words() {
    assert_eq!(start_failed("a", "full"), "Failed to start ZIP file a: full");
    assert_eq!(write_failed("a", "full"), "Failed to write ZIP file a: full");
}

#[test]
fn jobs_are_dealt_from_the_back() {
    let batches = distribute(vec![5, 4, 3, 2, 1], 2, 10);
    assert_eq!(batches, vec![vec![1, 3, 5], vec![2, 4]]);
}

#[test]
fn full_batches_begin_a_new_round() {
    let jobs: Vec<u32> = (0..7).collect();
    let batches = distribute(jobs, 2, 2);
    assert_eq!(
        batches,
        vec![vec![6, 4], vec![5, 3], vec![2, 0], vec![1]]
    );
}

#[test]
fn exactly_full_rounds_are_followed_by_an_empty_one() {
    let batches = distribute(vec![1, 2, 3, 4], 2, 2);
    assert_eq!(batches, vec![vec![4, 2], vec![3, 1], vec![], vec![]]);
}

#[test]
fn batches_take_one_job_at_least() {
    let batches = distribute(vec![1, 2], 1, 0);
    assert_eq!(batches, vec![vec![2], vec![1], vec![]]);
}

#[test]
fn no_jobs_make_one_empty_round() {
    let batches = distribute(Vec::<u8>::new(), 3, 5);
    assert_eq!(batches, vec![Vec::<u8>::new(), vec![], vec![]]);
}

#[test]
fn batches_go_round_the_workers() {
    let sent = batches_for_workers((0..7).collect::<Vec<u32>>(), 2, 2);
    let workers: Vec<usize> = sent.iter().map(|b| b.worker).collect();
    assert_eq!(workers, vec![0, 1, 0, 1]);
    assert_eq!(sent[3].jobs, vec![1]);
}

#[test]
fn executor_wants_the_upload_first() {
    let mut state: ExecutorState<u8> = ExecutorState::NoUpload;
    let jobs = LambdaExecutorCommand::DelegatedPartJobs(vec![1, 2]);
    let early = state.on_command(Some(jobs), 1, 4);
    assert_eq!(
        early.err().map(|e| e.message()),
        Some("The first LambdaExecutorCommand must be MultipartUpload".to_string())
    );
    let closed = state.on_command(None::<LambdaExecutorCommand<u8, u32>>, 1, 4);
    assert_eq!(
        closed.err().map(|e| e.message()),
        Some("The first LambdaExecutorCommand must be MultipartUpload".to_string())
    );
    let upload: LambdaExecutorCommand<u8, u32> = LambdaExecutorCommand::MultipartUpload(9);
    assert!(matches!(
        state.on_command(Some(upload), 1, 4),
        Ok(ExecutorAction::Proceed)
    ));
    assert!(matches!(state, ExecutorState::Running(9)));
    let jobs = LambdaExecutorCommand::DelegatedPartJobs(vec![1, 2]);
    match state.on_command(Some(jobs), 1, 4) {
        Ok(ExecutorAction::Send(sent)) => {
            assert_eq!(sent.len(), 1);
            assert_eq!(sent[0].jobs, vec![2, 1]);
        }
        other => panic!("{other:?}"),
    }
    let again: LambdaExecutorCommand<u8, u32> = LambdaExecutorCommand::MultipartUpload(9);
    assert_eq!(
        state.on_command(Some(again), 1, 4).err().map(|e| e.message()),
        Some("The only the first LambdaExecutorCommand can be MultipartUpload".to_string())
    );
    let end = state.on_command(None::<LambdaExecutorCommand<u8, u32>>, 1, 4);
    assert!(matches!(end, Ok(ExecutorAction::Finish)));
}

#[test]
fn executor_needs_workers_for_jobs_only() {
    let mut state: ExecutorState<u8> = ExecutorState::NoUpload;
    let early = LambdaExecutorCommand::DelegatedPartJobs(vec![1]);
    assert!(state.on_command(Some(early), 0, 4).is_err());
    let upload: LambdaExecutorCommand<u8, u32> = LambdaExecutorCommand::MultipartUpload(9);
    assert!(matches!(
        state.on_command(Some(upload), 0, 4),
        Ok(ExecutorAction::Proceed)
    ));
    let end = state.on_command(None::<LambdaExecutorCommand<u8, u32>>, 0, 4);
    assert!(matches!(end, Ok(ExecutorAction::Finish)));
}

#[test]
fn worker_has_to_answer() {
    assert_eq!(response_payload(Some(vec![1])).ok(), Some(vec![1]));
    assert_eq!(
        response_payload(None).err().map(|e| e.message()),
        Some("Lambda worker did not return a response".to_string())
    );
}
