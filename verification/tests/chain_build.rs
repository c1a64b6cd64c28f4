use s3_archiving::assemble_chain::{
    build_central_directory, build_one_link, crc_of_answer, link_key, meta_of, piece_id,
    segment_crc_ids, segment_key, segment_step, stitch_copies, stitch_part_number, CrcStore,
    LinkPart,
};
use s3_archiving::byte_range::ByteRange;
use s3_archiving::plan::{FileId, SourceFile, PART_FLOOR};
use s3_archiving::plan_chain::{
    plan_segment_chain, ChainPlan, Link, Piece, PlanError, Segment,
};
use s3_archiving::rate_limit::{AcquireStep, Priority, RateLimiter};
use s3_archiving::retry::{
    Attempts, ChainError, GOVERNED_DOUBLINGS, MAX_ATTEMPTS, PLAIN_DOUBLINGS,
};
use s3_archiving::zip_format::{central_dir_entry, end_records, local_header, EntryMeta};

fn file(id: u32, name: &str, size: u64) -> SourceFile {
    SourceFile {
        id: FileId(id),
        key: format!("files/{name}"),
        name: name.to_string(),
        size,
    }
}

fn small_plan() -> ChainPlan {
    plan_segment_chain(vec![
        file(0, "big0", PART_FLOOR + 10),
        file(1, "big1", PART_FLOOR + 5),
        file(2, "small", 100),
    ])
    .unwrap()
}

fn all_crcs(plan: &ChainPlan) -> CrcStore {
    let mut crcs = CrcStore::new();
    for id in &plan.order {
        crcs.put(*id, id.0 + 1);
    }
    crcs
}

fn copy_of(part: &LinkPart) -> (&str, Option<ByteRange>) {
    match part {
        LinkPart::Copy { source, range } => (source.as_str(), *range),
        LinkPart::Upload { .. } => panic!("not a copy"),
    }
}

#[test]
fn crc_store_keeps_what_is_put() {
    let mut crcs = CrcStore::new();
    assert_eq!(crcs.get(FileId(3)), None);
    assert!(crcs.has_all(&vec![]));
    crcs.put(FileId(3), 7);
    assert_eq!(crcs.get(FileId(3)), Some(7));
    assert!(crcs.has_all(&vec![FileId(3)]));
    assert!(!crcs.has_all(&vec![FileId(3), FileId(4)]));
}

#[test]
fn segment_waits_for_its_own_checksums() {
    assert_eq!(piece_id(&Piece::Header(FileId(4))), FileId(4));
    assert_eq!(piece_id(&Piece::Body(FileId(5))), FileId(5));
    let seg = Segment {
        anchor: FileId(9),
        index: 1,
        links: vec![
            Link::AnchorThenAppend { anchor: FileId(9), piece: Piece::Header(FileId(4)) },
            Link::ForwardThenAppend { piece: Piece::Body(FileId(4)) },
            Link::ForwardThenAppend { piece: Piece::Header(FileId(2)) },
        ],
        object_len: 0,
    };
    assert_eq!(
        segment_crc_ids(&seg),
        vec![FileId(2), FileId(4), FileId(9)]
    );
}

#[test]
fn keys_of_segments_and_links() {
    assert_eq!(
        segment_key("archives/a.zip", 42),
        "seg-temps/archives/a.zip/00000042"
    );
    assert_eq!(segment_key("a", 123_456_789), "seg-temps/a/123456789");
    assert_eq!(link_key("k", 0, 3), "k.l0");
    assert_eq!(link_key("k", 1, 3), "k.l1");
    assert_eq!(link_key("k", 2, 3), "k");
    assert_eq!(stitch_part_number(0), 1);
}

#[test]
fn segments_are_stitched_in_place() {
    let plan = small_plan();
    let copies = stitch_copies(&plan, "bucket", "a.zip");
    let seen: Vec<(u32, &str)> = copies
        .iter()
        .map(|c| (c.part_number, c.source.as_str()))
        .collect();
    assert_eq!(
        seen,
        vec![
            (1, "bucket/seg-temps/a.zip/00000000"),
            (2, "bucket/seg-temps/a.zip/00000001"),
        ]
    );
    assert!(copies.iter().all(|c| c.range.is_none()));
}

#[test]
fn missing_checksum_is_named() {
    let plan = small_plan();
    let crcs = CrcStore::new();
    let e = &plan.entries[&0];
    let missing = meta_of(e, &crcs).err().unwrap();
    assert_eq!(missing.message(), "missing or undecodable CRC for object big0");
    assert!(build_central_directory(&plan, &crcs).is_err());
    assert_eq!(
        crc_of_answer(FileId(7), None).err().unwrap().message(),
        "missing or undecodable CRC for object FileId(7)"
    );
    assert_eq!(
        crc_of_answer(FileId(7), Some("AAAA".to_string())).err().unwrap().message(),
        "missing or undecodable CRC for object FileId(7)"
    );
    assert_eq!(crc_of_answer(FileId(7), Some("AQIDBA==".to_string())).ok(), Some(0x0102_0304));
}

#[test]
fn chain_directory_is_as_planned() {
    let plan = small_plan();
    let crcs = all_crcs(&plan);
    let bytes = build_central_directory(&plan, &crcs).unwrap();
    let mut expected = Vec::new();
    for id in &plan.order {
        let e = &plan.entries[&id.0];
        expected.extend_from_slice(&central_dir_entry(&EntryMeta {
            name: e.name.clone(),
            size: e.size,
            crc: id.0 + 1,
            local_header_offset: e.local_header_offset,
        }));
    }
    assert_eq!(expected.len() as u64, plan.cd_size);
    expected.extend_from_slice(&end_records(3, plan.cd_offset, plan.cd_size));
    assert_eq!(bytes, expected);
    assert_eq!(plan.cd_offset + bytes.len() as u64, plan.archive_len());
}

#[test]
fn links_of_a_chain_follow_each_other() {
    let plan = small_plan();
    let crcs = all_crcs(&plan);
    let seg = &plan.segments[0];
    assert_eq!(seg.links.len(), 4);
    let key = segment_key("a.zip", 0);
    let first = segment_step(&plan.entries, &crcs, "b", "files", seg, &key, 0).unwrap();
    assert_eq!(first.out_key, "seg-temps/a.zip/00000000.l0");
    match &first.parts[0] {
        LinkPart::Upload { bytes, then } => {
            let e = &plan.entries[&0];
            let header = local_header(&EntryMeta {
                name: e.name.clone(),
                size: e.size,
                crc: 1,
                local_header_offset: 0,
            });
            assert_eq!(bytes, &header);
            let fetch = then.as_ref().unwrap();
            assert_eq!(fetch.key, "files/big0");
            let taken = PART_FLOOR - header.len() as u64;
            assert_eq!(fetch.range, Some(ByteRange { first: 0, last: taken - 1 }));
            assert_eq!(
                copy_of(&first.parts[1]),
                (
                    "b/files/big0",
                    Some(ByteRange { first: taken, last: PART_FLOOR + 9 })
                )
            );
        }
        LinkPart::Copy { .. } => panic!("the first part is uploaded"),
    }
    let second = segment_step(&plan.entries, &crcs, "b", "files", seg, &key, 1).unwrap();
    assert_eq!(second.out_key, "seg-temps/a.zip/00000000.l1");
    assert_eq!(
        copy_of(&second.parts[0]),
        ("b/seg-temps/a.zip/00000000.l0", None)
    );
    let third = segment_step(&plan.entries, &crcs, "b", "files", seg, &key, 2).unwrap();
    assert_eq!(
        copy_of(&third.parts[0]),
        ("b/seg-temps/a.zip/00000000.l1", None)
    );
    assert_eq!(copy_of(&third.parts[1]), ("b/files/small", None));
    let last = segment_step(&plan.entries, &crcs, "b", "files", seg, &key, 3).unwrap();
    assert_eq!(last.out_key, key);
    let lone = segment_step(&plan.entries, &crcs, "b", "files", &plan.segments[1], "k", 0).unwrap();
    assert_eq!(lone.parts.len(), 1);
    assert_eq!(copy_of(&lone.parts[0]), ("b/files/big1", None));
}

#[test]
fn header_pieces_need_their_checksum() {
    let plan = small_plan();
    let link = Link::AnchorThenAppend { anchor: FileId(0), piece: Piece::Header(FileId(2)) };
    let failed = build_one_link(&plan.entries, &CrcStore::new(), "b", "f", &link, None);
    assert_eq!(
        failed.err().unwrap().message(),
        "missing or undecodable CRC for object small"
    );
    let link = Link::AnchorThenAppend { anchor: FileId(0), piece: Piece::Body(FileId(2)) };
    let built = build_one_link(&plan.entries, &CrcStore::new(), "b", "f", &link, None).unwrap();
    assert_eq!(copy_of(&built[1]), ("b/f/small", None));
}

#[test]
fn plan_without_bigs_in_words() {
    assert_eq!(
        PlanError::NoBigs { smalls: 12 }.message(),
        "no big (>=5 MiB) object to anchor segments; 12 smalls cannot be placed"
    );
}

#[test]
fn errors_that_may_pass() {
    let s3 = |words: &str| ChainError::S3(words.to_string());
    for words in [
        "SlowDown",
        "ThrottlingException",
        "ServiceUnavailable",
        "503 Service Unavailable",
        "RequestTimeout",
        "InternalError",
        "code (500)",
        "code (503)",
    ] {
        assert!(s3(words).is_retryable(), "{words}");
    }
    assert!(!s3("NoSuchKey").is_retryable());
    assert!(ChainError::ByteStream("eof".to_string()).is_retryable());
    assert!(!ChainError::ByteStream("eof".to_string()).is_throttle());
    assert!(!ChainError::NoUploadId.is_retryable());
    assert!(!ChainError::BadCrc("SlowDown".to_string()).is_retryable());
    assert!(!ChainError::BadCrc("SlowDown".to_string()).is_throttle());
    assert!(s3("SlowDown").is_throttle());
    assert!(s3("Throttled").is_throttle());
    assert!(s3("(503)").is_throttle());
    assert!(!s3("InternalError").is_throttle());
    assert_eq!(s3("x").message(), "s3 error: x");
    assert_eq!(
        ChainError::NoUploadId.message(),
        "missing upload id from create_multipart_upload"
    );
    assert_eq!(
        ChainError::NoEtag("upload_part".to_string()).message(),
        "missing etag from upload_part"
    );
    assert_eq!(ChainError::ByteStream("x".to_string()).message(), "bytestream: x");
}

#[test]
fn waits_double_up_to_a_limit() {
    let mut plain = Attempts::new();
    let mut waits = Vec::new();
    while let Some(ms) = plain.after_failure(true, PLAIN_DOUBLINGS, 0) {
        waits.push(ms);
    }
    assert_eq!(
        waits,
        vec![100, 200, 400, 800, 1600, 3200, 3200, 3200, 3200]
    );
    assert_eq!(plain.failures, MAX_ATTEMPTS);
    let mut governed = Attempts::new();
    let mut last = 0;
    while let Some(ms) = governed.after_failure(true, GOVERNED_DOUBLINGS, 199) {
        last = ms;
    }
    assert_eq!(last, 12_899);
    assert_eq!(Attempts::new().after_failure(false, PLAIN_DOUBLINGS, 0), None);
}

#[test]
fn governor_spends_its_burst() {
    let mut limiter = RateLimiter::default();
    assert_eq!(limiter, RateLimiter::new());
    for _ in 0..4 {
        assert!(limiter.try_take(0));
    }
    assert!(!limiter.try_take(0));
    // 1800 calls a second are 1.8 in a millisecond.
    assert!(limiter.try_take(1));
    assert!(!limiter.try_take(1));
    assert_eq!(limiter.tokens_milli, 800);
    assert_eq!(limiter.stats().acquires, 5);
}

#[test]
fn wave_of_throttles_steps_down_once() {
    let mut limiter = RateLimiter::new();
    limiter.on_throttle(50);
    assert_eq!(limiter.stats().rate, 1800);
    limiter.on_throttle(100);
    limiter.on_throttle(150);
    limiter.on_throttle(199);
    assert_eq!(limiter.stats().rate, 1700);
    limiter.on_throttle(200);
    let stats = limiter.stats();
    assert_eq!((stats.rate, stats.min_rate), (1600, 1600));
    assert_eq!((stats.throttles, stats.down_steps), (5, 2));
    assert_eq!(limiter.tokens_milli, 4000);
}

#[test]
fn rate_recovers_when_it_is_quiet() {
    let mut limiter = RateLimiter::new();
    limiter.on_throttle(400);
    assert_eq!(limiter.stats().rate, 1700);
    limiter.refill(899);
    assert_eq!(limiter.stats().rate, 1700);
    limiter.refill(900);
    assert_eq!(limiter.stats().rate, 1850);
    limiter.refill(1399);
    assert_eq!(limiter.stats().rate, 1850);
    for i in 0..20 {
        limiter.refill(1400 + 500 * i);
    }
    assert_eq!(limiter.stats().rate, 3200);
    assert_eq!(limiter.stats().up_steps, 10);
}

#[test]
fn rate_has_a_floor() {
    let mut limiter = RateLimiter::new();
    for i in 1..40 {
        limiter.on_throttle(100 * i);
    }
    assert_eq!(limiter.stats().rate, 200);
    assert_eq!(limiter.stats().min_rate, 200);
}

#[test]
fn low_priority_yields_to_high() {
    let mut limiter = RateLimiter::new();
    limiter.begin_acquire(Priority::High);
    limiter.begin_acquire(Priority::Low);
    assert_eq!(limiter.acquire_step(Priority::Low, 0), AcquireStep::Yield);
    assert_eq!(
        limiter.acquire_step(Priority::High, 0),
        AcquireStep::Granted { wake: true }
    );
    assert_eq!(
        limiter.acquire_step(Priority::Low, 0),
        AcquireStep::Granted { wake: false }
    );
    while limiter.try_take(0) {}
    assert_eq!(limiter.acquire_step(Priority::Low, 0), AcquireStep::Retry);
    limiter.note_retry();
    assert_eq!(limiter.stats().retries, 1);
}
