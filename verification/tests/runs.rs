use s3_archiving::part_job::{PartJobType, PartJobsBuilder, UploadPartElement};
use s3_archiving::plan::{plan_single_mpu, FileId, SinglePlan, SingleRouting, SourceFile, PART_FLOOR};
use s3_archiving::plan_chain::{plan_segment_chain, ChainPlan, Link, Piece, PlanError};
use s3_archiving::shared_buffer::SharedBuf;
use s3_archiving::slabs_ring::{Reader, Received, SlabLease, SlabRing};
use s3_archiving::zip_layout::FileInfo;
use s3_archiving::zip_records::CentralDirectoryFileHeader;

fn listing() -> Vec<SourceFile> {
    [
        (3u32, 2 * PART_FLOOR),
        (0, 100),
        (7, PART_FLOOR),
        (1, 3 * PART_FLOOR),
        (5, 2 * PART_FLOOR),
        (2, 100),
        (4, 70_000),
        (6, 1),
        (8, 0),
        (9, 12),
    ]
    .iter()
    .map(|(id, size)| SourceFile {
        id: FileId(*id),
        key: format!("files/f{id}"),
        name: format!("f{id}"),
        size: *size,
    })
    .collect()
}

fn rearranged() -> Vec<SourceFile> {
    let mut files = listing();
    files.reverse();
    files.swap(0, 4);
    files
}

fn single(files: Vec<SourceFile>) -> SinglePlan {
    match plan_single_mpu(files) {
        SingleRouting::SingleMpu(plan) => plan,
        SingleRouting::Fallback => panic!("there are bigs"),
    }
}

#[test]
fn rearranged_listing_has_the_same_single_plan() {
    let p = single(listing());
    let q = single(rearranged());
    assert_eq!(p.order, q.order);
    assert_eq!(format!("{:?}", p.parts), format!("{:?}", q.parts));
    assert_eq!(p.copyable, q.copyable);
    assert_eq!(p.stats, q.stats);
    assert_eq!(p.entries.len(), q.entries.len());
    for (id, entry) in &p.entries {
        assert_eq!(format!("{entry:?}"), format!("{:?}", q.entries[id]));
    }
    let smalls = |files: Vec<SourceFile>| -> Vec<SourceFile> {
        files.into_iter().filter(|f| f.size < PART_FLOOR).collect()
    };
    assert!(matches!(plan_single_mpu(smalls(listing())), SingleRouting::Fallback));
    assert!(matches!(plan_single_mpu(smalls(rearranged())), SingleRouting::Fallback));
}

fn chain(files: Vec<SourceFile>) -> ChainPlan {
    plan_segment_chain(files).expect("there are bigs")
}

#[test]
fn rearranged_listing_has_the_same_chain_plan() {
    let p = chain(listing());
    let q = chain(rearranged());
    assert_eq!(p.order, q.order);
    assert_eq!(format!("{:?}", p.segments), format!("{:?}", q.segments));
    assert_eq!((p.cd_offset, p.cd_size), (q.cd_offset, q.cd_size));
    assert_eq!(p.crc_heads, q.crc_heads);
    assert_eq!(p.stats, q.stats);
    for (id, entry) in &p.entries {
        assert_eq!(format!("{entry:?}"), format!("{:?}", q.entries[id]));
    }
    let few = |files: Vec<SourceFile>| -> Vec<SourceFile> {
        files.into_iter().filter(|f| f.size < PART_FLOOR).collect()
    };
    assert_eq!(
        plan_segment_chain(few(listing())).unwrap_err(),
        PlanError::NoBigs { smalls: 6 }
    );
    assert_eq!(
        plan_segment_chain(few(rearranged())).unwrap_err(),
        PlanError::NoBigs { smalls: 6 }
    );
}

#[test]
fn anchors_are_the_bigs_and_shares_are_even() {
    let plan = chain(rearranged());
    assert_eq!(plan.segment_count(), 4);
    let anchors: Vec<u32> = plan.segments.iter().map(|s| s.anchor.0).collect();
    assert_eq!(anchors, vec![1, 3, 5, 7]);
    let shares: Vec<usize> = plan
        .segments
        .iter()
        .map(|s| {
            s.links
                .iter()
                .filter(|link| {
                    matches!(
                        link,
                        Link::AnchorThenAppend { piece: Piece::Body(_), .. }
                            | Link::ForwardThenAppend { piece: Piece::Body(_) }
                    )
                })
                .count()
        })
        .collect();
    assert_eq!(shares, vec![2, 2, 1, 1]);
}

fn info(name: &str, size: usize) -> FileInfo {
    FileInfo {
        name: name.to_string(),
        bucket_name: "bucket".to_string(),
        key: format!("files/{name}"),
        size,
    }
}

#[test]
fn jobs_end_with_one_directory() {
    let mut builder = PartJobsBuilder::new();
    builder.add_files(vec![info("a", 5), info("b", 6)]);
    builder.copy_file(info("c", 70));
    builder.add_files(vec![]);
    builder.partial_copy_file(info("d", 80), 30);
    let jobs = builder.finalize();
    let numbers: Vec<i32> = jobs.iter().map(|j| j.part_number).collect();
    assert_eq!(numbers, vec![1, 2, 3, 4, 5]);
    for i in 0..jobs.len() {
        if let PartJobType::Copy { .. } = jobs[i].part_job_type {
            assert!(matches!(jobs[i - 1].part_job_type, PartJobType::Upload(_)));
        }
    }
    let mut directories = 0;
    for job in &jobs {
        if let PartJobType::Upload(elements) = &job.part_job_type {
            directories += elements
                .iter()
                .filter(|e| matches!(e, UploadPartElement::CentralDirectory { .. }))
                .count();
        }
    }
    assert_eq!(directories, 1);
    match &jobs[4].part_job_type {
        PartJobType::Upload(elements) => {
            assert!(matches!(elements.last(), Some(UploadPartElement::CentralDirectory { .. })));
        }
        other => panic!("{other:?}"),
    }
    let entries = 4 * 31 + 5 + 6 + 70 + 80;
    let records: usize = 4 * CentralDirectoryFileHeader::predict_size(5, 1, 0);
    let total: usize = jobs.iter().map(|j| j.part_size).sum();
    assert_eq!(total, entries + records + 22);
}

#[test]
fn buffer_holds_what_was_written_last() {
    let mut buf = SharedBuf::with_capacity(10);
    let whole = buf.slice().unwrap();
    let (mut left, right) = whole.split(&mut buf, 4);
    let (mut middle, mut right) = right.split(&mut buf, 3);
    assert_eq!(right.write(b"hijk"), 3);
    assert_eq!(left.write(b"ab"), 2);
    assert_eq!(middle.write(b"efg"), 3);
    assert_eq!(left.write(b"cdxx"), 2);
    buf.release(middle);
    let buf = buf.into_inner().unwrap_err();
    let mut buf = buf;
    buf.release(right);
    buf.release(left);
    let mut again = buf.slice().unwrap();
    assert_eq!(again.write(b"AB"), 2);
    buf.release(again);
    assert_eq!(buf.into_inner().unwrap(), b"ABcdefghij");

    let mut buf = SharedBuf::with_capacity(8);
    let (mut left, mut right) = buf.slice().unwrap().split(&mut buf, 5);
    left.write_at(3, b"yz");
    right.write_at(1, b"q");
    left.write_at(2, b"wx");
    assert_eq!(left.write(b"A"), 1);
    assert_eq!(left.as_slice(), b"A\0wxz");
    buf.release(left);
    let share = buf.share();
    buf.release(right);
    assert!(buf.slice().is_err());
    let mut buf = buf.into_inner().unwrap_err();
    buf.unshare(share);
    assert_eq!(buf.into_inner().unwrap(), b"A\0wxz\0q\0");

    let mut part = SharedBuf::with_capacity(3);
    let slice = part.slice().unwrap();
    part.release(slice);
    assert_eq!(part.into_inner().unwrap(), vec![0, 0, 0]);
}

fn received(reader: &mut Reader, ring: &mut SlabRing) -> Option<SlabLease> {
    match reader.recv(ring) {
        Received::Lease(lease) => Some(lease),
        _ => None,
    }
}

#[test]
fn interleaved_reads_give_what_was_written() {
    for (slab_size, slab_count) in [(1usize, 2usize), (3, 2), (4, 3), (7, 5)] {
        let (mut ring, mut writer, mut reader) = SlabRing::create(slab_size, slab_count);
        let data: Vec<u8> = (0..100).map(|i| i as u8).collect();
        let mut read: Vec<u8> = Vec::new();
        let mut lens: Vec<usize> = Vec::new();
        let mut held: Vec<SlabLease> = Vec::new();
        for chunk in data.chunks(9) {
            let mut pos = 0;
            while pos < chunk.len() {
                pos += writer.write(&mut ring, &chunk[pos..]).unwrap();
                while let Some(lease) = received(&mut reader, &mut ring) {
                    read.extend_from_slice(lease.as_slice(&ring));
                    lens.push(lease.end - lease.start);
                    held.push(lease);
                }
                while let Some(lease) = held.pop() {
                    lease.release(&mut ring);
                }
            }
        }
        writer.flush(&mut ring);
        while let Some(lease) = received(&mut reader, &mut ring) {
            lens.push(lease.end - lease.start);
            read.extend(lease.into_vec(&mut ring));
        }
        assert_eq!(read, data);
        let last = lens.pop().unwrap();
        assert!(1 <= last && last <= slab_size);
        assert!(lens.iter().all(|len| *len == slab_size));
    }
}
