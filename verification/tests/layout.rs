use s3_archiving::directory::DirectoryAssembly;
use s3_archiving::error::Error;
use s3_archiving::part_job::{
    begin_entry, carve, download_range, entry_checksum, gather, PartJob, PartJobExecutor,
    PartJobType, S3ObjectOperation, UploadPartElement, MAX_PART_JOB_TASKS_MEMORY,
};
use s3_archiving::shared_buffer::{BufSlice, SharedBuf};
use s3_archiving::zip_layout::{
    CopyZipPart, FileInfo, ZipLayout, ZipLayoutPart, MIN_PART_SIZE, TARGET_PART_SIZE,
};
use s3_archiving::zip_records::{
    Base64Error, CentralDirectoryFileHeader, EndOfCentralDirectory64, LocalFileHeader, NoCRC,
    ZipSerialize, CRC32,
};
use std::collections::HashMap;
use std::io::{Cursor, Read};

fn info(name: &str, size: usize) -> FileInfo {
    FileInfo {
        name: name.to_string(),
        bucket_name: "bucket".to_string(),
        key: format!("files/{name}"),
        size,
    }
}

fn names(infos: &[FileInfo]) -> Vec<&str> {
    infos.iter().map(|i| i.name.as_str()).collect()
}

fn base64_of(crc: u32) -> String {
    let symbols = b"ABCDEFGHIJKLMNOPQRSTUVWXYZabcdefghijklmnopqrstuvwxyz0123456789+/";
    let v = crc as u64;
    let mut text = String::new();
    for shift in [26u32, 20, 14, 8, 2] {
        text.push(symbols[((v >> shift) & 63) as usize] as char);
    }
    text.push(symbols[((v << 4) & 63) as usize] as char);
    text.push_str("==");
    text
}

#[test]
fn base64_checksums_are_read() {
    assert_eq!(base64_of(0x0102_0304), "AQIDBA==");
    let crc = CRC32::from_str("3q2+7w==").unwrap();
    assert_eq!(crc.0, [0xef, 0xbe, 0xad, 0xde]);
    assert_eq!(CRC32::from_big_endian([1, 2, 3, 4]).0, [4, 3, 2, 1]);
    let short = CRC32::from_str("AAEC").unwrap();
    assert_eq!(short.0, [0, 2, 1, 0]);
    assert!(matches!(CRC32::from_str("!AAA"), Err(Base64Error::InvalidByte(0, 33))));
    assert!(matches!(CRC32::from_str("AAAAA"), Err(Base64Error::InvalidLength(_))));
    assert!(matches!(CRC32::from_str("AB=="), Err(Base64Error::InvalidLastSymbol(1, 66))));
    assert!(matches!(CRC32::from_str("AQ"), Err(Base64Error::InvalidPadding)));
    assert!(matches!(
        CRC32::from_str("AAAAAAAA"),
        Err(Base64Error::OutputSliceTooSmall)
    ));
}

#[test]
fn errors_in_words() {
    assert_eq!(Error::custom("x").message(), "x");
    let parse = |e: Base64Error| Error::Crc32Parse(e).message();
    assert_eq!(
        parse(Base64Error::InvalidByte(3, 33)),
        "Could not parse CRC32: DecodeError: Invalid symbol 33, offset 3."
    );
    assert_eq!(
        parse(Base64Error::InvalidLength(5)),
        "Could not parse CRC32: DecodeError: Invalid input length: 5"
    );
    assert_eq!(
        parse(Base64Error::InvalidLastSymbol(1, 66)),
        "Could not parse CRC32: DecodeError: Invalid last symbol 66, offset 1."
    );
    assert_eq!(
        parse(Base64Error::InvalidPadding),
        "Could not parse CRC32: DecodeError: Invalid padding"
    );
    assert_eq!(
        parse(Base64Error::OutputSliceTooSmall),
        "Could not parse CRC32: Output slice too small"
    );
}

#[test]
fn records_have_their_predicted_length() {
    let crc = CRC32([1, 2, 3, 4]);
    let mut out = Vec::new();
    let loc = LocalFileHeader::<NoCRC>::new(7, "name".to_string(), 9);
    assert_eq!(loc.size(), 34);
    let loc = loc.set_crc(crc);
    assert_eq!(loc.dump(&mut out), 34);
    assert_eq!(out.len(), LocalFileHeader::<NoCRC>::predict_size(9, 4));
    assert_eq!(&out[0..4], b"PK\x03\x04");
    assert_eq!(&out[14..18], &[1, 2, 3, 4]);
    let mut record = Vec::new();
    CentralDirectoryFileHeader::from_loc(loc).dump(&mut record);
    assert_eq!(
        record.len(),
        CentralDirectoryFileHeader::predict_size(9, 4, 7)
    );
    assert_eq!(&record[0..4], b"PK\x01\x02");
    assert_eq!(&record[42..46], &[7, 0, 0, 0]);
}

#[test]
fn large_files_take_longer_headers() {
    let big = u32::MAX as usize;
    let plain = LocalFileHeader::<NoCRC>::predict_size(big, 1);
    let long = LocalFileHeader::<NoCRC>::predict_size(big + 1, 1);
    assert_eq!((plain, long), (31, 51));
    let near = CentralDirectoryFileHeader::predict_size(5, 1, big);
    let far = CentralDirectoryFileHeader::predict_size(5, 1, big + 1);
    assert!(near < far);
}

#[test]
fn end_records_grow_where_they_must() {
    assert!(!EndOfCentralDirectory64::need_eocd64(10, 10, 65_535));
    assert!(EndOfCentralDirectory64::need_eocd64(10, 10, 65_536));
    assert!(EndOfCentralDirectory64::need_eocd64(1 << 32, 10, 1));
    assert!(EndOfCentralDirectory64::need_eocd64(10, 1 << 32, 1));
    let end = |count: usize| EndOfCentralDirectory64 {
        record_count: count,
        central_directory_size: 50,
        central_directory_offset: 100,
        eocd64_offset: 150,
    };
    for count in [1, 65_535, 65_536] {
        let mut out = Vec::new();
        end(count).dump(&mut out);
        assert_eq!(out.len(), end(count).size());
    }
    assert_eq!(end(1).size(), 22);
    assert_eq!(end(65_536).size(), 98);
}

#[test]
fn slices_fill_the_buffer() {
    let mut buf = SharedBuf::with_capacity(6);
    let whole = buf.slice().unwrap();
    assert_eq!(
        buf.slice().err().map(|e| e.message()),
        Some("Slice already exists".to_string())
    );
    let (mut left, mut right) = whole.split(&mut buf, 2);
    assert_eq!(buf.live, 2);
    assert_eq!(right.write(b"cdef"), 4);
    assert_eq!(left.write(b"abX"), 2);
    buf.release(right);
    let mut buf = buf.into_inner().err().expect("a slice is out");
    buf.release(left);
    assert_eq!(buf.into_inner().ok(), Some(b"abcdef".to_vec()));
}

#[test]
fn split_of_a_filled_slice_keeps_its_bytes() {
    let mut buf = SharedBuf::with_capacity(5);
    let mut whole = buf.slice().unwrap();
    whole.write(b"abc");
    let (left, right) = whole.split(&mut buf, 2);
    assert_eq!((left.as_slice(), right.as_slice()), (&b"ab"[..], &b"c\0\0"[..]));
    assert_eq!((left.filled, right.filled), (2, 1));
}

#[test]
fn large_file_alone_is_one_part() {
    let layout = ZipLayout::from_files_info(vec![info("big", MIN_PART_SIZE)]);
    assert_eq!(layout.parts.len(), 1);
    match &layout.parts[0] {
        ZipLayoutPart::Single(regular) => assert_eq!(names(&regular.0), vec!["big"]),
        other => panic!("{other:?}"),
    }
}

#[test]
fn large_file_is_copied_behind_small_ones() {
    let layout = ZipLayout::from_files_info(vec![
        info("big", MIN_PART_SIZE + 1_000_000),
        info("s2", 2_500_000),
        info("s1", 2_400_000),
    ]);
    assert_eq!(layout.parts.len(), 1);
    match &layout.parts[0] {
        ZipLayoutPart::Duo { regular, copy: CopyZipPart::PartialCopy { file_entry, copy_start_byte } } => {
            assert_eq!(names(&regular.0), vec!["s1", "s2"]);
            assert_eq!(file_entry.name, "big");
            let before = regular.part_size() + file_entry.loc_size();
            assert_eq!(before + copy_start_byte, MIN_PART_SIZE);
        }
        other => panic!("{other:?}"),
    }
}

#[test]
fn file_longer_than_two_parts_is_copied_too() {
    let layout = ZipLayout::from_files_info(vec![info("a", 11_534_336), info("b", 1_048_576)]);
    assert_eq!(layout.parts.len(), 1);
    match &layout.parts[0] {
        ZipLayoutPart::Duo {
            regular,
            copy: CopyZipPart::PartialCopy { file_entry, copy_start_byte },
        } => {
            assert_eq!(names(&regular.0), vec!["b"]);
            assert_eq!(file_entry.name, "a");
            assert_eq!(*copy_start_byte, 4_194_242);
            assert_eq!(1_048_607 + 31 + copy_start_byte, MIN_PART_SIZE);
            assert_eq!(file_entry.size - copy_start_byte, 7_340_094);
        }
        other => panic!("no duo: {other:?}"),
    }
    let alone = ZipLayout::from_files_info(vec![info("a", 11_534_336)]);
    assert!(matches!(alone.parts[0], ZipLayoutPart::Single(_)));
}

#[test]
fn spare_small_files_make_the_copy_whole() {
    let layout = ZipLayout::from_files_info(vec![
        info("big", 2 * MIN_PART_SIZE - 1_000),
        info("s1", 3_000_000),
        info("s2", 3_000_000),
        info("s3", 3_000_000),
        info("s4", 3_000_000),
        info("s5", 3_000_000),
    ]);
    match &layout.parts[0] {
        ZipLayoutPart::Duo { regular, copy: CopyZipPart::FullCopy(file) } => {
            assert_eq!(file.name, "big");
            assert_eq!(names(&regular.0), vec!["s1", "s2", "s3", "s4"]);
            assert!(regular.part_size() >= TARGET_PART_SIZE);
        }
        other => panic!("{other:?}"),
    }
    match &layout.parts[1] {
        ZipLayoutPart::Single(regular) => assert_eq!(names(&regular.0), vec!["s5"]),
        other => panic!("{other:?}"),
    }
}

#[test]
fn no_files_make_no_parts() {
    let layout = ZipLayout::from_files_info(vec![]);
    assert!(layout.parts.is_empty());
    let jobs = layout.into_part_jobs();
    assert_eq!(jobs.len(), 1);
    assert_eq!(jobs[0].part_number, 1);
    assert_eq!(jobs[0].part_size, 22);
}

fn contents(sizes: &[usize]) -> (Vec<FileInfo>, HashMap<String, Vec<u8>>) {
    let mut infos = Vec::new();
    let mut objects = HashMap::new();
    for (i, size) in sizes.iter().enumerate() {
        let file = info(&format!("f{i}"), *size);
        objects.insert(format!("bucket/{}", file.key), vec![i as u8 + 1; *size]);
        infos.push(file);
    }
    (infos, objects)
}

fn fill(
    element: &UploadPartElement,
    slice: &mut BufSlice,
    objects: &HashMap<String, Vec<u8>>,
    directory: &mut Option<DirectoryAssembly>,
    early: &mut Vec<CentralDirectoryFileHeader>,
) {
    match element {
        UploadPartElement::EntryFromS3 { loc, operation, bucket_name, key } => {
            let body = &objects[&format!("{bucket_name}/{key}")];
            let crc = entry_checksum(*operation, Some(base64_of(crc32fast::hash(body)))).unwrap();
            let loc = LocalFileHeader::<NoCRC>::new(loc.offset, loc.name.clone(), loc.file_size);
            early.push(begin_entry(loc, crc, slice));
            match operation {
                S3ObjectOperation::Get => assert_eq!(slice.write(body), body.len()),
                S3ObjectOperation::PartialGet { size } => {
                    assert_eq!(slice.write(&body[..*size]), *size);
                }
                S3ObjectOperation::Head => {}
            }
            assert_eq!(slice.filled, slice.length);
        }
        UploadPartElement::CentralDirectory { eocd64, .. } => {
            *directory = Some(DirectoryAssembly::new(*eocd64));
        }
    }
}

/// Does the jobs of a layout in memory and reads the archive back.
fn run_jobs(sizes: &[usize]) -> Vec<PartJob> {
    let (infos, objects) = contents(sizes);
    let layout = ZipLayout::from_files_info(infos);
    let jobs = PartJobExecutor::new(layout, "bucket".to_string(), "a.zip".to_string()).jobs;
    let mut parts: Vec<Vec<u8>> = Vec::new();
    let mut records = Vec::new();
    let mut directory = None;
    let mut last: Option<(SharedBuf, Vec<BufSlice>)> = None;
    for (i, job) in jobs.iter().enumerate() {
        assert_eq!(job.part_number as usize, i + 1);
        match &job.part_job_type {
            PartJobType::Copy { copy_source, range } => {
                let body = &objects[copy_source];
                let bytes = match range {
                    Some(r) => body[r.first as usize..=r.last as usize].to_vec(),
                    None => body.clone(),
                };
                parts.push(bytes);
            }
            PartJobType::Upload(elements) => {
                let mut buf = SharedBuf::with_capacity(job.part_size);
                let mut slices = carve(&mut buf, elements).unwrap();
                for (element, slice) in elements.iter().zip(slices.iter_mut()) {
                    fill(element, slice, &objects, &mut directory, &mut records);
                }
                if directory.is_some() {
                    last = Some((buf, slices));
                } else {
                    parts.push(gather(buf, slices).unwrap());
                }
            }
        }
    }
    let (buf, mut slices) = last.expect("the last job holds the directory");
    let mut directory = directory.unwrap();
    records.reverse();
    let count = records.len();
    for (i, record) in records.into_iter().enumerate() {
        assert_eq!(directory.add(record), i + 1 == count);
    }
    let bytes = directory.bytes();
    let end = slices.last_mut().unwrap();
    assert_eq!(end.write(&bytes), bytes.len());
    parts.push(gather(buf, slices).unwrap());
    for (job, part) in jobs.iter().zip(parts.iter()) {
        assert_eq!(job.part_size, part.len());
    }
    for part in &parts[..parts.len() - 1] {
        assert!(part.len() >= MIN_PART_SIZE);
    }
    let archive = parts.concat();
    let mut za = zip::ZipArchive::new(Cursor::new(&archive)).unwrap();
    assert_eq!(za.len(), sizes.len());
    for (i, size) in sizes.iter().enumerate() {
        let mut content = Vec::new();
        za.by_name(&format!("f{i}")).unwrap().read_to_end(&mut content).unwrap();
        assert_eq!(content, vec![i as u8 + 1; *size]);
    }
    jobs
}

#[test]
fn jobs_of_small_files_make_an_archive() {
    let jobs = run_jobs(&[10, 0, 300]);
    assert_eq!(jobs.len(), 1);
}

#[test]
fn jobs_of_duos_make_an_archive() {
    let jobs = run_jobs(&[
        MIN_PART_SIZE + 500_000,
        2_700_000,
        2_700_000,
        MIN_PART_SIZE + 100,
        2_700_000,
        2_700_000,
        1_000,
    ]);
    let copies = jobs
        .iter()
        .filter(|j| matches!(j.part_job_type, PartJobType::Copy { .. }))
        .count();
    assert_eq!(copies, 2);
}

#[test]
fn jobs_of_partial_copies_make_an_archive() {
    let jobs = run_jobs(&[2 * MIN_PART_SIZE - 2_000, 1_000, 2 * MIN_PART_SIZE - 3_000, 4_000]);
    assert!(jobs
        .iter()
        .any(|j| matches!(j.part_job_type, PartJobType::Copy { range: Some(_), .. })));
}

#[test]
fn jobs_of_packed_files_make_an_archive() {
    // Parts that are built locally and follow each other become one upload.
    let jobs = run_jobs(&[4_000_000, 4_000_001, 4_000_002, 4_000_003]);
    assert_eq!(jobs.len(), 1);
}

#[test]
fn downloads_of_an_entry() {
    assert_eq!(download_range(S3ObjectOperation::Get), None);
    assert_eq!(download_range(S3ObjectOperation::Head), None);
    let range = download_range(S3ObjectOperation::PartialGet { size: 10 }).unwrap();
    assert_eq!(range.header(), "bytes=0-9");
}

#[test]
fn checksum_of_an_entry_has_to_come() {
    let missing = |op: S3ObjectOperation| entry_checksum(op, None).err().unwrap().message();
    assert_eq!(
        missing(S3ObjectOperation::Get),
        "No CRC32 in the GetObject response"
    );
    assert_eq!(
        missing(S3ObjectOperation::PartialGet { size: 1 }),
        "No CRC32 in the (partial) GetObject response"
    );
    assert_eq!(
        missing(S3ObjectOperation::Head),
        "No CRC32 in the HeadObject response"
    );
    let bad = entry_checksum(S3ObjectOperation::Get, Some("AQ".to_string()));
    assert!(matches!(bad, Err(Error::Crc32Parse(Base64Error::InvalidPadding))));
}

#[test]
fn completed_jobs_need_a_tag() {
    let upload = PartJob {
        part_number: 4,
        part_size: 9,
        part_job_type: PartJobType::Upload(vec![]),
    };
    let copy = PartJob {
        part_number: 5,
        part_size: 9,
        part_job_type: PartJobType::Copy { copy_source: "b/k".to_string(), range: None },
    };
    let part = upload.completed(Some("tag".to_string())).unwrap();
    assert_eq!((part.part_number, part.e_tag.as_str()), (4, "tag"));
    assert_eq!(
        upload.completed(None).err().unwrap().message(),
        "No ETag in UploadPart response"
    );
    assert_eq!(
        copy.completed(None).err().unwrap().message(),
        "No ETag in UploadPartCopy response"
    );
    assert_eq!(upload.memory_budget_needed(), 9);
    assert_eq!(copy.memory_budget_needed(), 512 * 1024);
    assert_eq!(MAX_PART_JOB_TASKS_MEMORY, 50 * 1024 * 1024);
    assert_eq!(PartJobExecutor::upload_id(Some("u".to_string())).ok(), Some("u".to_string()));
    assert_eq!(
        PartJobExecutor::upload_id(None).err().unwrap().message(),
        "No upload ID in multipart upload response"
    );
}

#[test]
fn later_record_takes_the_place_of_an_earlier_one() {
    let record = |offset: usize, name: &str| {
        let loc = LocalFileHeader::<NoCRC>::new(offset, name.to_string(), 1);
        CentralDirectoryFileHeader::from_loc(loc.set_crc(CRC32([0; 4])))
    };
    let mut directory = DirectoryAssembly::new(EndOfCentralDirectory64 {
        record_count: 2,
        central_directory_size: 0,
        central_directory_offset: 0,
        eocd64_offset: 0,
    });
    assert!(!directory.add(record(9, "b")));
    assert!(!directory.add(record(9, "c")));
    assert!(directory.add(record(3, "a")));
    let seen: Vec<&str> = directory.records.iter().map(|r| r.0.name.as_str()).collect();
    assert_eq!(seen, vec!["a", "c"]);
}
