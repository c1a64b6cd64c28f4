use s3_archiving::assemble::{
    archive_basename, build_central_directory, build_stream_part_bytes, copy_request, copy_source,
    crc_jobs, entry_meta, etag_of, fill_crcs, object_key, segment_fetch, split_pools,
    upload_id_of, AssembleError,
};
use s3_archiving::byte_range::ByteRange;
use s3_archiving::layered::{
    build_header_blob, build_layer_specs, chain_key, check_first_chain, directory_part_number,
    header_blob_key, header_metas, layer_requests, layer_wave, layered_builds, max_layers, merge_copies, ArchiveChain, CopyPart,
    HeaderBlob, HeaderRange, LayeredChain,
};
use s3_archiving::multipart::{sort_parts, UploadedPart};
use s3_archiving::plan::{entries_in_order, Entry, FileId, PartSpec, Segment, SourceFile};
use s3_archiving::stream_fallback::{emission_of, Emission, StreamedArchive, PART_FLOOR};
use s3_archiving::zip_format::{
    central_dir_entry, end_records, entry_total_len, local_header, EntryMeta,
};
use std::collections::HashMap;
use std::io::{Cursor, Read};

fn entry(id: u32, name: &str, size: u64, offset: u64, crc: Option<u32>) -> Entry {
    Entry {
        id: FileId(id),
        name: name.to_string(),
        size,
        local_header_offset: offset,
        crc,
        streamed: false,
    }
}

fn two_entries(crc: Option<u32>) -> (Vec<FileId>, HashMap<u32, Entry>) {
    let mut entries = HashMap::new();
    entries.insert(0, entry(0, "a", 3, 0, Some(11)));
    entries.insert(1, entry(1, "bb", 5, entry_total_len("a", 3), crc));
    (vec![FileId(0), FileId(1)], entries)
}

#[test]
fn assemble_errors_in_words() {
    assert_eq!(
        AssembleError::NoUploadId.message(),
        "missing upload id from create_multipart_upload"
    );
    assert_eq!(
        AssembleError::NoEtag("upload_part".to_string()).message(),
        "missing etag from upload_part"
    );
    assert_eq!(
        AssembleError::BadCrc("x".to_string()).message(),
        "missing or undecodable CRC for object x"
    );
    assert_eq!(AssembleError::S3("x".to_string()).message(), "s3 error: x");
    assert_eq!(AssembleError::ByteStream("x".to_string()).message(), "bytestream: x");
}

#[test]
fn answers_of_s3() {
    assert_eq!(upload_id_of(Some("u".to_string())).ok(), Some("u".to_string()));
    assert!(matches!(upload_id_of(None), Err(AssembleError::NoUploadId)));
    assert_eq!(etag_of(Some("t".to_string()), "c").ok(), Some("t".to_string()));
    match etag_of(None, "directory upload_part") {
        Err(AssembleError::NoEtag(call)) => assert_eq!(call, "directory upload_part"),
        other => panic!("{other:?}"),
    }
}

#[test]
fn keys_and_sources() {
    assert_eq!(object_key("files", "x"), "files/x");
    assert_eq!(copy_source("b", "files/x"), "b/files/x");
    assert_eq!(archive_basename("archives/run/a.zip"), "a.zip");
    assert_eq!(archive_basename("a.zip"), "a.zip");
    assert_eq!(archive_basename("archives/"), "");
}

#[test]
fn directory_needs_every_checksum() {
    let (order, entries) = two_entries(None);
    match build_central_directory(&order, &entries) {
        Err(AssembleError::BadCrc(name)) => assert_eq!(name, "bb"),
        other => panic!("{other:?}"),
    }
}

#[test]
fn directory_lists_entries_in_order() {
    let (order, entries) = two_entries(Some(22));
    let bytes = build_central_directory(&order, &entries).unwrap();
    let mut expected = central_dir_entry(&entry_meta(&entries[&0], 11));
    expected.extend_from_slice(&central_dir_entry(&entry_meta(&entries[&1], 22)));
    let cd_size = expected.len() as u64;
    let cd_offset = entry_total_len("a", 3) + entry_total_len("bb", 5);
    expected.extend_from_slice(&end_records(2, cd_offset, cd_size));
    assert_eq!(bytes, expected);
}

#[test]
fn stream_part_holds_its_segments() {
    let (order, entries) = two_entries(Some(22));
    let segments = vec![
        Segment::StreamedFile { id: FileId(0) },
        Segment::CopiedFileHeader { id: FileId(1) },
        Segment::StreamedBigPrefix { id: FileId(1), len: 2 },
        Segment::CentralDirectory,
    ];
    let bodies = vec![b"abc".to_vec(), vec![], b"de".to_vec(), vec![]];
    let bytes = build_stream_part_bytes(&order, &entries, &segments, &bodies).unwrap();
    let mut expected = local_header(&entry_meta(&entries[&0], 11));
    expected.extend_from_slice(b"abc");
    expected.extend_from_slice(&local_header(&entry_meta(&entries[&1], 22)));
    expected.extend_from_slice(b"de");
    expected.extend_from_slice(&build_central_directory(&order, &entries).unwrap());
    assert_eq!(bytes, expected);
}

#[test]
fn stream_part_needs_checksums_of_its_headers() {
    let (order, entries) = two_entries(None);
    let segments = vec![Segment::CopiedFileHeader { id: FileId(1) }];
    match build_stream_part_bytes(&order, &entries, &segments, &vec![vec![]]) {
        Err(AssembleError::BadCrc(name)) => assert_eq!(name, "bb"),
        other => panic!("{other:?}"),
    }
    let segments = vec![Segment::StreamedBigPrefix { id: FileId(1), len: 2 }];
    let bytes = build_stream_part_bytes(&order, &entries, &segments, &vec![b"de".to_vec()]);
    assert_eq!(bytes.ok(), Some(b"de".to_vec()));
}

#[test]
fn segments_fetch_what_they_stream() {
    let (_, entries) = two_entries(None);
    let whole = segment_fetch(&entries, "files", &Segment::StreamedFile { id: FileId(0) }).unwrap();
    assert_eq!((whole.key.as_str(), whole.range), ("files/a", None));
    let prefix = Segment::StreamedBigPrefix { id: FileId(1), len: 4 };
    let fetch = segment_fetch(&entries, "files", &prefix).unwrap();
    assert_eq!(fetch.key, "files/bb");
    assert_eq!(fetch.range.unwrap().header(), "bytes=0-3");
    assert!(segment_fetch(&entries, "files", &Segment::CentralDirectory).is_none());
    let header = Segment::CopiedFileHeader { id: FileId(1) };
    assert!(segment_fetch(&entries, "files", &header).is_none());
}

#[test]
fn copies_are_ranged_behind_a_stolen_prefix() {
    let (_, entries) = two_entries(None);
    let whole = copy_request(&entries, "b", "files", 2, FileId(1), 0);
    assert_eq!((whole.part_number, whole.source.as_str()), (2, "b/files/bb"));
    assert_eq!(whole.range, None);
    let rest = copy_request(&entries, "b", "files", 3, FileId(1), 2);
    assert_eq!(rest.range, Some(ByteRange { first: 2, last: 4 }));
}

#[test]
fn parts_are_split_into_pools() {
    let parts = vec![
        PartSpec::Stream { part_number: 1, segments: vec![Segment::CentralDirectory] },
        PartSpec::Copy { part_number: 2, id: FileId(7), copy_from: 9 },
        PartSpec::Stream { part_number: 3, segments: vec![] },
    ];
    let (copies, streams) = split_pools(&parts);
    assert_eq!(copies, vec![(2, FileId(7), 9)]);
    let numbers: Vec<u32> = streams.iter().map(|s| s.0).collect();
    assert_eq!(numbers, vec![1, 3]);
    assert_eq!(streams[0].1, vec![Segment::CentralDirectory]);
}

#[test]
fn checksums_are_asked_for_in_order() {
    let (order, entries) = two_entries(None);
    assert_eq!(
        crc_jobs(&order, &entries, "files"),
        vec![
            (FileId(0), "files/a".to_string()),
            (FileId(1), "files/bb".to_string()),
        ]
    );
}

#[test]
fn checksums_are_filled_in() {
    let (_, mut entries) = two_entries(None);
    let answers = vec![
        (FileId(1), Some("AQIDBA==".to_string())),
        (FileId(9), Some("AQIDBA==".to_string())),
    ];
    assert!(fill_crcs(&mut entries, answers).is_ok());
    assert_eq!(entries[&1].crc, Some(0x0102_0304));
    assert_eq!(entries[&0].crc, Some(11));
    assert_eq!(entries.len(), 2);
    let answers = vec![(FileId(0), None), (FileId(1), Some("AAAA".to_string()))];
    match fill_crcs(&mut entries, answers) {
        Err(AssembleError::BadCrc(object)) => assert_eq!(object, "FileId(0)"),
        other => panic!("{other:?}"),
    }
}

#[test]
fn headers_stand_in_the_blob() {
    let meta = |name: &str, offset: u64| EntryMeta {
        name: name.to_string(),
        size: 4,
        crc: 5,
        local_header_offset: offset,
    };
    let metas = vec![(FileId(3), meta("x", 0)), (FileId(1), meta("yy", 35))];
    let (bytes, blob) = build_header_blob(&metas);
    assert_eq!(blob.bytes_len, bytes.len() as u64);
    for (id, m) in &metas {
        let r = blob.ranges[&id.0];
        assert_eq!(
            &bytes[r.offset as usize..r.end() as usize],
            local_header(m).as_slice()
        );
    }
    assert_eq!(blob.ranges[&1], HeaderRange { offset: 31, len: 32 });
}

#[test]
fn headers_of_all_entries_are_known() {
    let (order, entries) = two_entries(None);
    let metas = header_metas(&order, &entries);
    let seen: Vec<(FileId, &str, u32)> = metas
        .iter()
        .map(|(id, m)| (*id, m.name.as_str(), m.crc))
        .collect();
    assert_eq!(seen, vec![(FileId(0), "a", 11), (FileId(1), "bb", 0)]);
}

#[test]
fn layer_parts_are_numbered() {
    let parts = vec![
        CopyPart::whole("b/k".to_string()),
        CopyPart::range("b/h".to_string(), HeaderRange { offset: 10, len: 5 }),
    ];
    let requests = layer_requests(&parts);
    let numbers: Vec<u32> = requests.iter().map(|r| r.part_number).collect();
    assert_eq!(numbers, vec![1, 2]);
    assert_eq!(requests[1].source, "b/h");
    assert_eq!(requests[1].range, parts[1].range);
}

#[test]
fn copy_parts_of_a_layer() {
    let whole = CopyPart::whole("b/k".to_string());
    assert_eq!((whole.source.as_str(), whole.range), ("b/k", None));
    let part = CopyPart::range("b/h".to_string(), HeaderRange { offset: 10, len: 5 });
    assert_eq!(part.range.unwrap().header(), "bytes=10-14");
}

fn blob_of(ids: &[u32]) -> HeaderBlob {
    let mut ranges = HashMap::new();
    for id in ids {
        ranges.insert(*id, HeaderRange { offset: 100 * *id as u64, len: 40 });
    }
    HeaderBlob { bytes_len: 10_000, ranges }
}

#[test]
fn chain_grows_in_three_layers() {
    let mut entries = HashMap::new();
    entries.insert(1, entry(1, "big", 9, 0, None));
    entries.insert(2, entry(2, "small", 3, 0, None));
    let chain = LayeredChain {
        big: FileId(1),
        small: Some(FileId(2)),
        next_big_header: Some(FileId(3)),
        final_merge_part_number: 4,
    };
    let layers = build_layer_specs("b", "files", "c", "h", &blob_of(&[2, 3]), &entries, &chain);
    let seen: Vec<(String, Vec<(String, Option<String>)>)> = layers
        .iter()
        .map(|l| {
            let parts = l
                .parts
                .iter()
                .map(|p| (p.source.clone(), p.range.map(|r| r.header())))
                .collect();
            (l.key.clone(), parts)
        })
        .collect();
    let s = |t: &str| t.to_string();
    assert_eq!(
        seen,
        vec![
            (
                s("c.l1"),
                vec![
                    (s("b/files/big"), None),
                    (s("b/h"), Some(s("bytes=200-239"))),
                ]
            ),
            (s("c.l2"), vec![(s("b/c.l1"), None), (s("b/files/small"), None)]),
            (
                s("c.l3"),
                vec![(s("b/c.l2"), None), (s("b/h"), Some(s("bytes=300-339")))]
            ),
        ]
    );
    let lone = LayeredChain { small: None, next_big_header: None, ..chain };
    let layers = build_layer_specs("b", "files", "c", "h", &blob_of(&[]), &entries, &lone);
    assert_eq!(layers.len(), 1);
    let unpaired = LayeredChain { small: None, ..chain };
    let layers = build_layer_specs("b", "files", "c", "h", &blob_of(&[3]), &entries, &unpaired);
    assert_eq!(layers[1].key, "c.l3");
    assert_eq!(layers[1].parts[0].source, "b/c.l1");
}

#[test]
fn chains_are_built_in_waves() {
    let mut entries = HashMap::new();
    for (id, name) in [(1, "b1"), (2, "s2"), (3, "b3")] {
        entries.insert(id, entry(id, name, 9, 0, None));
    }
    let tall = LayeredChain {
        big: FileId(1),
        small: Some(FileId(2)),
        next_big_header: Some(FileId(3)),
        final_merge_part_number: 2,
    };
    let short = LayeredChain {
        big: FileId(3),
        small: None,
        next_big_header: None,
        final_merge_part_number: 3,
    };
    let first = ArchiveChain::FirstStream { parts: vec![], final_merge_part_number: 1 };
    let chains = vec![first, ArchiveChain::Layered(tall), ArchiveChain::Layered(short)];
    assert!(check_first_chain(&chains).is_ok());
    assert_eq!(directory_part_number(&chains), 4);
    let key = "archives/run.zip";
    let builds = layered_builds("b", "files", key, &blob_of(&[2, 3]), &entries, &chains);
    assert_eq!(builds.len(), 2);
    assert_eq!(max_layers(&builds), 3);
    assert_eq!(layer_wave(&builds, 0), vec![0, 1]);
    assert_eq!(layer_wave(&builds, 1), vec![0]);
    assert_eq!(
        merge_copies(&builds, "b"),
        vec![
            (2, "b/archives/.tmp-chains/run.zip-1.l3".to_string()),
            (3, "b/archives/.tmp-chains/run.zip-2.l1".to_string()),
        ]
    );
    assert_eq!(chain_key(key, 0), "archives/.tmp-chains/run.zip-0");
    assert_eq!(header_blob_key(key), "archives/.tmp-chains/run.zip-H");
    match check_first_chain(&vec![ArchiveChain::Layered(short)]) {
        Err(AssembleError::BadCrc(text)) => assert_eq!(text, "first chain must be FirstStream"),
        other => panic!("{other:?}"),
    }
}

#[test]
fn parts_are_completed_in_order() {
    let part = |n: i32, tag: &str| UploadedPart { part_number: n, e_tag: tag.to_string() };
    let sorted = sort_parts(vec![part(3, "c"), part(1, "a"), part(3, "d"), part(-1, "z")]);
    let seen: Vec<(i32, &str)> = sorted
        .iter()
        .map(|p| (p.part_number, p.e_tag.as_str()))
        .collect();
    assert_eq!(seen, vec![(-1, "z"), (1, "a"), (3, "c"), (3, "d")]);
}

#[test]
fn streamed_archive_is_read_by_zip() {
    let file = |id: u32, name: &str, size: u64| SourceFile {
        id: FileId(id),
        key: format!("files/{name}"),
        name: name.to_string(),
        size,
    };
    let mut streamed = StreamedArchive::new();
    streamed.add(&file(0, "one", 9), &b"123456789".to_vec());
    streamed.add(&file(1, "two", 0), &vec![]);
    assert_eq!(streamed.metas[0].crc, 0xCBF4_3926);
    assert_eq!(streamed.metas[1].crc, 0);
    assert_eq!(streamed.metas[1].local_header_offset, entry_total_len("one", 9));
    let archive = streamed.finish();
    let mut za = zip::ZipArchive::new(Cursor::new(&archive)).unwrap();
    assert_eq!(za.len(), 2);
    let mut content = Vec::new();
    za.by_name("one").unwrap().read_to_end(&mut content).unwrap();
    assert_eq!(content, b"123456789");
}

#[test]
fn entry_carries_the_given_checksum() {
    let file = SourceFile {
        id: FileId(7),
        key: "files/one".to_string(),
        name: "one".to_string(),
        size: 9,
    };
    let body = b"123456789".to_vec();
    let mut computed = StreamedArchive::new();
    computed.add(&file, &body);
    let mut given = StreamedArchive::new();
    given.add_entry(&file, &body, 0xCBF4_3926);
    assert_eq!(given.archive, computed.archive);
    let mut other = StreamedArchive::new();
    other.add_entry(&file, &body, 0x0403_0201);
    assert_eq!(other.metas[0].crc, 0x0403_0201);
    assert_eq!(other.archive[14..18], [1, 2, 3, 4]);
    assert_eq!(other.archive[33..], body[..]);
}

#[test]
fn placed_entries_stand_one_behind_the_other() {
    let file = |id: u32, name: &str, size: u64| SourceFile {
        id: FileId(id),
        key: format!("files/{name}"),
        name: name.to_string(),
        size,
    };
    let files = vec![file(4, "a", 10), file(9, "bcd", 20), file(2, "ef", 30)];
    let entries = entries_in_order(&files, &vec![(2, true), (0, false)]);
    assert_eq!(entries.len(), 2);
    assert_eq!(entries[&2].local_header_offset, 0);
    assert!(entries[&2].streamed);
    assert_eq!(entries[&4].local_header_offset, 30 + 2 + 30);
    assert!(!entries[&4].streamed);
    assert_eq!(entries[&4].name, "a");
    assert_eq!(entries[&4].crc, None);
}

#[test]
fn empty_archive_has_end_records_only() {
    let archive = StreamedArchive::new().finish();
    assert_eq!(archive, end_records(0, 0, 0));
}

#[test]
fn small_archives_are_put_at_once() {
    match emission_of(vec![1; PART_FLOOR - 1]) {
        Emission::Put(bytes) => assert_eq!(bytes.len(), PART_FLOOR - 1),
        Emission::Parts(_) => panic!("below the floor"),
    }
    match emission_of(vec![1; PART_FLOOR]) {
        Emission::Parts(parts) => assert_eq!(parts.len(), 1),
        Emission::Put(_) => panic!("at the floor"),
    }
    let archive: Vec<u8> = (0..2 * PART_FLOOR + 3).map(|i| i as u8).collect();
    match emission_of(archive.clone()) {
        Emission::Parts(parts) => {
            let numbers: Vec<i32> = parts.iter().map(|p| p.part_number).collect();
            assert_eq!(numbers, vec![1, 2, 3]);
            let lens: Vec<usize> = parts.iter().map(|p| p.bytes.len()).collect();
            assert_eq!(lens, vec![PART_FLOOR, PART_FLOOR, 3]);
            let joined: Vec<u8> = parts.into_iter().flat_map(|p| p.bytes).collect();
            assert_eq!(joined, archive);
        }
        Emission::Put(_) => panic!("above the floor"),
    }
}
