use s3_archiving::plan::{FileId, SourceFile, PART_FLOOR};
use s3_archiving::plan_chain::{plan_segment_chain, ChainPlan, Link, Piece, PlanError};
use s3_archiving::zip_format::{self, EntryMeta};
use sha2::{Digest, Sha256};
use std::collections::HashSet;
use std::io::{Cursor, Read};

fn sf(id: u32, name: &str, size: u64) -> SourceFile {
    SourceFile {
        id: FileId(id),
        key: format!("files/{name}"),
        name: name.to_string(),
        size,
    }
}

// ---------- pure structural tests (no zip dependency) ----------

#[test]
fn rejects_zero_bigs() {
    let files = vec![sf(0, "s1", 1024), sf(1, "s2", 2048)];
    assert!(matches!(
        plan_segment_chain(files),
        Err(PlanError::NoBigs { smalls: 2 })
    ));
}

#[test]
fn offsets_contiguous_and_cd_follows() {
    let files = vec![
        sf(0, "big1", PART_FLOOR + 1000),
        sf(1, "big2", PART_FLOOR + 2000),
        sf(2, "s1", 1000),
        sf(3, "s2", 2000),
        sf(4, "s3", 3000),
    ];
    let plan = plan_segment_chain(files).unwrap();
    let mut expect = 0u64;
    for id in &plan.order {
        let e = &plan.entries[&id.0];
        assert_eq!(e.local_header_offset, expect, "offset mismatch {}", e.name);
        expect += zip_format::entry_total_len(&e.name, e.size);
    }
    assert_eq!(plan.cd_offset, expect, "cd_offset must follow last body");
}

#[test]
fn segment_objects_tile_body_region() {
    let files = vec![
        sf(0, "big1", PART_FLOOR + 10),
        sf(1, "big2", PART_FLOOR + 20),
        sf(2, "big3", PART_FLOOR + 30),
        sf(3, "a", 100),
        sf(4, "b", 200),
        sf(5, "c", 300),
        sf(6, "d", 400),
    ];
    let plan = plan_segment_chain(files).unwrap();
    let sum: u64 = plan.segments.iter().map(|s| s.object_len).sum();
    assert_eq!(sum, plan.cd_offset, "objects must tile the body region");
    for s in &plan.segments {
        assert!(s.object_len >= PART_FLOOR, "segment under 5 MiB floor");
    }
}

#[test]
fn one_segment_per_big_smalls_spread_thin() {
    let files = vec![
        sf(0, "big1", PART_FLOOR),
        sf(1, "big2", PART_FLOOR),
        sf(2, "s1", 10),
        sf(3, "s2", 20),
        sf(4, "s3", 30),
    ];
    let plan = plan_segment_chain(files).unwrap();
    assert_eq!(plan.segment_count(), 2);
    let mut small_counts: Vec<usize> = plan
        .segments
        .iter()
        .map(|s| {
            s.links
                .iter()
                .filter(|l| {
                    matches!(
                        l,
                        Link::ForwardThenAppend {
                            piece: Piece::Body(_)
                        }
                    ) || matches!(
                        l,
                        Link::AnchorThenAppend {
                            piece: Piece::Body(_),
                            ..
                        }
                    )
                })
                .count()
        })
        .collect();
    small_counts.sort();
    assert_eq!(small_counts, vec![1, 2]);
}

#[test]
fn first_segment_bootstraps_only_once() {
    let files = vec![
        sf(0, "big1", PART_FLOOR + 1),
        sf(1, "big2", PART_FLOOR + 2),
        sf(2, "big3", PART_FLOOR + 3),
        sf(3, "s", 50),
    ];
    let plan = plan_segment_chain(files).unwrap();
    let boots: usize = plan
        .segments
        .iter()
        .flat_map(|s| &s.links)
        .filter(|l| matches!(l, Link::Bootstrap { .. }))
        .count();
    assert_eq!(boots, 1, "exactly one bootstrap (entry 0)");
    assert!(matches!(plan.segments[0].links[0], Link::Bootstrap { .. }));
}

#[test]
fn last_segment_has_no_trailing_header() {
    let files = vec![
        sf(0, "big1", PART_FLOOR + 1),
        sf(1, "big2", PART_FLOOR + 2),
        sf(2, "s1", 10),
        sf(3, "s2", 20),
    ];
    let plan = plan_segment_chain(files).unwrap();
    let anchors: std::collections::HashSet<FileId> =
        plan.segments.iter().map(|s| s.anchor).collect();
    let last = plan.segments.last().unwrap();
    for l in &last.links {
        if let Link::ForwardThenAppend {
            piece: Piece::Header(id),
        }
        | Link::AnchorThenAppend {
            piece: Piece::Header(id),
            ..
        } = l
        {
            assert!(
                !anchors.contains(id),
                "last segment carries a trailing big header"
            );
        }
    }
}

#[test]
fn solo_big_single_entry_archive() {
    let files = vec![sf(0, "only", PART_FLOOR + 123)];
    let plan = plan_segment_chain(files).unwrap();
    assert_eq!(plan.segment_count(), 1);
    assert_eq!(plan.segments[0].links.len(), 1);
    assert!(matches!(plan.segments[0].links[0], Link::Bootstrap { .. }));
    assert_eq!(plan.order, vec![FileId(0)]);
}

// ---------- full executor simulation + real zip round-trip ----------

fn crc32(data: &[u8]) -> u32 {
    let mut crc: u32 = 0xFFFF_FFFF;
    for &b in data {
        crc ^= b as u32;
        for _ in 0..8 {
            let mask = (crc & 1).wrapping_neg();
            crc = (crc >> 1) ^ (0xEDB8_8320 & mask);
        }
    }
    !crc
}

fn sha256_hex(b: &[u8]) -> String {
    let d = Sha256::new().chain_update(b).finalize();
    let mut s = String::with_capacity(64);
    for x in d {
        s.push_str(&format!("{:02x}", x));
    }
    s
}

fn files_from_raw(raw: &[Vec<u8>]) -> Vec<SourceFile> {
    raw.iter()
        .enumerate()
        .map(|(i, b)| {
            let name = sha256_hex(b);
            SourceFile {
                id: FileId(i as u32),
                key: format!("files/{name}"),
                name,
                size: b.len() as u64,
            }
        })
        .collect()
}

fn fill_crcs(plan: &mut ChainPlan, raw: &[Vec<u8>]) {
    for id in plan.order.clone() {
        let crc = crc32(&raw[id.0 as usize]);
        plan.entries.get_mut(&id.0).unwrap().crc = Some(crc);
    }
}

/// Simulate the chain executor in memory: build each segment object link by
/// link (asserting every non-last part clears the floor), stitch the objects,
/// append the central directory as the exempt last part, verify planner
/// offsets against where headers landed, and round-trip the real zip reader.
fn assemble_and_validate(plan: &ChainPlan, raw: &[Vec<u8>]) {

    let meta = |id: FileId| -> EntryMeta {
        let e = &plan.entries[&id.0];
        EntryMeta {
            name: e.name.clone(),
            size: e.size,
            crc: e.crc.expect("crc filled before assemble"),
            local_header_offset: e.local_header_offset,
        }
    };
    let append_piece = |obj: &mut Vec<u8>, piece: &Piece| match piece {
        Piece::Header(id) => obj.extend_from_slice(&zip_format::local_header(&meta(*id))),
        Piece::Body(id) => obj.extend_from_slice(&raw[id.0 as usize]),
    };

    let mut objects: Vec<Vec<u8>> = Vec::with_capacity(plan.segments.len());
    for seg in &plan.segments {
        let mut obj: Vec<u8> = Vec::new();
        for link in &seg.links {
            match link {
                Link::Bootstrap { anchor, steal_len } => {
                    let h = zip_format::local_header(&meta(*anchor));
                    let part1 = h.len() as u64 + *steal_len;
                    assert!(part1 >= PART_FLOOR, "bootstrap part1 {part1} < floor");
                    assert!(
                        *steal_len <= raw[anchor.0 as usize].len() as u64,
                        "steal_len exceeds big0 body"
                    );
                    obj.extend_from_slice(&h);
                    obj.extend_from_slice(&raw[anchor.0 as usize]);
                }
                Link::AnchorOnly { anchor } => {
                    let b = &raw[anchor.0 as usize];
                    assert!(b.len() as u64 >= PART_FLOOR, "AnchorOnly part < floor");
                    obj.extend_from_slice(b);
                }
                Link::AnchorThenAppend { anchor, piece } => {
                    let b = &raw[anchor.0 as usize];
                    assert!(
                        b.len() as u64 >= PART_FLOOR,
                        "AnchorThenAppend copy(big) < floor"
                    );
                    obj.extend_from_slice(b);
                    append_piece(&mut obj, piece);
                }
                Link::ForwardThenAppend { piece } => {
                    assert!(
                        obj.len() as u64 >= PART_FLOOR,
                        "ForwardThenAppend copy-forward {} < floor",
                        obj.len()
                    );
                    append_piece(&mut obj, piece);
                }
            }
        }
        assert_eq!(
            obj.len() as u64,
            seg.object_len,
            "segment {} len mismatch",
            seg.index
        );
        objects.push(obj);
    }

    let mut archive: Vec<u8> = Vec::new();
    for (i, obj) in objects.iter().enumerate() {
        assert!(
            obj.len() as u64 >= PART_FLOOR,
            "stitch part {i} below floor"
        );
        archive.extend_from_slice(obj);
    }
    assert_eq!(
        archive.len() as u64,
        plan.cd_offset,
        "body region != cd_offset"
    );

    let mut cd_size = 0u64;
    for id in &plan.order {
        let rec = zip_format::central_dir_entry(&meta(*id));
        cd_size += rec.len() as u64;
        archive.extend_from_slice(&rec);
    }
    assert_eq!(cd_size, plan.cd_size, "cd_size mismatch vs planner");
    archive.extend_from_slice(&zip_format::end_records(
        plan.order.len() as u64,
        plan.cd_offset,
        cd_size,
    ));
    assert_eq!(
        archive.len() as u64,
        plan.archive_len(),
        "archive_len mismatch"
    );

    for id in &plan.order {
        let off = plan.entries[&id.0].local_header_offset as usize;
        assert_eq!(
            &archive[off..off + 4],
            &[0x50, 0x4b, 0x03, 0x04],
            "no LFH signature at planned offset for {}",
            plan.entries[&id.0].name
        );
    }

    let mut expected: std::collections::HashSet<String> = plan
        .order
        .iter()
        .map(|id| plan.entries[&id.0].name.clone())
        .collect();
    let mut za = zip::ZipArchive::new(Cursor::new(&archive))
        .expect("segment-chain archive must parse with the standard zip reader");
    assert_eq!(za.len(), plan.order.len());
    for n in za.file_names().map(ToOwned::to_owned).collect::<Vec<_>>() {
        assert!(!n.contains('/'), "flat layout required");
        assert!(expected.remove(&n), "unknown/duplicate entry {n}");
        let mut e = za.by_name(&n).unwrap();
        let mut buf = Vec::new();
        e.read_to_end(&mut buf)
            .expect("extract (CRC verified by reader)");
        assert_eq!(sha256_hex(&buf), n, "content hash must equal entry name");
    }
    assert!(expected.is_empty(), "missing entries: {expected:?}");
}

fn run_case(raw: Vec<Vec<u8>>) {
    let mut plan = plan_segment_chain(files_from_raw(&raw)).unwrap();
    fill_crcs(&mut plan, &raw);
    assemble_and_validate(&plan, &raw);
}

#[test]
fn validate_one_to_one_bigs_and_smalls() {
    let big = PART_FLOOR as usize + 4096;
    let small = 4096usize;
    run_case(vec![
        vec![1u8; big],
        vec![2u8; small],
        vec![3u8; big],
        vec![4u8; small],
        vec![5u8; big],
        vec![6u8; small],
    ]);
}

#[test]
fn validate_spare_smalls_fold_in() {
    let big = PART_FLOOR as usize + 10;
    let s = 1234usize;
    run_case(vec![
        vec![1u8; big],
        vec![2u8; big],
        vec![10u8; s],
        vec![11u8; s],
        vec![12u8; s],
        vec![13u8; s],
        vec![14u8; s],
    ]);
}

#[test]
fn validate_lone_bigs_no_smalls() {
    run_case(vec![
        vec![1u8; PART_FLOOR as usize + 1],
        vec![2u8; PART_FLOOR as usize + 2],
        vec![3u8; PART_FLOOR as usize + 3],
    ]);
}

#[test]
fn validate_single_big_only() {
    run_case(vec![vec![7u8; PART_FLOOR as usize + 999]]);
}

#[test]
fn validate_big_exactly_at_floor() {
    run_case(vec![
        vec![1u8; PART_FLOOR as usize],
        vec![2u8; 2048],
        vec![3u8; PART_FLOOR as usize + 5],
        vec![4u8; 2048],
    ]);
}
