use s3_archiving::plan::{
    plan_single_mpu, FileId, PartSpec, Segment, SinglePlan, SingleRouting, SourceFile, PART_FLOOR,
};
use s3_archiving::zip_format::{self, EntryMeta};
use sha2::{Digest, Sha256};
use std::collections::HashSet;
use std::io::{Cursor, Read};

// ===================================================================================
// Single-MPU alternating copy / stream-batch / steal layout. Each test builds the archive
// straight from the part list (exactly as the assembler would) via `assemble_and_validate`,
// then validates with the real zip reader. One MPU, no chains, no H blob.
// ===================================================================================

fn crc32(b: &[u8]) -> u32 {
    let mut h = crc32fast::Hasher::new();
    h.update(b);
    h.finalize()
}

fn sha256_hex(b: &[u8]) -> String {
    let mut h = Sha256::new();
    h.update(b);
    let d = h.finalize();
    let mut s = String::with_capacity(64);
    for x in d {
        s.push_str(&format!("{:02x}", x));
    }
    s
}

// Build SourceFiles from raw blobs. Each file's NAME is the sha256 of its content, so the zip
// reader's extracted-content hash must equal the entry name — a self-checking fixture.
fn files_from_raw(raw: &[Vec<u8>]) -> Vec<SourceFile> {
    (0..raw.len())
        .map(|i| {
            let name = sha256_hex(&raw[i]);
            SourceFile {
                id: FileId(i as u32),
                key: format!("files/{name}"),
                name,
                size: raw[i].len() as u64,
            }
        })
        .collect()
}

fn plan_or_panic(raw: &[Vec<u8>]) -> SinglePlan {
    match plan_single_mpu(files_from_raw(raw)) {
        SingleRouting::SingleMpu(p) => p,
        SingleRouting::Fallback => panic!("expected single-MPU fast path"),
    }
}

// Phase-1 stand-in: fill CRCs for the copyable (server-side-copied) bigs from raw content.
// Streamed entries (smalls, folded bigs) self-compute their CRC in the harness below.
fn fill_crcs_from_raw(plan: &mut SinglePlan, raw: &[Vec<u8>]) {
    for id in plan.copyable.clone() {
        if let Some(e) = plan.entries.get_mut(&id.0) {
            e.crc = Some(crc32(&raw[id.0 as usize]));
        }
    }
}

// Realise the plan's parts into archive bytes exactly as the assembler does, expanding the
// CentralDirectory segment inline. Asserts: every non-last part clears the 5 MiB floor; the
// directory is the LAST segment of the LAST part; the entry region ends exactly at cd_offset;
// and the result parses + extracts cleanly under the standard zip reader (CRCs verified).
fn assemble_and_validate(plan: &SinglePlan, raw: &[Vec<u8>]) {

    let meta = |id: FileId| -> EntryMeta {
        let e = &plan.entries[&id.0];
        let crc = e.crc.unwrap_or_else(|| crc32(&raw[id.0 as usize]));
        EntryMeta {
            name: e.name.clone(),
            size: e.size,
            crc,
            local_header_offset: e.local_header_offset,
        }
    };

    let mut cd_offset = 0u64;
    for id in &plan.order {
        let e = &plan.entries[&id.0];
        cd_offset += zip_format::entry_total_len(&e.name, e.size);
    }
    let build_directory = || -> Vec<u8> {
        let mut out = Vec::new();
        let mut cd_size = 0u64;
        for id in &plan.order {
            let rec = zip_format::central_dir_entry(&meta(*id));
            cd_size += rec.len() as u64;
            out.extend_from_slice(&rec);
        }
        out.extend_from_slice(&zip_format::end_records(
            plan.order.len() as u64,
            cd_offset,
            cd_size,
        ));
        out
    };

    let mut archive: Vec<u8> = Vec::new();
    let mut saw_directory = false;
    let nparts = plan.parts.len();
    for (pi, part) in plan.parts.iter().enumerate() {
        let before = archive.len();
        match part {
            PartSpec::Copy { id, copy_from, .. } => {
                archive.extend_from_slice(&raw[id.0 as usize][*copy_from as usize..]);
            }
            PartSpec::Stream { segments, .. } => {
                for seg in segments {
                    match seg {
                        Segment::StreamedFile { id } => {
                            archive.extend_from_slice(&zip_format::local_header(&meta(*id)));
                            archive.extend_from_slice(&raw[id.0 as usize]);
                        }
                        Segment::CopiedFileHeader { id } => {
                            archive.extend_from_slice(&zip_format::local_header(&meta(*id)));
                        }
                        Segment::StreamedBigPrefix { id, len } => {
                            archive.extend_from_slice(&raw[id.0 as usize][..*len as usize]);
                        }
                        Segment::CentralDirectory => {
                            assert!(
                                pi + 1 == nparts,
                                "CentralDirectory must be in the last part, found in part {}",
                                pi + 1
                            );
                            assert_eq!(
                                archive.len() as u64,
                                cd_offset,
                                "entry region ({}) != cd_offset ({}) at directory point",
                                archive.len(),
                                cd_offset
                            );
                            archive.extend_from_slice(&build_directory());
                            saw_directory = true;
                        }
                    }
                }
            }
        }
        let part_len = (archive.len() - before) as u64;
        if pi + 1 < nparts {
            assert!(
                part_len >= PART_FLOOR,
                "non-last part {} is {} bytes, below the 5 MiB floor",
                pi + 1,
                part_len
            );
        }
    }
    assert!(saw_directory, "plan emitted no CentralDirectory segment");

    let mut expected: HashSet<String> = plan
        .order
        .iter()
        .map(|id| plan.entries[&id.0].name.clone())
        .collect();
    let mut za = zip::ZipArchive::new(Cursor::new(&archive))
        .expect("single-MPU archive must parse with the standard zip reader");
    assert_eq!(za.len(), plan.order.len());
    for n in za.file_names().map(ToOwned::to_owned).collect::<Vec<_>>() {
        assert!(!n.contains('/'), "flat layout required");
        assert!(expected.remove(&n), "unknown/duplicate {n}");
        let mut entry = za.by_name(&n).unwrap();
        let mut buf = Vec::new();
        entry
            .read_to_end(&mut buf)
            .expect("extract (CRC verified by reader)");
        assert_eq!(&sha256_hex(&buf), &n, "content hash == name");
    }
    assert!(expected.is_empty(), "missing entries: {expected:?}");
}

// Is `id` a small (sub-floor source file)? Used by the steal-invariant scan.
fn is_small(plan: &SinglePlan, id: FileId) -> bool {
    plan.entries[&id.0].size < PART_FLOOR
}

// ---- Basic layout: smalls batch 2-per-part to clear the floor (no steal needed). One odd
// leftover small must end up in the final part WITH the directory. ----
#[test]
fn single_mpu_layout_matches_directory_offsets() {
    let big = PART_FLOOR as usize + 77;
    let small = (PART_FLOOR as usize / 2) + 1000; // two smalls > floor; one alone < floor
    let raw: Vec<Vec<u8>> = vec![
        vec![1u8; big],
        vec![2u8; small],
        vec![3u8; small],
        vec![4u8; big],
        vec![5u8; small],
        vec![6u8; small],
        vec![7u8; big],
        vec![8u8; small],
        vec![9u8; small],
        vec![10u8; small], // odd leftover small -> rides with the directory in the final part
    ];
    let mut plan = plan_or_panic(&raw);
    // These bigs are floor-huggers (max_steal = 77 B), so they cannot self-donate; the batch
    // clears the floor with two smalls and the big is copied whole. No steal expected.
    assert_eq!(
        plan.stats.stolen_bigs, 0,
        "floor-hugger bigs should not steal"
    );
    assert_eq!(
        plan.stats.folded_bigs, 0,
        "two smalls clear the floor; nothing folds"
    );
    fill_crcs_from_raw(&mut plan, &raw);
    assemble_and_validate(&plan, &raw);
}

// ---- Smalls run out while bigs remain: with no small to ride, the remaining bigs FOLD
// (streamed whole) rather than steal — they must never produce an undersized non-last part. ----
#[test]
fn single_mpu_handles_smalls_exhausted_early() {
    // Floor-hugger bigs (cannot donate) + a single small. The first big folds carrying the
    // small; the rest fold bare. All folds are >= floor (big body alone exceeds the floor).
    let big = PART_FLOOR as usize + 100;
    let small = PART_FLOOR as usize / 2;
    let raw: Vec<Vec<u8>> = vec![
        vec![1u8; big],
        vec![2u8; big],
        vec![3u8; big],
        vec![4u8; big],
        vec![5u8; small],
    ];
    let mut plan = plan_or_panic(&raw);
    assert!(
        plan.stats.folded_bigs > 0,
        "expected folds when smalls are exhausted"
    );
    fill_crcs_from_raw(&mut plan, &raw);
    assemble_and_validate(&plan, &raw);
}

// ---- Steal: a small alone is below the floor, but each big can donate a prefix to bridge it,
// so every big is COPIED (ranged remainder), none folded. ----
#[test]
fn single_mpu_steals_big_prefix_to_clear_floor() {
    let big = (PART_FLOOR + PART_FLOOR / 2) as usize; // max_steal = 0.5 floor
    let small = (PART_FLOOR * 3 / 5) as usize; // 0.6 floor: one small alone < floor
    let raw: Vec<Vec<u8>> = vec![
        vec![1u8; big],
        vec![2u8; small],
        vec![3u8; big],
        vec![4u8; small],
        vec![5u8; big],
        vec![6u8; small],
        vec![7u8; big],
        vec![8u8; small],
    ];
    let mut plan = plan_or_panic(&raw);
    assert_eq!(
        plan.stats.folded_bigs, 0,
        "no big should fold when all can donate a prefix"
    );
    assert!(
        plan.stats.stolen_bigs > 0,
        "expected ranged-copy steals, got none"
    );
    assert!(
        plan.parts
            .iter()
            .any(|p| matches!(p, PartSpec::Copy { copy_from, .. } if *copy_from > 0)),
        "expected at least one ranged copy (copy_from > 0)"
    );
    fill_crcs_from_raw(&mut plan, &raw);
    assemble_and_validate(&plan, &raw);
}

// ---- INVARIANT (clarified): an AVAILABLE small is never wasted by stealing in its place. A
// small must cross the ENI regardless, so while smalls remain, the bridging part consumes one
// and the steal covers only the residual gap — never a bare `[hBig][prefix]` that strands a
// usable small. (Bare steals are allowed only once smalls are exhausted; the steal and
// smalls-exhausted tests cover that.) Here smalls outnumber bigs, so none run out mid-loop and
// every steal part must carry a small; a greedy bare-steal would fail the scan. ----
#[test]
fn single_mpu_uses_available_small_before_stealing() {
    let big = (PART_FLOOR + PART_FLOOR / 2) as usize; // donatable (max_steal = 0.5 floor)
    let small = (PART_FLOOR * 3 / 5) as usize; // 0.6 floor: one alone < floor
    let raw: Vec<Vec<u8>> = vec![
        vec![1u8; big],
        vec![2u8; small],
        vec![3u8; small],
        vec![4u8; big],
        vec![5u8; small],
        vec![6u8; small],
        vec![7u8; big],
        vec![8u8; small],
        vec![9u8; small],
        vec![10u8; big],
        vec![11u8; small],
        vec![12u8; small],
    ];
    let plan = plan_or_panic(&raw);

    assert!(
        plan.stats.stolen_bigs >= 1,
        "expected steals on donatable bigs"
    );
    assert_eq!(
        plan.stats.folded_bigs, 0,
        "donatable bigs must not fold while smalls are available"
    );

    // Every steal part must also stream a small (consumed before the steal). With smalls
    // plentiful none run out, so a bare steal here would mean a wasted available small.
    for part in &plan.parts {
        if let PartSpec::Stream { segments, .. } = part {
            let has_prefix = segments
                .iter()
                .any(|s| matches!(s, Segment::StreamedBigPrefix { .. }));
            if has_prefix {
                let has_small = segments
                    .iter()
                    .any(|s| matches!(s, Segment::StreamedFile { id } if is_small(&plan, *id)));
                assert!(
                    has_small,
                    "a steal part carries no small, but smalls were available — wasted small"
                );
            }
        }
    }

    let mut plan = plan;
    fill_crcs_from_raw(&mut plan, &raw);
    assemble_and_validate(&plan, &raw);
}

// ---- INVARIANT (requested): trailing leftovers ride WITH the directory. A sub-floor odd
// leftover small must not form a standalone (undersized, non-last) part — it must sit in the
// final part alongside the CentralDirectory, which is the genuine last (floor-exempt) part. ----
#[test]
fn single_mpu_trailing_leftovers_ride_with_directory() {
    let big = PART_FLOOR as usize + 77; // floor-hugger: cleared by two smalls, copied whole
    let small = (PART_FLOOR as usize / 2) + 1000; // two > floor, one < floor
    // Sized past the viability floor (4 x PART_FLOOR). Three bigs each consume two smalls; the
    // 7th small (id 9) is the odd leftover that must ride with the directory.
    let raw: Vec<Vec<u8>> = vec![
        vec![1u8; big],
        vec![2u8; small],
        vec![3u8; small],
        vec![4u8; big],
        vec![5u8; small],
        vec![6u8; small],
        vec![7u8; big],
        vec![8u8; small],
        vec![9u8; small],
        vec![10u8; small], // odd leftover small -> must ride with the directory
    ];
    let plan = plan_or_panic(&raw);

    // Exactly one CentralDirectory, and it is the LAST segment of the LAST part.
    let dir_count: usize = plan
        .parts
        .iter()
        .map(|p| match p {
            PartSpec::Stream { segments, .. } => segments
                .iter()
                .filter(|s| matches!(s, Segment::CentralDirectory))
                .count(),
            _ => 0,
        })
        .sum();
    assert_eq!(
        dir_count, 1,
        "exactly one CentralDirectory segment expected"
    );

    let last = plan.parts.last().expect("at least one part");
    let last_segs = match last {
        PartSpec::Stream { segments, .. } => segments,
        _ => panic!("final part must be a Stream part carrying the directory"),
    };
    assert!(
        matches!(last_segs.last(), Some(Segment::CentralDirectory)),
        "directory must be the final segment of the final part"
    );

    // The odd leftover small (id 9) must live in that final part, not in a standalone part.
    let leftover = FileId(9);
    let in_final = last_segs
        .iter()
        .any(|s| matches!(s, Segment::StreamedFile { id } if *id == leftover));
    assert!(
        in_final,
        "leftover small must ride in the final (directory) part"
    );

    let mut plan = plan;
    fill_crcs_from_raw(&mut plan, &raw);
    // assemble_and_validate also asserts every non-last part >= floor, so a mis-placed
    // sub-floor leftover would fail here.
    assemble_and_validate(&plan, &raw);
}
