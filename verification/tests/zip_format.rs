use s3_archiving::zip_format::{
    central_dir_entry, central_dir_entry_len, end_records, local_header, local_header_len,
    EntryMeta, METHOD_STORE, SIG_EOCD, SIG_LOCAL, SIG_ZIP64_EOCD, SIG_ZIP64_LOCATOR, U32_MAX,
    VERSION_NEEDED, ZIP64_EXTRA_TAG,
};

fn meta(name: &str, size: u64, crc: u32, off: u64) -> EntryMeta {
    EntryMeta {
        name: name.to_string(),
        size,
        crc,
        local_header_offset: off,
    }
}

#[test]
fn local_header_fixed_fields_and_len() {
    let e = meta("a.txt", 13, 0xDEAD_BEEF, 0);
    let h = local_header(&e);
    assert_eq!(h.len() as u64, local_header_len(&e.name));
    assert_eq!(&h[0..4], &SIG_LOCAL.to_le_bytes());
    assert_eq!(u16::from_le_bytes([h[4], h[5]]), VERSION_NEEDED);
    assert_eq!(u16::from_le_bytes([h[8], h[9]]), METHOD_STORE);
    assert_eq!(
        u32::from_le_bytes([h[14], h[15], h[16], h[17]]),
        0xDEAD_BEEF
    );
    assert_eq!(u32::from_le_bytes([h[18], h[19], h[20], h[21]]), 13); // compressed
    assert_eq!(u32::from_le_bytes([h[22], h[23], h[24], h[25]]), 13); // uncompressed
    assert_eq!(u16::from_le_bytes([h[26], h[27]]), 5); // name len
    assert_eq!(u16::from_le_bytes([h[28], h[29]]), 0); // extra len
    assert_eq!(&h[30..], b"a.txt");
}

#[test]
fn central_no_zip64_when_offset_small() {
    let e = meta("a.txt", 13, 1, 100);
    let c = central_dir_entry(&e);
    assert_eq!(
        c.len() as u64,
        central_dir_entry_len(&e.name, e.local_header_offset)
    );
    assert_eq!(u16::from_le_bytes([c[30], c[31]]), 0); // extra len == 0
    assert_eq!(u32::from_le_bytes([c[42], c[43], c[44], c[45]]), 100); // real offset inline
    assert_eq!(&c[46..], b"a.txt");
}

#[test]
fn central_zip64_when_offset_large() {
    let big = (U32_MAX as u64) + 1; // 4 GiB exactly over the line
    let e = meta("b", 7, 9, big);
    let c = central_dir_entry(&e);
    assert_eq!(c.len() as u64, central_dir_entry_len(&e.name, big));
    assert_eq!(u16::from_le_bytes([c[30], c[31]]), 12); // extra len
    assert_eq!(u32::from_le_bytes([c[42], c[43], c[44], c[45]]), U32_MAX); // sentinel
    // name (1 byte) then extra
    assert_eq!(&c[46..47], b"b");
    let ex = &c[47..];
    assert_eq!(u16::from_le_bytes([ex[0], ex[1]]), ZIP64_EXTRA_TAG);
    assert_eq!(u16::from_le_bytes([ex[2], ex[3]]), 8);
    assert_eq!(u64::from_le_bytes(ex[4..12].try_into().unwrap()), big);
}

#[test]
fn end_records_sizes_and_sentinels() {
    let r = end_records(3000, 14_000_000_000, 200_000);
    assert_eq!(r.len(), 56 + 20 + 22);
    assert_eq!(&r[0..4], &SIG_ZIP64_EOCD.to_le_bytes());
    assert_eq!(u64::from_le_bytes(r[4..12].try_into().unwrap()), 44);
    // total entries in zip64 eocd
    assert_eq!(u64::from_le_bytes(r[32..40].try_into().unwrap()), 3000);
    assert_eq!(u64::from_le_bytes(r[40..48].try_into().unwrap()), 200_000); // cd size
    assert_eq!(
        u64::from_le_bytes(r[48..56].try_into().unwrap()),
        14_000_000_000
    ); // cd offset
    // locator
    let loc = &r[56..76];
    assert_eq!(&loc[0..4], &SIG_ZIP64_LOCATOR.to_le_bytes());
    assert_eq!(
        u64::from_le_bytes(loc[8..16].try_into().unwrap()),
        14_000_000_000 + 200_000
    );
    assert_eq!(u32::from_le_bytes(loc[16..20].try_into().unwrap()), 1);
    // classic eocd sentinels (offset > 4 GiB so sentinel)
    let eo = &r[76..98];
    assert_eq!(&eo[0..4], &SIG_EOCD.to_le_bytes());
    assert_eq!(u32::from_le_bytes(eo[16..20].try_into().unwrap()), U32_MAX); // cd offset sentinel
}
