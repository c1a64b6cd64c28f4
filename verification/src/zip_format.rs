//! Byte layout of a STORE-mode ZIP archive, with ZIP64 where it is needed.
//!
//! Entries are stored, so an entry's compressed and uncompressed size are both the
//! object's length, and every size is known before the first byte is written: no data
//! descriptor is ever needed. A single entry stays under 4 GiB; only the place of an
//! entry in the archive can need 64 bits.

use crate::le_bytes::{le16, le32, le64, p16, p32, p64, push_bytes};
use vstd::prelude::*;
use vstd::utf8::encode_utf8;

verus! {

/// Signature of a local file header.
pub const SIG_LOCAL: u32 = 0x0403_4b50;

/// Signature of a central directory record.
pub const SIG_CENTRAL: u32 = 0x0201_4b50;

/// Signature of the end of central directory record.
pub const SIG_EOCD: u32 = 0x0605_4b50;

/// Signature of the ZIP64 end of central directory record.
pub const SIG_ZIP64_EOCD: u32 = 0x0606_4b50;

/// Signature of the ZIP64 end of central directory locator.
pub const SIG_ZIP64_LOCATOR: u32 = 0x0706_4b50;

/// Tag of the ZIP64 extra field.
pub const ZIP64_EXTRA_TAG: u16 = 0x0001;

/// Version needed to extract: 4.5, the one that brought ZIP64.
pub const VERSION_NEEDED: u16 = 45;

/// Version made by: MS-DOS attributes, format version 4.5.
pub const VERSION_MADE_BY: u16 = 45;

/// Compression method of a stored entry.
pub const METHOD_STORE: u16 = 0;

/// Written into a 32-bit field whose real value stands in a ZIP64 record.
pub const U32_MAX: u32 = 0xFFFF_FFFF;

/// Written into a 16-bit field whose real value stands in a ZIP64 record.
pub const U16_MAX: u16 = 0xFFFF;

/// What an entry's records say of it. `size` is the stored size, `crc` the CRC-32 of the
/// content.
#[derive(Debug, Clone)]
pub struct EntryMeta {
    pub name: String,
    pub size: u64,
    pub crc: u32,
    /// Where the entry's local header starts in the archive. Only the central directory
    /// speaks of it.
    pub local_header_offset: u64,
}

/// The part of a length that a 16-bit field can hold.
pub open spec fn low16(n: nat) -> u16 {
    (n % 0x1_0000) as u16
}

/// The local file header of an entry named `name` (in UTF-8).
#[verifier::opaque]
pub open spec fn local_header_bytes(name: Seq<u8>, size: u64, crc: u32) -> Seq<u8> {
    le32(SIG_LOCAL) + le16(VERSION_NEEDED) + le16(0) + le16(METHOD_STORE) + le16(0) + le16(0)
        + le32(crc) + le32(size as u32) + le32(size as u32) + le16(low16(name.len())) + le16(0)
        + name
}

/// Length of a local file header.
pub open spec fn local_header_span(name: Seq<u8>) -> nat {
    30 + name.len()
}

/// Length of an entry in the archive: its local header and its content.
pub open spec fn entry_span(name: Seq<u8>, size: u64) -> nat {
    local_header_span(name) + size as nat
}

/// Whether an entry at `offset` needs the ZIP64 extra field.
pub open spec fn needs_zip64_offset(offset: u64) -> bool {
    offset > 0xFFFF_FFFF
}

/// The ZIP64 extra field, which holds the entry's place alone.
pub open spec fn zip64_offset_extra(offset: u64) -> Seq<u8> {
    if needs_zip64_offset(offset) {
        le16(ZIP64_EXTRA_TAG) + le16(8) + le64(offset)
    } else {
        Seq::empty()
    }
}

/// The central directory record of an entry named `name` (in UTF-8) whose local header
/// starts at `offset`.
#[verifier::opaque]
pub open spec fn central_dir_entry_bytes(name: Seq<u8>, size: u64, crc: u32, offset: u64) -> Seq<
    u8,
> {
    le32(SIG_CENTRAL) + le16(VERSION_MADE_BY) + le16(VERSION_NEEDED) + le16(0) + le16(METHOD_STORE)
        + le16(0) + le16(0) + le32(crc) + le32(size as u32) + le32(size as u32) + le16(
        low16(name.len()),
    ) + le16(zip64_offset_extra(offset).len() as u16) + le16(0) + le16(0) + le16(0) + le32(0)
        + le32(
        if needs_zip64_offset(offset) {
            U32_MAX
        } else {
            offset as u32
        },
    ) + name + zip64_offset_extra(offset)
}

/// Length of a central directory record.
pub open spec fn central_dir_entry_span(name: Seq<u8>, offset: u64) -> nat {
    46 + name.len() + if needs_zip64_offset(offset) {
        12nat
    } else {
        0nat
    }
}

/// A 16-bit field of the classic end record: the value, or the marker that it is too large.
pub open spec fn or_marker16(v: u64) -> u16 {
    if v >= 0xFFFF {
        U16_MAX
    } else {
        v as u16
    }
}

/// A 32-bit field of the classic end record: the value, or the marker that it is too large.
pub open spec fn or_marker32(v: u64) -> u32 {
    if v >= 0xFFFF_FFFF {
        U32_MAX
    } else {
        v as u32
    }
}

/// The ZIP64 end of central directory record.
pub open spec fn zip64_eocd_bytes(entry_count: u64, cd_offset: u64, cd_size: u64) -> Seq<u8> {
    le32(SIG_ZIP64_EOCD) + le64(44) + le16(VERSION_MADE_BY) + le16(VERSION_NEEDED) + le32(0) + le32(
        0,
    ) + le64(entry_count) + le64(entry_count) + le64(cd_size) + le64(cd_offset)
}

/// The ZIP64 locator, which says where the ZIP64 end record starts.
pub open spec fn zip64_locator_bytes(zip64_eocd_offset: u64) -> Seq<u8> {
    le32(SIG_ZIP64_LOCATOR) + le32(0) + le64(zip64_eocd_offset) + le32(1)
}

/// The classic end of central directory record.
pub open spec fn eocd_bytes(entry_count: u64, cd_offset: u64, cd_size: u64) -> Seq<u8> {
    le32(SIG_EOCD) + le16(0) + le16(0) + le16(or_marker16(entry_count)) + le16(
        or_marker16(entry_count),
    ) + le32(or_marker32(cd_size)) + le32(or_marker32(cd_offset)) + le16(0)
}

/// The three records that end the archive.
#[verifier::opaque]
pub open spec fn end_records_bytes(entry_count: u64, cd_offset: u64, cd_size: u64) -> Seq<u8> {
    zip64_eocd_bytes(entry_count, cd_offset, cd_size) + zip64_locator_bytes(
        (cd_offset + cd_size) as u64,
    ) + eocd_bytes(entry_count, cd_offset, cd_size)
}

/// Length of the three records that end the archive.
pub const END_RECORDS_LEN: u64 = 98;

impl EntryMeta {
    /// The entry's name as it stands in the archive.
    pub open spec fn name_bytes(&self) -> Seq<u8> {
        encode_utf8(self.name@)
    }

    /// The entry's local file header.
    pub open spec fn local_header_spec(&self) -> Seq<u8> {
        local_header_bytes(self.name_bytes(), self.size, self.crc)
    }

    /// The entry's central directory record.
    pub open spec fn central_dir_entry_spec(&self) -> Seq<u8> {
        central_dir_entry_bytes(self.name_bytes(), self.size, self.crc, self.local_header_offset)
    }
}

/// A local header is as long as `local_header_span` says.
pub proof fn local_header_length(name: Seq<u8>, size: u64, crc: u32)
    ensures
        local_header_bytes(name, size, crc).len() == local_header_span(name),
{
    reveal(local_header_bytes);
}

/// A central directory record is as long as `central_dir_entry_span` says.
pub proof fn central_dir_entry_length(name: Seq<u8>, size: u64, crc: u32, offset: u64)
    ensures
        central_dir_entry_bytes(name, size, crc, offset).len() == central_dir_entry_span(
            name,
            offset,
        ),
{
    reveal(central_dir_entry_bytes);
}

proof fn zip64_eocd_length(entry_count: u64, cd_offset: u64, cd_size: u64)
    ensures
        zip64_eocd_bytes(entry_count, cd_offset, cd_size).len() == 56,
{
    assert(le64(44).len() == 8);
    assert(le64(entry_count).len() == 8);
    assert(le64(cd_size).len() == 8);
    assert(le64(cd_offset).len() == 8);
}

proof fn zip64_locator_length(zip64_eocd_offset: u64)
    ensures
        zip64_locator_bytes(zip64_eocd_offset).len() == 20,
{
    assert(le64(zip64_eocd_offset).len() == 8);
}

proof fn eocd_length(entry_count: u64, cd_offset: u64, cd_size: u64)
    ensures
        eocd_bytes(entry_count, cd_offset, cd_size).len() == 22,
{
    assert(le16(or_marker16(entry_count)).len() == 2);
    assert(le32(or_marker32(cd_size)).len() == 4);
    assert(le32(or_marker32(cd_offset)).len() == 4);
}

/// The end records have one fixed length.
pub proof fn end_records_length(entry_count: u64, cd_offset: u64, cd_size: u64)
    ensures
        end_records_bytes(entry_count, cd_offset, cd_size).len() == END_RECORDS_LEN,
{
    let zip64 = zip64_eocd_bytes(entry_count, cd_offset, cd_size);
    let locator = zip64_locator_bytes((cd_offset + cd_size) as u64);
    let classic = eocd_bytes(entry_count, cd_offset, cd_size);
    assert(end_records_bytes(entry_count, cd_offset, cd_size) == zip64 + locator + classic) by {
        reveal(end_records_bytes);
    }
    zip64_eocd_length(entry_count, cd_offset, cd_size);
    zip64_locator_length((cd_offset + cd_size) as u64);
    eocd_length(entry_count, cd_offset, cd_size);
}

/// The length field of a name: what of `len` fits 16 bits.
fn name_len_field(len: usize) -> (field: u16)
    ensures
        field == low16(len as nat),
{
    (len % 0x1_0000) as u16
}

/// Local file header: the bytes that stand right before the entry's content.
pub fn local_header(e: &EntryMeta) -> (header: Vec<u8>)
    requires
        e.size <= U32_MAX,
    ensures
        header@ == e.local_header_spec(),
{
    proof {
        reveal(local_header_bytes);
    }
    let name: &[u8] = e.name.as_str().as_bytes();
    let mut b: Vec<u8> = Vec::new();
    p32(&mut b, SIG_LOCAL);
    assert(b@ =~= le32(SIG_LOCAL));
    p16(&mut b, VERSION_NEEDED);
    p16(&mut b, 0);
    p16(&mut b, METHOD_STORE);
    p16(&mut b, 0);
    p16(&mut b, 0);
    p32(&mut b, e.crc);
    p32(&mut b, e.size as u32);
    p32(&mut b, e.size as u32);
    p16(&mut b, name_len_field(name.len()));
    p16(&mut b, 0);
    push_bytes(&mut b, name);
    b
}

/// Length of a local header, without building it.
pub fn local_header_len(name: &str) -> (len: u64)
    requires
        local_header_span(encode_utf8(name@)) <= u64::MAX,
    ensures
        len == local_header_span(encode_utf8(name@)),
{
    let bytes: &[u8] = name.as_bytes();
    30 + bytes.len() as u64
}

/// Bytes that an entry takes in the archive: its local header and its content.
pub fn entry_total_len(e_name: &str, size: u64) -> (len: u64)
    requires
        entry_span(encode_utf8(e_name@), size) <= u64::MAX,
    ensures
        len == entry_span(encode_utf8(e_name@), size),
{
    local_header_len(e_name) + size
}

/// Central directory record of one entry. An offset past 4 GiB goes into a ZIP64 extra
/// field, and the 32-bit offset field holds the marker.
pub fn central_dir_entry(e: &EntryMeta) -> (record: Vec<u8>)
    requires
        e.size <= U32_MAX,
    ensures
        record@ == e.central_dir_entry_spec(),
{
    proof {
        reveal(central_dir_entry_bytes);
    }
    let name: &[u8] = e.name.as_str().as_bytes();
    let wide: bool = e.local_header_offset > U32_MAX as u64;
    let extra_len: u16 = if wide {
        12
    } else {
        0
    };
    let mut b: Vec<u8> = Vec::new();
    p32(&mut b, SIG_CENTRAL);
    assert(b@ =~= le32(SIG_CENTRAL));
    p16(&mut b, VERSION_MADE_BY);
    p16(&mut b, VERSION_NEEDED);
    p16(&mut b, 0);
    p16(&mut b, METHOD_STORE);
    p16(&mut b, 0);
    p16(&mut b, 0);
    p32(&mut b, e.crc);
    p32(&mut b, e.size as u32);
    p32(&mut b, e.size as u32);
    p16(&mut b, name_len_field(name.len()));
    p16(&mut b, extra_len);
    p16(&mut b, 0);
    p16(&mut b, 0);
    p16(&mut b, 0);
    p32(&mut b, 0);
    if wide {
        p32(&mut b, U32_MAX);
    } else {
        p32(&mut b, e.local_header_offset as u32);
    }
    push_bytes(&mut b, name);
    let ghost before = b@;
    if wide {
        p16(&mut b, ZIP64_EXTRA_TAG);
        p16(&mut b, 8);
        p64(&mut b, e.local_header_offset);
    }
    assert(b@ =~= before + zip64_offset_extra(e.local_header_offset));
    b
}

/// Length of a central directory record, without building it.
pub fn central_dir_entry_len(name: &str, local_header_offset: u64) -> (len: u64)
    requires
        central_dir_entry_span(encode_utf8(name@), local_header_offset) <= u64::MAX,
    ensures
        len == central_dir_entry_span(encode_utf8(name@), local_header_offset),
{
    let bytes: &[u8] = name.as_bytes();
    let extra: u64 = if local_header_offset > U32_MAX as u64 {
        12
    } else {
        0
    };
    46 + bytes.len() as u64 + extra
}

/// ZIP64 end of central directory record.
fn zip64_eocd(entry_count: u64, cd_offset: u64, cd_size: u64) -> (record: Vec<u8>)
    ensures
        record@ == zip64_eocd_bytes(entry_count, cd_offset, cd_size),
{
    let mut b: Vec<u8> = Vec::new();
    p32(&mut b, SIG_ZIP64_EOCD);
    assert(b@ =~= le32(SIG_ZIP64_EOCD));
    p64(&mut b, 44);
    p16(&mut b, VERSION_MADE_BY);
    p16(&mut b, VERSION_NEEDED);
    p32(&mut b, 0);
    p32(&mut b, 0);
    p64(&mut b, entry_count);
    p64(&mut b, entry_count);
    p64(&mut b, cd_size);
    p64(&mut b, cd_offset);
    b
}

/// ZIP64 end of central directory locator.
fn zip64_locator(zip64_eocd_offset: u64) -> (record: Vec<u8>)
    ensures
        record@ == zip64_locator_bytes(zip64_eocd_offset),
{
    let mut b: Vec<u8> = Vec::new();
    p32(&mut b, SIG_ZIP64_LOCATOR);
    assert(b@ =~= le32(SIG_ZIP64_LOCATOR));
    p32(&mut b, 0);
    p64(&mut b, zip64_eocd_offset);
    p32(&mut b, 1);
    b
}

/// Classic end of central directory record.
fn eocd(entry_count: u64, cd_offset: u64, cd_size: u64) -> (record: Vec<u8>)
    ensures
        record@ == eocd_bytes(entry_count, cd_offset, cd_size),
{
    let count_field: u16 = if entry_count >= U16_MAX as u64 {
        U16_MAX
    } else {
        entry_count as u16
    };
    let size_field: u32 = if cd_size >= U32_MAX as u64 {
        U32_MAX
    } else {
        cd_size as u32
    };
    let offset_field: u32 = if cd_offset >= U32_MAX as u64 {
        U32_MAX
    } else {
        cd_offset as u32
    };
    let mut b: Vec<u8> = Vec::new();
    p32(&mut b, SIG_EOCD);
    assert(b@ =~= le32(SIG_EOCD));
    p16(&mut b, 0);
    p16(&mut b, 0);
    p16(&mut b, count_field);
    p16(&mut b, count_field);
    p32(&mut b, size_field);
    p32(&mut b, offset_field);
    p16(&mut b, 0);
    b
}

/// The trailer: ZIP64 end record, ZIP64 locator, classic end record. The ZIP64 pair is
/// always there; the classic record holds a marker for each value too large for it.
pub fn end_records(entry_count: u64, cd_offset: u64, cd_size: u64) -> (records: Vec<u8>)
    requires
        cd_offset + cd_size <= u64::MAX,
    ensures
        records@ == end_records_bytes(entry_count, cd_offset, cd_size),
{
    proof {
        reveal(end_records_bytes);
    }
    let mut b: Vec<u8> = zip64_eocd(entry_count, cd_offset, cd_size);
    let mut locator: Vec<u8> = zip64_locator(cd_offset + cd_size);
    let mut classic: Vec<u8> = eocd(entry_count, cd_offset, cd_size);
    b.append(&mut locator);
    b.append(&mut classic);
    b
}

/// The fields of the classic end record hold their values as long as these are below the
/// marker, and the marker otherwise; an entry's place goes to a ZIP64 field exactly where 32
/// bits do not hold it.
pub proof fn fields_hold_what_fits(v: u64)
    ensures
        v < u16::MAX ==> or_marker16(v) == v,
        v >= u16::MAX ==> or_marker16(v) == u16::MAX,
        v < u32::MAX ==> or_marker32(v) == v,
        v >= u32::MAX ==> or_marker32(v) == u32::MAX,
        zip64_offset_extra(v).len() > 0 <==> v > u32::MAX,
{
}

} // verus!
