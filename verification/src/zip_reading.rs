//! What a reader finds in an archive.
//!
//! A reader starts at the end: the end record, or the ZIP64 end record where the end record
//! says that a value did not fit, tells how many directory records there are and where they
//! start. Each record names its entry and tells where its local header stands, and the
//! content follows the local header. The archives that this library makes hold their entries
//! as they are, so a reader takes the content as it stands.

use crate::le_bytes::{
    le16, le16_round_trip, le32, le32_round_trip, le64, le64_round_trip, le_value,
};
use crate::zip_format::{
    central_dir_entry_bytes, central_dir_entry_length, central_dir_entry_span, end_records_bytes,
    eocd_bytes, local_header_bytes, local_header_length, local_header_span,
    low16, needs_zip64_offset, or_marker16, or_marker32, zip64_eocd_bytes, zip64_locator_bytes, zip64_offset_extra,
    METHOD_STORE, SIG_CENTRAL, SIG_EOCD, SIG_LOCAL, SIG_ZIP64_EOCD, SIG_ZIP64_LOCATOR,
    VERSION_MADE_BY, VERSION_NEEDED,
};
use vstd::prelude::*;

verus! {

/// The number in a field of `width` bytes.
pub open spec fn field(bytes: Seq<u8>, at: int, width: int) -> nat {
    le_value(bytes.subrange(at, at + width))
}

/// Whether a record with this signature, and of at least this length, stands at `at`.
pub open spec fn record_at(bytes: Seq<u8>, at: int, signature: u32, len: int) -> bool {
    0 <= at && at + len <= bytes.len() && field(bytes, at, 4) == signature
}

/// The value of a 32-bit field whose real value stands in a ZIP64 record.
pub const MARK32: u32 = 0xFFFF_FFFF;

/// The data of an extra field, where it is a ZIP64 one.
pub open spec fn zip64_data(extra: Seq<u8>) -> Seq<u8> {
    if extra.len() >= 4 && field(extra, 0, 2) == 1 && 4 + field(extra, 2, 2) <= extra.len() {
        extra.subrange(4, 4 + field(extra, 2, 2) as int)
    } else {
        Seq::empty()
    }
}

/// A value that may be too large for its field: then it stands in the ZIP64 data.
pub open spec fn wide_value(narrow: nat, data: Seq<u8>, at: int) -> nat {
    if narrow == MARK32 && at + 8 <= data.len() {
        field(data, at, 8)
    } else {
        narrow
    }
}

/// What a directory record says.
pub struct ReadRecord {
    pub name: Seq<u8>,
    pub crc: nat,
    pub size: nat,
    /// Where the local header stands.
    pub offset: nat,
    /// Length of the record.
    pub span: nat,
}

/// The directory record at `at`, of an entry that is stored as it is.
pub open spec fn read_record(archive: Seq<u8>, at: int) -> Option<ReadRecord> {
    let name_len = field(archive, at + 28, 2) as int;
    let extra_len = field(archive, at + 30, 2) as int;
    let comment_len = field(archive, at + 32, 2) as int;
    let span = 46 + name_len + extra_len + comment_len;
    let data = zip64_data(archive.subrange(at + 46 + name_len, at + 46 + name_len + extra_len));
    let packed = field(archive, at + 20, 4);
    let size = field(archive, at + 24, 4);
    let packed_at = if size == MARK32 {
        8int
    } else {
        0
    };
    let offset_at = if packed == MARK32 {
        packed_at + 8
    } else {
        packed_at
    };
    if !record_at(archive, at, SIG_CENTRAL, 46) || at + span > archive.len() || field(
        archive,
        at + 10,
        2,
    ) != 0 || wide_value(packed, data, packed_at) != wide_value(size, data, 0) {
        None
    } else {
        Some(
            ReadRecord {
                name: archive.subrange(at + 46, at + 46 + name_len),
                crc: field(archive, at + 16, 4),
                size: wide_value(size, data, 0),
                offset: wide_value(field(archive, at + 42, 4), data, offset_at),
                span: span as nat,
            },
        )
    }
}

/// The content behind the local header that a record points to. The header has to be of the
/// same name.
pub open spec fn read_content(archive: Seq<u8>, record: ReadRecord) -> Option<Seq<u8>> {
    let at = record.offset as int;
    let name_len = field(archive, at + 26, 2) as int;
    let from = at + 30 + name_len + field(archive, at + 28, 2);
    if !record_at(archive, at, SIG_LOCAL, 30) || field(archive, at + 8, 2) != 0 || from
        + record.size > archive.len() || archive.subrange(at + 30, at + 30 + name_len)
        != record.name {
        None
    } else {
        Some(archive.subrange(from, from + record.size))
    }
}

/// An entry as a reader finds it.
#[verifier::ext_equal]
pub struct ZipEntry {
    pub name: Seq<u8>,
    pub crc: nat,
    pub content: Seq<u8>,
}

/// The entries of the `n` directory records from `at` on.
pub open spec fn read_entries(archive: Seq<u8>, at: int, n: nat) -> Option<Seq<ZipEntry>>
    decreases n,
{
    if n == 0 {
        Some(Seq::empty())
    } else {
        match read_record(archive, at) {
            None => None,
            Some(record) => match (
                read_content(archive, record),
                read_entries(archive, at + record.span, (n - 1) as nat),
            ) {
                (Some(content), Some(rest)) => Some(
                    seq![ZipEntry { name: record.name, crc: record.crc, content }] + rest,
                ),
                _ => None,
            },
        }
    }
}

/// The entries of an archive.
pub open spec fn read_archive(archive: Seq<u8>) -> Option<Seq<ZipEntry>> {
    let end = archive.len() - 22;
    let count = field(archive, end + 10, 2);
    let size = field(archive, end + 12, 4);
    let offset = field(archive, end + 16, 4);
    if !record_at(archive, end, SIG_EOCD, 22) {
        None
    } else if (count == 0xFFFF || size == MARK32 || offset == MARK32) && record_at(
        archive,
        end - 20,
        SIG_ZIP64_LOCATOR,
        20,
    ) {
        let wide = field(archive, end - 12, 8) as int;
        if record_at(archive, wide, SIG_ZIP64_EOCD, 56) {
            read_entries(archive, field(archive, wide + 48, 8) as int, field(archive, wide + 32, 8))
        } else {
            None
        }
    } else {
        read_entries(archive, offset as int, count)
    }
}

/// A field that stands in a part of some bytes stands in the bytes.
pub(crate) proof fn lemma_field_inside(bytes: Seq<u8>, at: int, part: Seq<u8>, i: int, width: int)
    requires
        0 <= at,
        at + part.len() <= bytes.len(),
        bytes.subrange(at, at + part.len()) == part,
        0 <= i,
        0 <= width,
        i + width <= part.len(),
    ensures
        field(bytes, at + i, width) == field(part, i, width),
        bytes.subrange(at + i, at + i + width) == part.subrange(i, i + width),
{
    assert(bytes.subrange(at + i, at + i + width) =~= part.subrange(i, i + width));
}

pub(crate) proof fn lemma_field16(bytes: Seq<u8>, i: int, v: u16)
    requires
        0 <= i,
        i + 2 <= bytes.len(),
        bytes[i] == le16(v)[0],
        bytes[i + 1] == le16(v)[1],
    ensures
        field(bytes, i, 2) == v,
{
    le16_round_trip(v);
    assert(bytes.subrange(i, i + 2) =~= le16(v));
}

pub(crate) proof fn lemma_field32(bytes: Seq<u8>, i: int, v: u32)
    requires
        0 <= i,
        i + 4 <= bytes.len(),
        forall|k: int| 0 <= k < 4 ==> bytes[i + k] == #[trigger] le32(v)[k],
    ensures
        field(bytes, i, 4) == v,
{
    le32_round_trip(v);
    assert(bytes.subrange(i, i + 4) =~= le32(v));
}

pub(crate) proof fn lemma_field64(bytes: Seq<u8>, i: int, v: u64)
    requires
        0 <= i,
        i + 8 <= bytes.len(),
        bytes.subrange(i, i + 8) == le64(v),
    ensures
        field(bytes, i, 8) == v,
{
    le64_round_trip(v);
}

/// The fields of a local header.
proof fn lemma_local_fields(name: Seq<u8>, size: u64, crc: u32)
    requires
        name.len() < 0x1_0000,
    ensures
        ({
            let b = local_header_bytes(name, size, crc);
            &&& b.len() == 30 + name.len()
            &&& field(b, 0, 4) == SIG_LOCAL
            &&& field(b, 8, 2) == 0
            &&& field(b, 26, 2) == name.len()
            &&& field(b, 28, 2) == 0
            &&& b.subrange(30, 30 + name.len() as int) == name
        }),
{
    reveal(local_header_bytes);
    let b = local_header_bytes(name, size, crc);
    lemma_field32(b, 0, SIG_LOCAL);
    lemma_field16(b, 8, 0);
    lemma_field16(b, 26, low16(name.len()));
    lemma_field16(b, 28, 0);
    assert(b.subrange(30, 30 + name.len() as int) =~= name);
}

/// The fields of a directory record.
proof fn lemma_central_fields(name: Seq<u8>, size: u64, crc: u32, offset: u64)
    requires
        name.len() < 0x1_0000,
        size <= 0xFFFF_FFFF,
    ensures
        ({
            let b = central_dir_entry_bytes(name, size, crc, offset);
            let extra = zip64_offset_extra(offset);
            &&& b.len() == central_dir_entry_span(name, offset)
            &&& field(b, 0, 4) == SIG_CENTRAL
            &&& field(b, 10, 2) == 0
            &&& field(b, 16, 4) == crc
            &&& field(b, 20, 4) == size
            &&& field(b, 24, 4) == size
            &&& field(b, 28, 2) == name.len()
            &&& field(b, 30, 2) == extra.len()
            &&& field(b, 32, 2) == 0
            &&& field(b, 42, 4) == (if needs_zip64_offset(offset) {
                MARK32 as u64
            } else {
                offset
            })
            &&& b.subrange(46, 46 + name.len() as int) == name
            &&& b.subrange(46 + name.len() as int, b.len() as int) == extra
        }),
{
    let b = central_dir_entry_bytes(name, size, crc, offset);
    let extra = zip64_offset_extra(offset);
    let offset32 = if needs_zip64_offset(offset) {
        MARK32
    } else {
        offset as u32
    };
    let first = le32(SIG_CENTRAL) + le16(VERSION_MADE_BY) + le16(VERSION_NEEDED) + le16(0) + le16(
        METHOD_STORE,
    ) + le16(0) + le16(0);
    let second = le32(crc) + le32(size as u32) + le32(size as u32);
    let third = le16(low16(name.len())) + le16(extra.len() as u16) + le16(0) + le16(0) + le16(0)
        + le32(0) + le32(offset32);
    assert(b == first + second + third + name + extra) by {
        reveal(central_dir_entry_bytes);
        assert(b =~= first + second + third + name + extra);
    }
    lemma_field32(first, 0, SIG_CENTRAL);
    lemma_field16(first, 10, 0);
    lemma_field32(second, 0, crc);
    lemma_field32(second, 4, size as u32);
    lemma_field32(second, 8, size as u32);
    lemma_field16(third, 0, low16(name.len()));
    lemma_field16(third, 2, extra.len() as u16);
    lemma_field16(third, 4, 0);
    lemma_field32(third, 14, offset32);
    lemma_five_parts(first, second, third, name, extra);
    lemma_field_inside(b, 0, first, 0, 4);
    lemma_field_inside(b, 0, first, 10, 2);
    lemma_field_inside(b, 16, second, 0, 4);
    lemma_field_inside(b, 16, second, 4, 4);
    lemma_field_inside(b, 16, second, 8, 4);
    lemma_field_inside(b, 28, third, 0, 2);
    lemma_field_inside(b, 28, third, 2, 2);
    lemma_field_inside(b, 28, third, 4, 2);
    lemma_field_inside(b, 28, third, 14, 4);
}

/// Where the parts of a concatenation stand.
pub(crate) proof fn lemma_five_parts(a: Seq<u8>, b: Seq<u8>, c: Seq<u8>, d: Seq<u8>, e: Seq<u8>)
    ensures
        ({
            let all = a + b + c + d + e;
            let at_b = a.len() as int;
            let at_c = at_b + b.len();
            let at_d = at_c + c.len();
            let at_e = at_d + d.len();
            &&& all.len() == at_e + e.len()
            &&& all.subrange(0, at_b) == a
            &&& all.subrange(at_b, at_c) == b
            &&& all.subrange(at_c, at_d) == c
            &&& all.subrange(at_d, at_e) == d
            &&& all.subrange(at_e, all.len() as int) == e
        }),
{
    let all = a + b + c + d + e;
    let at_b = a.len() as int;
    let at_c = at_b + b.len();
    let at_d = at_c + c.len();
    let at_e = at_d + d.len();
    assert(all.subrange(0, at_b) =~= a);
    assert(all.subrange(at_b, at_c) =~= b);
    assert(all.subrange(at_c, at_d) =~= c);
    assert(all.subrange(at_d, at_e) =~= d);
    assert(all.subrange(at_e, all.len() as int) =~= e);
}

/// The data of the extra field that holds an entry's place.
proof fn lemma_offset_extra(offset: u64)
    ensures
        needs_zip64_offset(offset) ==> zip64_data(zip64_offset_extra(offset)).len() == 8 && field(
            zip64_data(zip64_offset_extra(offset)),
            0,
            8,
        ) == offset,
        !needs_zip64_offset(offset) ==> zip64_data(zip64_offset_extra(offset)).len() == 0,
{
    if needs_zip64_offset(offset) {
        let extra = zip64_offset_extra(offset);
        lemma_field16(extra, 0, 1);
        lemma_field16(extra, 2, 8);
        let data = zip64_data(extra);
        assert(data =~= le64(offset));
        assert(data.subrange(0, 8) =~= le64(offset));
        lemma_field64(data, 0, offset);
    }
}

/// A directory record that stands in an archive says what it was made of.
proof fn lemma_record_read(
    archive: Seq<u8>,
    at: int,
    name: Seq<u8>,
    size: u64,
    crc: u32,
    offset: u64,
)
    requires
        name.len() < 0x1_0000,
        size <= 0xFFFF_FFFF,
        needs_zip64_offset(offset) ==> size < 0xFFFF_FFFF,
        0 <= at,
        at + central_dir_entry_span(name, offset) <= archive.len(),
        archive.subrange(at, at + central_dir_entry_span(name, offset))
            == central_dir_entry_bytes(name, size, crc, offset),
    ensures
        read_record(archive, at) == Some(
            ReadRecord {
                name,
                crc: crc as nat,
                size: size as nat,
                offset: offset as nat,
                span: central_dir_entry_span(name, offset),
            },
        ),
{
    let b = central_dir_entry_bytes(name, size, crc, offset);
    lemma_central_fields(name, size, crc, offset);
    lemma_offset_extra(offset);
    lemma_field_inside(archive, at, b, 0, 4);
    lemma_field_inside(archive, at, b, 10, 2);
    lemma_field_inside(archive, at, b, 16, 4);
    lemma_field_inside(archive, at, b, 20, 4);
    lemma_field_inside(archive, at, b, 24, 4);
    lemma_field_inside(archive, at, b, 28, 2);
    lemma_field_inside(archive, at, b, 30, 2);
    lemma_field_inside(archive, at, b, 32, 2);
    lemma_field_inside(archive, at, b, 42, 4);
    lemma_field_inside(archive, at, b, 46, name.len() as int);
    let extra = zip64_offset_extra(offset);
    lemma_field_inside(archive, at, b, 46 + name.len() as int, extra.len() as int);
}

/// A content behind its local header is found by a record of the same name.
proof fn lemma_content_read(
    archive: Seq<u8>,
    record: ReadRecord,
    name: Seq<u8>,
    size: u64,
    crc: u32,
    body: Seq<u8>,
)
    requires
        name.len() < 0x1_0000,
        record.name == name,
        record.size == body.len(),
        record.offset + local_header_span(name) + body.len() <= archive.len(),
        archive.subrange(
            record.offset as int,
            (record.offset + local_header_span(name) + body.len()) as int,
        ) == local_header_bytes(name, size, crc) + body,
    ensures
        read_content(archive, record) == Some(body),
{
    let at = record.offset as int;
    let h = local_header_bytes(name, size, crc);
    lemma_local_fields(name, size, crc);
    let whole = h + body;
    assert(archive.subrange(at, at + h.len()) =~= h) by {
        assert(whole.subrange(0, h.len() as int) =~= h);
        lemma_field_inside(archive, at, whole, 0, h.len() as int);
    }
    lemma_field_inside(archive, at, h, 0, 4);
    lemma_field_inside(archive, at, h, 8, 2);
    lemma_field_inside(archive, at, h, 26, 2);
    lemma_field_inside(archive, at, h, 28, 2);
    lemma_field_inside(archive, at, h, 30, name.len() as int);
    lemma_field_inside(archive, at, whole, h.len() as int, body.len() as int);
    assert(whole.subrange(h.len() as int, (h.len() + body.len()) as int) =~= body);
}

/// The record at `at` leads to the entry, and the next record stands at `next`.
pub(crate) open spec fn entry_found(archive: Seq<u8>, at: int, next: int, entry: ZipEntry) -> bool {
    let record = read_record(archive, at);
    &&& record is Some
    &&& next == at + record->Some_0.span
    &&& record->Some_0.name == entry.name
    &&& record->Some_0.crc == entry.crc
    &&& read_content(archive, record->Some_0) == Some(entry.content)
}

/// Records that stand one behind the other are read one after the other.
pub(crate) proof fn lemma_entries_read(
    archive: Seq<u8>,
    at: spec_fn(int) -> int,
    entries: Seq<ZipEntry>,
    k: int,
)
    requires
        0 <= k <= entries.len(),
        forall|i: int|
            0 <= i < entries.len() ==> entry_found(
                archive,
                at(i),
                at(i + 1),
                #[trigger] entries[i],
            ),
    ensures
        read_entries(archive, at(k), (entries.len() - k) as nat) == Some(entries.skip(k)),
    decreases entries.len() - k,
{
    if k < entries.len() {
        lemma_entries_read(archive, at, entries, k + 1);
        let e = entries[k];
        let record = read_record(archive, at(k))->Some_0;
        assert(seq![ZipEntry { name: record.name, crc: record.crc, content: e.content }]
            + entries.skip(k + 1) =~= entries.skip(k));
    } else {
        assert(entries.skip(k) =~= Seq::empty());
    }
}

proof fn lemma_wide_end_fields(count: u64, offset: u64, size: u64)
    ensures
        ({
            let b = zip64_eocd_bytes(count, offset, size);
            &&& b.len() == 56
            &&& field(b, 0, 4) == SIG_ZIP64_EOCD
            &&& field(b, 32, 8) == count
            &&& field(b, 48, 8) == offset
        }),
{
    let b = zip64_eocd_bytes(count, offset, size);
    let head = le32(SIG_ZIP64_EOCD) + le64(44) + le16(VERSION_MADE_BY) + le16(VERSION_NEEDED)
        + le32(0) + le32(0);
    lemma_five_parts(head, le64(count), le64(count), le64(size), le64(offset));
    assert(b == head + le64(count) + le64(count) + le64(size) + le64(offset));
    lemma_field32(head, 0, SIG_ZIP64_EOCD);
    lemma_field_inside(b, 0, head, 0, 4);
    lemma_field64(b, 32, count);
    lemma_field64(b, 48, offset);
}

proof fn lemma_locator_fields(at: u64)
    ensures
        ({
            let b = zip64_locator_bytes(at);
            &&& b.len() == 20
            &&& field(b, 0, 4) == SIG_ZIP64_LOCATOR
            &&& field(b, 8, 8) == at
        }),
{
    let b = zip64_locator_bytes(at);
    lemma_five_parts(le32(SIG_ZIP64_LOCATOR), le32(0), le64(at), le32(1), Seq::empty());
    assert(b =~= le32(SIG_ZIP64_LOCATOR) + le32(0) + le64(at) + le32(1) + Seq::<u8>::empty());
    lemma_field32(b, 0, SIG_ZIP64_LOCATOR);
    lemma_field64(b, 8, at);
}

proof fn lemma_classic_end_fields(count: u64, offset: u64, size: u64)
    ensures
        ({
            let b = eocd_bytes(count, offset, size);
            &&& b.len() == 22
            &&& field(b, 0, 4) == SIG_EOCD
            &&& field(b, 10, 2) == or_marker16(count)
            &&& field(b, 12, 4) == or_marker32(size)
            &&& field(b, 16, 4) == or_marker32(offset)
        }),
{
    let b = eocd_bytes(count, offset, size);
    lemma_field32(b, 0, SIG_EOCD);
    lemma_field16(b, 10, or_marker16(count));
    lemma_field32(b, 12, or_marker32(size));
    lemma_field32(b, 16, or_marker32(offset));
}

/// The fields of the end records.
proof fn lemma_end_fields(count: u64, offset: u64, size: u64)
    requires
        offset + size <= u64::MAX,
    ensures
        ({
            let b = end_records_bytes(count, offset, size);
            &&& b.len() == 98
            &&& field(b, 0, 4) == SIG_ZIP64_EOCD
            &&& field(b, 32, 8) == count
            &&& field(b, 48, 8) == offset
            &&& field(b, 56, 4) == SIG_ZIP64_LOCATOR
            &&& field(b, 64, 8) == offset + size
            &&& field(b, 76, 4) == SIG_EOCD
            &&& field(b, 86, 2) == or_marker16(count)
            &&& field(b, 88, 4) == or_marker32(size)
            &&& field(b, 92, 4) == or_marker32(offset)
        }),
{
    let b = end_records_bytes(count, offset, size);
    let wide = zip64_eocd_bytes(count, offset, size);
    let locator = zip64_locator_bytes((offset + size) as u64);
    let classic = eocd_bytes(count, offset, size);
    assert(b == wide + locator + classic) by {
        reveal(end_records_bytes);
    }
    lemma_five_parts(wide, locator, classic, Seq::empty(), Seq::empty());
    assert(wide + locator + classic + Seq::<u8>::empty() + Seq::<u8>::empty() =~= b);
    lemma_wide_end_fields(count, offset, size);
    lemma_locator_fields((offset + size) as u64);
    lemma_classic_end_fields(count, offset, size);
    lemma_field_inside(b, 0, wide, 0, 4);
    lemma_field_inside(b, 0, wide, 32, 8);
    lemma_field_inside(b, 0, wide, 48, 8);
    lemma_field_inside(b, 56, locator, 0, 4);
    lemma_field_inside(b, 56, locator, 8, 8);
    lemma_field_inside(b, 76, classic, 0, 4);
    lemma_field_inside(b, 76, classic, 10, 2);
    lemma_field_inside(b, 76, classic, 12, 4);
    lemma_field_inside(b, 76, classic, 16, 4);
}

/// An entry as it goes into an archive.
pub struct Item {
    pub name: Seq<u8>,
    pub size: u64,
    pub crc: u32,
    pub body: Seq<u8>,
}

/// An entry's local header and content.
pub open spec fn item_bytes(item: Item) -> Seq<u8> {
    local_header_bytes(item.name, item.size, item.crc) + item.body
}

/// The first `n` entries, one behind the other.
pub open spec fn items_bytes(items: Seq<Item>, n: nat) -> Seq<u8>
    decreases n,
{
    if n == 0 {
        Seq::empty()
    } else {
        items_bytes(items, (n - 1) as nat) + item_bytes(items[n - 1])
    }
}

/// Where an entry stands.
pub open spec fn item_offset(items: Seq<Item>, i: int) -> nat {
    items_bytes(items, i as nat).len()
}

/// The directory record of an entry.
pub open spec fn item_record(items: Seq<Item>, i: int) -> Seq<u8> {
    central_dir_entry_bytes(
        items[i].name,
        items[i].size,
        items[i].crc,
        item_offset(items, i) as u64,
    )
}

/// The directory records of the first `n` entries.
pub open spec fn items_records(items: Seq<Item>, n: nat) -> Seq<u8>
    decreases n,
{
    if n == 0 {
        Seq::empty()
    } else {
        items_records(items, (n - 1) as nat) + item_record(items, n - 1)
    }
}

/// The whole archive: the entries, the directory, and the end records.
pub open spec fn items_archive(items: Seq<Item>) -> Seq<u8> {
    let entries = items_bytes(items, items.len());
    let records = items_records(items, items.len());
    entries + records + end_records_bytes(
        items.len() as u64,
        entries.len() as u64,
        records.len() as u64,
    )
}

/// What a reader should find.
pub open spec fn items_found(items: Seq<Item>) -> Seq<ZipEntry> {
    Seq::new(
        items.len(),
        |i: int|
            ZipEntry { name: items[i].name, crc: items[i].crc as nat, content: items[i].body },
    )
}

/// The entry fits the format: its name and its size can be told, and where its place is told
/// in a ZIP64 field, its size is not the mark for that.
pub open spec fn item_fits(items: Seq<Item>, i: int) -> bool {
    &&& items[i].name.len() < 0x1_0000
    &&& items[i].size == items[i].body.len()
    &&& items[i].size <= 0xFFFF_FFFF
    &&& item_offset(items, i) > 0xFFFF_FFFF ==> items[i].size < 0xFFFF_FFFF
}

proof fn lemma_items_at(items: Seq<Item>, i: int, n: nat)
    requires
        0 <= i < n,
    ensures
        item_offset(items, i) + item_bytes(items[i]).len() <= items_bytes(items, n).len(),
        items_bytes(items, n).subrange(
            item_offset(items, i) as int,
            (item_offset(items, i) + item_bytes(items[i]).len()) as int,
        ) == item_bytes(items[i]),
    decreases n,
{
    let from = item_offset(items, i) as int;
    let to = (item_offset(items, i) + item_bytes(items[i]).len()) as int;
    if i == n - 1 {
        assert(items_bytes(items, n).subrange(from, to) =~= item_bytes(items[i]));
    } else {
        lemma_items_at(items, i, (n - 1) as nat);
        assert(items_bytes(items, n).subrange(from, to) =~= items_bytes(
            items,
            (n - 1) as nat,
        ).subrange(from, to));
    }
}

proof fn lemma_records_at(items: Seq<Item>, i: int, n: nat)
    requires
        0 <= i < n,
    ensures
        items_records(items, i as nat).len() + item_record(items, i).len() <= items_records(
            items,
            n,
        ).len(),
        items_records(items, n).subrange(
            items_records(items, i as nat).len() as int,
            (items_records(items, i as nat).len() + item_record(items, i).len()) as int,
        ) == item_record(items, i),
    decreases n,
{
    let from = items_records(items, i as nat).len() as int;
    let to = (items_records(items, i as nat).len() + item_record(items, i).len()) as int;
    if i == n - 1 {
        assert(items_records(items, n).subrange(from, to) =~= item_record(items, i));
    } else {
        lemma_records_at(items, i, (n - 1) as nat);
        assert(items_records(items, n).subrange(from, to) =~= items_records(
            items,
            (n - 1) as nat,
        ).subrange(from, to));
    }
}

/// The record of an entry leads to the entry.
proof fn lemma_item_found(items: Seq<Item>, i: int)
    requires
        0 <= i < items.len(),
        item_fits(items, i),
        items_archive(items).len() <= u64::MAX,
    ensures
        ({
            let at = items_bytes(items, items.len()).len();
            entry_found(
                items_archive(items),
                (at + items_records(items, i as nat).len()) as int,
                (at + items_records(items, (i + 1) as nat).len()) as int,
                items_found(items)[i],
            )
        }),
{
    let archive = items_archive(items);
    let entries = items_bytes(items, items.len());
    let records = items_records(items, items.len());
    let end = end_records_bytes(items.len() as u64, entries.len() as u64, records.len() as u64);
    let item = items[i];
    let offset = item_offset(items, i);
    lemma_items_at(items, i, items.len());
    lemma_records_at(items, i, items.len());
    local_header_length(item.name, item.size, item.crc);
    central_dir_entry_length(item.name, item.size, item.crc, offset as u64);
    let at = (entries.len() + items_records(items, i as nat).len()) as int;
    let span = central_dir_entry_span(item.name, offset as u64);
    assert(archive == entries + records + end);
    assert(archive.subrange(at, at + span) =~= records.subrange(
        at - entries.len(),
        at - entries.len() + span,
    ));
    lemma_record_read(archive, at, item.name, item.size, item.crc, offset as u64);
    let record = read_record(archive, at)->Some_0;
    let whole = item_bytes(item);
    assert(archive.subrange(offset as int, (offset + whole.len()) as int) =~= entries.subrange(
        offset as int,
        (offset + whole.len()) as int,
    ));
    lemma_content_read(archive, record, item.name, item.size, item.crc, item.body);
}

/// The end records lead a reader to the directory.
proof fn lemma_end_leads(body: Seq<u8>, count: u64, offset: u64, size: u64)
    requires
        body.len() == offset + size,
        body.len() <= u64::MAX,
    ensures
        ({
            let archive = body + end_records_bytes(count, offset, size);
            read_archive(archive) == read_entries(archive, offset as int, count as nat)
        }),
{
    let end = end_records_bytes(count, offset, size);
    let archive = body + end;
    let from = body.len() as int;
    lemma_end_fields(count, offset, size);
    assert(archive.subrange(from, from + end.len()) =~= end);
    lemma_field_inside(archive, from, end, 0, 4);
    lemma_field_inside(archive, from, end, 32, 8);
    lemma_field_inside(archive, from, end, 48, 8);
    lemma_field_inside(archive, from, end, 56, 4);
    lemma_field_inside(archive, from, end, 64, 8);
    lemma_field_inside(archive, from, end, 76, 4);
    lemma_field_inside(archive, from, end, 86, 2);
    lemma_field_inside(archive, from, end, 88, 4);
    lemma_field_inside(archive, from, end, 92, 4);
}

/// What is written is read: in an archive whose entries fit the format, a reader finds every
/// entry, in order, with its name, its checksum and its content.
pub proof fn made_archives_are_read(items: Seq<Item>)
    requires
        forall|i: int| 0 <= i < items.len() ==> #[trigger] item_fits(items, i),
        items_archive(items).len() <= u64::MAX,
    ensures
        read_archive(items_archive(items)) == Some(items_found(items)),
{
    let archive = items_archive(items);
    let entries = items_bytes(items, items.len());
    let records = items_records(items, items.len());
    let n = items.len();
    let found = items_found(items);
    let at = |i: int| (entries.len() + items_records(items, i as nat).len()) as int;
    assert forall|i: int| 0 <= i < found.len() implies entry_found(
        archive,
        at(i),
        at(i + 1),
        #[trigger] found[i],
    ) by {
        assert(item_fits(items, i));
        lemma_item_found(items, i);
    }
    lemma_entries_read(archive, at, found, 0);
    assert(found.skip(0) =~= found);
    assert(at(0) == entries.len());
    lemma_records_counted(items, n);
    lemma_end_leads(entries + records, n as u64, entries.len() as u64, records.len() as u64);
}

proof fn lemma_records_counted(items: Seq<Item>, n: nat)
    ensures
        n <= items_records(items, n).len(),
    decreases n,
{
    if n > 0 {
        lemma_records_counted(items, (n - 1) as nat);
        let item = items[n - 1];
        central_dir_entry_length(
            item.name,
            item.size,
            item.crc,
            item_offset(items, n - 1) as u64,
        );
    }
}

} // verus!
