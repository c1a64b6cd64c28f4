//! What a reader finds in an archive that is made of laid-out parts.

use crate::directory::records_bytes;
use crate::le_bytes::{be32, le16, le32, le64, le_value};
use crate::part_job::{
    built, end_of, info_entries, info_entry, jobs_bytes, jobs_fit, jobs_make_the_archive, jobs_of,
    lemma_end_of_layout, objects_match, records_describe, source_of, Objects,
};
use crate::zip_format::{low16, SIG_CENTRAL, SIG_EOCD, SIG_LOCAL, SIG_ZIP64_EOCD, SIG_ZIP64_LOCATOR};
use crate::zip_layout::{infos_len, layout_files, FileInfo, PartPlan};
use crate::zip_reading::{
    entry_found, field, lemma_entries_read, lemma_field16, lemma_field32, lemma_field64,
    lemma_field_inside, lemma_five_parts, read_archive, read_content, read_entries, read_record,
    zip64_data, ReadRecord, ZipEntry, MARK32,
};
use crate::zip_records::{
    cdfh_bytes, cdfh_extra, cdfh_length, cdfh_span, field_32, loc_bytes, loc_extra, loc_length,
    loc_span, over_32, CentralDirectoryFileHeader, EndOfCentralDirectory64, ZipSerialize,
    CDFH_MAGIC, EOCD64_LOCATOR_MAGIC, EOCD64_MAGIC, EOCD_MAGIC, LOC_MAGIC, MIN_VER, VER_MADE_BY,
};
use vstd::prelude::*;
use vstd::utf8::encode_utf8;

verus! {

/// The two ways to write a signature give the same bytes.
proof fn lemma_signatures()
    ensures
        be32(LOC_MAGIC) == le32(SIG_LOCAL),
        be32(CDFH_MAGIC) == le32(SIG_CENTRAL),
        be32(EOCD_MAGIC) == le32(SIG_EOCD),
        be32(EOCD64_MAGIC) == le32(SIG_ZIP64_EOCD),
        be32(EOCD64_LOCATOR_MAGIC) == le32(SIG_ZIP64_LOCATOR),
{
    assert(be32(LOC_MAGIC) =~= le32(SIG_LOCAL));
    assert(be32(CDFH_MAGIC) =~= le32(SIG_CENTRAL));
    assert(be32(EOCD_MAGIC) =~= le32(SIG_EOCD));
    assert(be32(EOCD64_MAGIC) =~= le32(SIG_ZIP64_EOCD));
    assert(be32(EOCD64_LOCATOR_MAGIC) =~= le32(SIG_ZIP64_LOCATOR));
}

/// The fields of a local header.
proof fn lemma_loc_fields(name: Seq<u8>, size: usize, crc: Seq<u8>)
    requires
        name.len() < 0x1_0000,
        crc.len() == 4,
    ensures
        ({
            let b = loc_bytes(name, size, crc);
            &&& b.len() == loc_span(size, name.len())
            &&& field(b, 0, 4) == SIG_LOCAL
            &&& field(b, 8, 2) == 0
            &&& field(b, 26, 2) == name.len()
            &&& field(b, 28, 2) == loc_extra(size).len()
            &&& b.subrange(30, 30 + name.len() as int) == name
        }),
{
    let b = loc_bytes(name, size, crc);
    let first = be32(LOC_MAGIC) + le16(MIN_VER) + le16(0) + le16(0) + le16(0) + le16(0);
    let second = crc + field_32(size, over_32(size)) + field_32(size, over_32(size));
    let third = le16(low16(name.len())) + le16(loc_extra(size).len() as u16);
    lemma_signatures();
    assert(b == first + second + third + name + loc_extra(size)) by {
        reveal(loc_bytes);
        assert(b =~= first + second + third + name + loc_extra(size));
    }
    lemma_five_parts(first, second, third, name, loc_extra(size));
    lemma_field32(first, 0, SIG_LOCAL);
    lemma_field16(first, 8, 0);
    lemma_field16(third, 0, low16(name.len()));
    lemma_field16(third, 2, loc_extra(size).len() as u16);
    lemma_field_inside(b, 0, first, 0, 4);
    lemma_field_inside(b, 0, first, 8, 2);
    lemma_field_inside(b, 26, third, 0, 2);
    lemma_field_inside(b, 26, third, 2, 2);
}

/// The fields of a directory record.
#[verifier::rlimit(40)]
proof fn lemma_cdfh_fields(name: Seq<u8>, size: usize, crc: Seq<u8>, offset: usize)
    requires
        name.len() < 0x1_0000,
        crc.len() == 4,
    ensures
        ({
            let b = cdfh_bytes(name, size, crc, offset);
            let extra = cdfh_extra(size, offset);
            let size32 = if over_32(offset) || over_32(size) {
                MARK32
            } else {
                size as u32
            };
            &&& b.len() == cdfh_span(size, name.len(), offset)
            &&& field(b, 0, 4) == SIG_CENTRAL
            &&& field(b, 10, 2) == 0
            &&& field(b, 16, 4) == le_value(crc)
            &&& field(b, 20, 4) == size32
            &&& field(b, 24, 4) == size32
            &&& field(b, 28, 2) == name.len()
            &&& field(b, 30, 2) == extra.len()
            &&& field(b, 32, 2) == 0
            &&& field(b, 42, 4) == (if over_32(offset) {
                MARK32
            } else {
                offset as u32
            })
            &&& b.subrange(46, 46 + name.len() as int) == name
            &&& b.subrange(46 + name.len() as int, b.len() as int) == extra
        }),
{
    let b = cdfh_bytes(name, size, crc, offset);
    let extra = cdfh_extra(size, offset);
    let marked = over_32(offset) || over_32(size);
    let size32 = if marked {
        MARK32
    } else {
        size as u32
    };
    let offset32 = if over_32(offset) {
        MARK32
    } else {
        offset as u32
    };
    let first = be32(CDFH_MAGIC) + le16(VER_MADE_BY) + le16(MIN_VER) + le16(0) + le16(0) + le16(0)
        + le16(0);
    let second = crc + le32(size32) + le32(size32);
    let third = le16(low16(name.len())) + le16(extra.len() as u16) + le16(0) + le16(0) + le16(0)
        + le32(0) + le32(offset32);
    lemma_signatures();
    assert(b == first + second + third + name + extra) by {
        reveal(cdfh_bytes);
        assert(b =~= first + second + third + name + extra);
    }
    lemma_five_parts(first, second, third, name, extra);
    lemma_field32(first, 0, SIG_CENTRAL);
    lemma_field16(first, 10, 0);
    assert(second.subrange(0, 4) =~= crc);
    lemma_field32(second, 4, size32);
    lemma_field32(second, 8, size32);
    lemma_field16(third, 0, low16(name.len()));
    lemma_field16(third, 2, extra.len() as u16);
    lemma_field16(third, 4, 0);
    lemma_field32(third, 14, offset32);
    lemma_field_inside(b, 0, first, 0, 4);
    lemma_field_inside(b, 0, first, 10, 2);
    lemma_field_inside(b, 16, second, 0, 4);
    lemma_field_inside(b, 16, second, 4, 4);
    lemma_field_inside(b, 16, second, 8, 4);
    lemma_field_inside(b, 28, third, 0, 2);
    lemma_field_inside(b, 28, third, 2, 2);
    lemma_field_inside(b, 28, third, 4, 2);
    lemma_field_inside(b, 28, third, 14, 4);
}

/// The data of a directory record's extra field.
proof fn lemma_cdfh_extra(size: usize, offset: usize)
    ensures
        ({
            let data = zip64_data(cdfh_extra(size, offset));
            &&& over_32(offset) ==> data.len() == 24 && field(data, 0, 8) == size && field(
                data,
                8,
                8,
            ) == size && field(data, 16, 8) == offset
            &&& !over_32(offset) && over_32(size) ==> data.len() == 16 && field(data, 0, 8) == size
                && field(data, 8, 8) == size
            &&& !over_32(offset) && !over_32(size) ==> data.len() == 0
        }),
{
    let extra = cdfh_extra(size, offset);
    let data = zip64_data(extra);
    if over_32(offset) {
        lemma_field16(extra, 0, 1);
        lemma_field16(extra, 2, 24);
        let whole = le64(size as u64) + le64(size as u64) + le64(offset as u64);
        assert(data =~= whole);
        assert(data.subrange(0, 8) =~= le64(size as u64));
        assert(data.subrange(8, 16) =~= le64(size as u64));
        assert(data.subrange(16, 24) =~= le64(offset as u64));
        lemma_field64(data, 0, size as u64);
        lemma_field64(data, 8, size as u64);
        lemma_field64(data, 16, offset as u64);
    } else if over_32(size) {
        lemma_field16(extra, 0, 1);
        lemma_field16(extra, 2, 16);
        assert(data =~= le64(size as u64) + le64(size as u64));
        assert(data.subrange(0, 8) =~= le64(size as u64));
        assert(data.subrange(8, 16) =~= le64(size as u64));
        lemma_field64(data, 0, size as u64);
        lemma_field64(data, 8, size as u64);
    }
}

/// A directory record that stands in an archive says what it was made of.
proof fn lemma_cdfh_read(
    archive: Seq<u8>,
    at: int,
    name: Seq<u8>,
    size: usize,
    crc: Seq<u8>,
    offset: usize,
)
    requires
        name.len() < 0x1_0000,
        crc.len() == 4,
        0 <= at,
        at + cdfh_span(size, name.len(), offset) <= archive.len(),
        archive.subrange(at, at + cdfh_span(size, name.len(), offset)) == cdfh_bytes(
            name,
            size,
            crc,
            offset,
        ),
    ensures
        read_record(archive, at) == Some(
            ReadRecord {
                name,
                crc: le_value(crc),
                size: size as nat,
                offset: offset as nat,
                span: cdfh_span(size, name.len(), offset),
            },
        ),
{
    let b = cdfh_bytes(name, size, crc, offset);
    lemma_cdfh_fields(name, size, crc, offset);
    lemma_cdfh_extra(size, offset);
    lemma_field_inside(archive, at, b, 0, 4);
    lemma_field_inside(archive, at, b, 10, 2);
    lemma_field_inside(archive, at, b, 16, 4);
    lemma_field_inside(archive, at, b, 20, 4);
    lemma_field_inside(archive, at, b, 24, 4);
    lemma_field_inside(archive, at, b, 28, 2);
    lemma_field_inside(archive, at, b, 30, 2);
    lemma_field_inside(archive, at, b, 32, 2);
    lemma_field_inside(archive, at, b, 42, 4);
    lemma_field_inside(archive, at, b, 46, name.len() as int);
    let extra = cdfh_extra(size, offset);
    lemma_field_inside(archive, at, b, 46 + name.len() as int, extra.len() as int);
}

/// A content behind its local header is found by a record of the same name.
proof fn lemma_loc_read(
    archive: Seq<u8>,
    record: ReadRecord,
    name: Seq<u8>,
    size: usize,
    crc: Seq<u8>,
    body: Seq<u8>,
)
    requires
        name.len() < 0x1_0000,
        crc.len() == 4,
        record.name == name,
        record.size == body.len(),
        record.offset + loc_span(size, name.len()) + body.len() <= archive.len(),
        archive.subrange(
            record.offset as int,
            (record.offset + loc_span(size, name.len()) + body.len()) as int,
        ) == loc_bytes(name, size, crc) + body,
    ensures
        read_content(archive, record) == Some(body),
{
    let at = record.offset as int;
    let h = loc_bytes(name, size, crc);
    lemma_loc_fields(name, size, crc);
    let whole = h + body;
    assert(archive.subrange(at, at + h.len()) =~= h) by {
        assert(whole.subrange(0, h.len() as int) =~= h);
        lemma_field_inside(archive, at, whole, 0, h.len() as int);
    }
    lemma_field_inside(archive, at, h, 0, 4);
    lemma_field_inside(archive, at, h, 8, 2);
    lemma_field_inside(archive, at, h, 26, 2);
    lemma_field_inside(archive, at, h, 28, 2);
    lemma_field_inside(archive, at, h, 30, name.len() as int);
    lemma_field_inside(archive, at, whole, h.len() as int, body.len() as int);
    assert(whole.subrange(h.len() as int, (h.len() + body.len()) as int) =~= body);
}

proof fn lemma_eocd64_fields(end: EndOfCentralDirectory64)
    ensures
        ({
            let b = end.eocd64_bytes();
            &&& b.len() == 56
            &&& field(b, 0, 4) == SIG_ZIP64_EOCD
            &&& field(b, 32, 8) == end.record_count
            &&& field(b, 48, 8) == end.central_directory_offset
        }),
{
    let b = end.eocd64_bytes();
    let count = le64(end.record_count as u64);
    let size = le64(end.central_directory_size as u64);
    let offset = le64(end.central_directory_offset as u64);
    let head = be32(EOCD64_MAGIC) + le64(44) + le16(VER_MADE_BY) + le16(MIN_VER) + le32(0) + le32(
        0,
    );
    lemma_signatures();
    lemma_five_parts(head, count, count, size, offset);
    assert(b == head + count + count + size + offset);
    lemma_field32(head, 0, SIG_ZIP64_EOCD);
    lemma_field_inside(b, 0, head, 0, 4);
    lemma_field64(b, 32, end.record_count as u64);
    lemma_field64(b, 48, end.central_directory_offset as u64);
}

proof fn lemma_eocd64_locator_fields(end: EndOfCentralDirectory64)
    ensures
        ({
            let b = end.eocd64_locator_bytes();
            &&& b.len() == 20
            &&& field(b, 0, 4) == SIG_ZIP64_LOCATOR
            &&& field(b, 8, 8) == end.eocd64_offset
        }),
{
    let b = end.eocd64_locator_bytes();
    let magic = be32(EOCD64_LOCATOR_MAGIC);
    let at = le64(end.eocd64_offset as u64);
    lemma_signatures();
    lemma_five_parts(magic, le32(0), at, le32(0), Seq::empty());
    assert(b =~= magic + le32(0) + at + le32(0) + Seq::<u8>::empty());
    lemma_field32(b, 0, SIG_ZIP64_LOCATOR);
    lemma_field64(b, 8, end.eocd64_offset as u64);
}

proof fn lemma_eocd_fields(end: EndOfCentralDirectory64)
    ensures
        ({
            let b = end.eocd_bytes();
            &&& b.len() == 22
            &&& field(b, 0, 4) == SIG_EOCD
            &&& end.wide() ==> field(b, 10, 2) == 0xFFFF
            &&& !end.wide() ==> field(b, 10, 2) == end.record_count && field(b, 12, 4)
                == end.central_directory_size && field(b, 16, 4) == end.central_directory_offset
        }),
{
    let b = end.eocd_bytes();
    lemma_signatures();
    lemma_field32(b, 0, SIG_EOCD);
    if end.wide() {
        lemma_field16(b, 10, 0xFFFF);
    } else {
        lemma_field16(b, 10, end.record_count as u16);
        lemma_field32(b, 12, end.central_directory_size as u32);
        lemma_field32(b, 16, end.central_directory_offset as u32);
    }
}

/// The end records can be told apart from the marks of a ZIP64 record: where none is
/// written, no value is the mark of its field.
pub open spec fn end_is_clear(end: EndOfCentralDirectory64) -> bool {
    end.wide() || (end.record_count < 0xFFFF && end.central_directory_size < 0xFFFF_FFFF
        && end.central_directory_offset < 0xFFFF_FFFF)
}

/// End records with these fields lead a reader to the directory.
proof fn lemma_records_lead(
    archive: Seq<u8>,
    body: Seq<u8>,
    wide: Seq<u8>,
    locator: Seq<u8>,
    classic: Seq<u8>,
    end: EndOfCentralDirectory64,
)
    requires
        end.eocd64_offset == body.len(),
        end_is_clear(end),
        archive == (if end.wide() {
            body + (wide + locator + classic)
        } else {
            body + classic
        }),
        classic.len() == 22,
        field(classic, 0, 4) == SIG_EOCD,
        end.wide() ==> field(classic, 10, 2) == 0xFFFF,
        !end.wide() ==> field(classic, 10, 2) == end.record_count && field(classic, 12, 4)
            == end.central_directory_size && field(classic, 16, 4)
            == end.central_directory_offset,
        wide.len() == 56,
        field(wide, 0, 4) == SIG_ZIP64_EOCD,
        field(wide, 32, 8) == end.record_count,
        field(wide, 48, 8) == end.central_directory_offset,
        locator.len() == 20,
        field(locator, 0, 4) == SIG_ZIP64_LOCATOR,
        field(locator, 8, 8) == end.eocd64_offset,
    ensures
        read_archive(archive) == read_entries(
            archive,
            end.central_directory_offset as int,
            end.record_count as nat,
        ),
{
    let at = archive.len() - 22;
    assert(archive.subrange(at, at + 22) =~= classic);
    lemma_field_inside(archive, at, classic, 0, 4);
    lemma_field_inside(archive, at, classic, 10, 2);
    lemma_field_inside(archive, at, classic, 12, 4);
    lemma_field_inside(archive, at, classic, 16, 4);
    if end.wide() {
        let from = body.len() as int;
        assert(archive.subrange(from, from + 56) =~= wide);
        assert(archive.subrange(from + 56, from + 76) =~= locator);
        lemma_field_inside(archive, from, wide, 0, 4);
        lemma_field_inside(archive, from, wide, 32, 8);
        lemma_field_inside(archive, from, wide, 48, 8);
        lemma_field_inside(archive, from + 56, locator, 0, 4);
        lemma_field_inside(archive, from + 56, locator, 8, 8);
    }
}

/// The end records lead a reader to the directory.
proof fn lemma_end_leads(body: Seq<u8>, end: EndOfCentralDirectory64)
    requires
        body.len() == end.central_directory_offset + end.central_directory_size,
        end.eocd64_offset == body.len(),
        end_is_clear(end),
    ensures
        ({
            let archive = body + end.zip_bytes();
            read_archive(archive) == read_entries(
                archive,
                end.central_directory_offset as int,
                end.record_count as nat,
            )
        }),
{
    lemma_eocd_fields(end);
    lemma_eocd64_fields(end);
    lemma_eocd64_locator_fields(end);
    lemma_records_lead(
        body + end.zip_bytes(),
        body,
        end.eocd64_bytes(),
        end.eocd64_locator_bytes(),
        end.eocd_bytes(),
        end,
    );
}

/// What a reader should find of the files.
pub open spec fn infos_found(files: Seq<FileInfo>, objects: Objects) -> Seq<ZipEntry> {
    Seq::new(
        files.len(),
        |i: int|
            ZipEntry {
                name: encode_utf8(files[i].name@),
                crc: le_value((objects.crc)(source_of(files[i]))),
                content: (objects.body)(source_of(files[i])),
            },
    )
}

/// The records carry the checksums of the objects.
pub open spec fn records_carry(
    records: Seq<CentralDirectoryFileHeader>,
    files: Seq<FileInfo>,
    objects: Objects,
) -> bool {
    forall|i: int|
        0 <= i < records.len() ==> (#[trigger] records[i]).0.crc32.0@ == (objects.crc)(
            source_of(files[i]),
        )
}

proof fn lemma_info_at(files: Seq<FileInfo>, objects: Objects, i: int, n: int)
    requires
        0 <= i < n <= files.len(),
        objects_match(files, objects),
    ensures
        info_entries(files.take(n), objects).len() == infos_len(files.take(n)),
        infos_len(files.take(i)) + files[i].entry_len() <= infos_len(files.take(n)),
        info_entry(files[i], objects).len() == files[i].entry_len(),
        info_entries(files.take(n), objects).subrange(
            infos_len(files.take(i)) as int,
            (infos_len(files.take(i)) + files[i].entry_len()) as int,
        ) == info_entry(files[i], objects),
    decreases n,
{
    let from = infos_len(files.take(i)) as int;
    let to = (infos_len(files.take(i)) + files[i].entry_len()) as int;
    lemma_info_entries_len(files, objects, n);
    lemma_info_entries_len(files, objects, n - 1);
    lemma_info_len(files, objects, i);
    let all = files.take(n);
    assert(all.drop_last() =~= files.take(n - 1));
    if i == n - 1 {
        assert(info_entries(all, objects).subrange(from, to) =~= info_entry(files[i], objects));
    } else {
        lemma_info_at(files, objects, i, n - 1);
        assert(info_entries(all, objects).subrange(from, to) =~= info_entries(
            files.take(n - 1),
            objects,
        ).subrange(from, to));
    }
}

proof fn lemma_info_len(files: Seq<FileInfo>, objects: Objects, i: int)
    requires
        0 <= i < files.len(),
        objects_match(files, objects),
    ensures
        info_entry(files[i], objects).len() == files[i].entry_len(),
{
    let f = files[i];
    loc_length(encode_utf8(f.name@), f.size, (objects.crc)(source_of(f)));
}

proof fn lemma_info_entries_len(files: Seq<FileInfo>, objects: Objects, n: int)
    requires
        0 <= n <= files.len(),
        objects_match(files, objects),
    ensures
        info_entries(files.take(n), objects).len() == infos_len(files.take(n)),
    decreases n,
{
    if n > 0 {
        lemma_info_entries_len(files, objects, n - 1);
        lemma_info_len(files, objects, n - 1);
        assert(files.take(n).drop_last() =~= files.take(n - 1));
    }
}

proof fn lemma_record_at(records: Seq<CentralDirectoryFileHeader>, i: int, n: int)
    requires
        0 <= i < n <= records.len(),
    ensures
        ({
            let from = records_bytes(records.take(i)).len() as int;
            let to = from + records[i].zip_bytes().len();
            &&& to <= records_bytes(records.take(n)).len()
            &&& records_bytes(records.take(n)).subrange(from, to) == records[i].zip_bytes()
            &&& records_bytes(records.take(i + 1)).len() == to
        }),
    decreases n,
{
    let from = records_bytes(records.take(i)).len() as int;
    let to = from + records[i].zip_bytes().len();
    let all = records.take(n);
    assert(all.drop_last() =~= records.take(n - 1));
    assert(records.take(i + 1).drop_last() =~= records.take(i));
    if i == n - 1 {
        assert(records_bytes(all).subrange(from, to) =~= records[i].zip_bytes());
    } else {
        lemma_record_at(records, i, n - 1);
        assert(records_bytes(all).subrange(from, to) =~= records_bytes(
            records.take(n - 1),
        ).subrange(from, to));
    }
}

proof fn lemma_info_found(
    files: Seq<FileInfo>,
    objects: Objects,
    records: Seq<CentralDirectoryFileHeader>,
    end: Seq<u8>,
    i: int,
)
    requires
        0 <= i < files.len(),
        objects_match(files, objects),
        records_describe(records, files),
        records_carry(records, files, objects),
        encode_utf8(files[i].name@).len() < 0x1_0000,
    ensures
        ({
            let entries = info_entries(files, objects);
            let archive = entries + records_bytes(records) + end;
            entry_found(
                archive,
                (entries.len() + records_bytes(records.take(i)).len()) as int,
                (entries.len() + records_bytes(records.take(i + 1)).len()) as int,
                infos_found(files, objects)[i],
            )
        }),
{
    let entries = info_entries(files, objects);
    let directory = records_bytes(records);
    let archive = entries + directory + end;
    let f = files[i];
    let name = encode_utf8(f.name@);
    let crc = (objects.crc)(source_of(f));
    let body = (objects.body)(source_of(f));
    let r = records[i].0;
    assert(records[i].0.name@ == f.name@);
    assert(records[i].0.crc32.0@ == crc);
    assert(files.take(files.len() as int) =~= files);
    assert(records.take(records.len() as int) =~= records);
    lemma_info_at(files, objects, i, files.len() as int);
    lemma_record_at(records, i, records.len() as int);
    cdfh_length(name, f.size, crc, r.offset);
    let at = (entries.len() + records_bytes(records.take(i)).len()) as int;
    let span = cdfh_span(f.size, name.len(), r.offset);
    assert(archive.subrange(at, at + span) =~= directory.subrange(
        at - entries.len(),
        at - entries.len() + span,
    ));
    lemma_cdfh_read(archive, at, name, f.size, crc, r.offset);
    let record = read_record(archive, at)->Some_0;
    let from = r.offset as int;
    assert(archive.subrange(from, from + f.entry_len()) =~= entries.subrange(
        from,
        from + f.entry_len(),
    ));
    lemma_loc_read(archive, record, name, f.size, crc, body);
}

/// An archive that is put together from laid-out parts is read: a reader finds every file of
/// the layout, in its order.
pub proof fn laid_out_archives_are_read(
    parts: Seq<PartPlan>,
    objects: Objects,
    records: Seq<CentralDirectoryFileHeader>,
)
    requires
        jobs_fit(parts),
        objects_match(layout_files(parts), objects),
        records_describe(records, layout_files(parts)),
        records_carry(records, layout_files(parts), objects),
        forall|i: int|
            0 <= i < layout_files(parts).len() ==> encode_utf8(
                (#[trigger] layout_files(parts)[i]).name@,
            ).len() < 0x1_0000,
        end_is_clear(end_of(built(parts, parts.len()))),
    ensures
        ({
            let directory = records_bytes(records) + end_of(
                built(parts, parts.len()),
            ).zip_bytes();
            read_archive(jobs_bytes(objects, directory, jobs_of(parts))) == Some(
                infos_found(layout_files(parts), objects),
            )
        }),
{
    let files = layout_files(parts);
    let end = end_of(built(parts, parts.len()));
    let entries = info_entries(files, objects);
    let directory = records_bytes(records) + end.zip_bytes();
    let archive = entries + records_bytes(records) + end.zip_bytes();
    jobs_make_the_archive(objects, directory, parts);
    lemma_end_of_layout(parts, records);
    lemma_info_entries_len(files, objects, files.len() as int);
    assert(files.take(files.len() as int) =~= files);
    assert(jobs_bytes(objects, directory, jobs_of(parts)) =~= archive);
    let found = infos_found(files, objects);
    let at = |i: int| (entries.len() + records_bytes(records.take(i)).len()) as int;
    assert forall|i: int| 0 <= i < found.len() implies entry_found(
        archive,
        at(i),
        at(i + 1),
        #[trigger] found[i],
    ) by {
        assert(encode_utf8(files[i].name@).len() < 0x1_0000);
        lemma_info_found(files, objects, records, end.zip_bytes(), i);
    }
    lemma_entries_read(archive, at, found, 0);
    assert(found.skip(0) =~= found);
    assert(records.take(0) =~= Seq::empty());
    assert(at(0) == entries.len());
    lemma_end_leads(entries + records_bytes(records), end);
}

} // verus!
