//! What the header in front of an entry and the entry's directory record owe to each other.

use crate::le_bytes::{be32, le16, le32, le64};
use crate::zip_format::{
    central_dir_entry_bytes, end_records_bytes, eocd_bytes, local_header_bytes, low16,
    needs_zip64_offset, zip64_eocd_bytes, zip64_locator_bytes, zip64_offset_extra, METHOD_STORE,
    SIG_CENTRAL, SIG_LOCAL, VERSION_MADE_BY, VERSION_NEEDED,
};
use crate::zip_reading::{
    field, lemma_field16, lemma_field32, lemma_field64, lemma_field_inside, lemma_five_parts,
    zip64_data, MARK32,
};
use crate::zip_records::{
    cdfh_bytes, cdfh_extra, field_32, loc_bytes, loc_extra, over_32, CDFH_MAGIC, LOC_MAGIC, MIN_VER,
    VER_MADE_BY,
};
use vstd::prelude::*;

verus! {

/// A local header tells by itself what the directory tells of the entry: that it is stored
/// and needs version 4.5, its checksum, both of its sizes and its name. The directory record
/// repeats it, and beyond it holds no comment and no attributes.
pub proof fn headers_agree_with_records(name: Seq<u8>, size: u64, crc: u32, offset: u64)
    requires
        name.len() < 0x1_0000,
        size <= 0xFFFF_FFFF,
    ensures
        ({
            let header = local_header_bytes(name, size, crc);
            let record = central_dir_entry_bytes(name, size, crc, offset);
            &&& header.take(4) == seq![0x50u8, 0x4b, 3, 4]
            &&& record.take(4) == seq![0x50u8, 0x4b, 1, 2]
            &&& field(header, 4, 2) == 45
            &&& field(header, 14, 4) == crc
            &&& field(header, 18, 4) == size
            &&& field(header, 22, 4) == size
            &&& header.skip(30) == name
            &&& forall|i: int| 6 <= i < 14 ==> #[trigger] header[i] == 0
            &&& header.subrange(4, 28) == record.subrange(6, 30)
            &&& field(record, 4, 2) == 45
            &&& forall|i: int| 32 <= i < 42 ==> #[trigger] record[i] == 0
        }),
{
    let h = local_header_bytes(name, size, crc);
    let r = central_dir_entry_bytes(name, size, crc, offset);
    let extra = zip64_offset_extra(offset);
    let offset32 = if needs_zip64_offset(offset) {
        MARK32
    } else {
        offset as u32
    };
    let shared = le16(VERSION_NEEDED) + le16(0) + le16(METHOD_STORE) + le16(0) + le16(0) + le32(crc)
        + le32(size as u32) + le32(size as u32) + le16(low16(name.len()));
    let record_start = le32(SIG_CENTRAL) + le16(VERSION_MADE_BY);
    let record_end = le16(extra.len() as u16) + le16(0) + le16(0) + le16(0) + le32(0) + le32(
        offset32,
    );
    assert(h == le32(SIG_LOCAL) + shared + le16(0) + name) by {
        reveal(local_header_bytes);
        assert(h =~= le32(SIG_LOCAL) + shared + le16(0) + name);
    }
    assert(r == record_start + shared + record_end + name + extra) by {
        reveal(central_dir_entry_bytes);
        assert(r =~= record_start + shared + record_end + name + extra);
    }
    assert(shared.len() == 24);
    assert(h.subrange(4, 28) =~= shared);
    assert(r.subrange(6, 30) =~= shared);
    assert(h.skip(30) =~= name);
    assert(h.take(4) =~= le32(SIG_LOCAL));
    assert(r.take(4) =~= le32(SIG_CENTRAL));
    assert(le32(SIG_LOCAL) =~= seq![0x50u8, 0x4b, 3, 4]);
    assert(le32(SIG_CENTRAL) =~= seq![0x50u8, 0x4b, 1, 2]);
    lemma_field16(shared, 0, 45);
    lemma_field32(shared, 10, crc);
    lemma_field32(shared, 14, size as u32);
    lemma_field32(shared, 18, size as u32);
    lemma_field_inside(h, 4, shared, 0, 2);
    lemma_field_inside(h, 4, shared, 10, 4);
    lemma_field_inside(h, 4, shared, 14, 4);
    lemma_field_inside(h, 4, shared, 18, 4);
    assert forall|i: int| 6 <= i < 14 implies #[trigger] h[i] == 0 by {
        assert(h[i] == shared[i - 4]);
    }
    lemma_field16(record_start, 4, 45);
    assert(r.subrange(0, 6) =~= record_start);
    lemma_field_inside(r, 0, record_start, 4, 2);
    assert forall|i: int| 32 <= i < 42 implies #[trigger] r[i] == 0 by {
        assert(r[i] == record_end[i - 30]);
    }
}

/// What a local header and a directory record share: version, flags, method, time, checksum.
spec fn shared_words(crc: Seq<u8>) -> Seq<u8> {
    le16(MIN_VER) + le16(0) + le16(0) + le16(0) + le16(0) + crc
}

proof fn lemma_loc_words(name: Seq<u8>, size: usize, crc: Seq<u8>)
    requires
        name.len() < 0x1_0000,
        crc.len() == 4,
    ensures
        ({
            let h = loc_bytes(name, size, crc);
            let size32 = if over_32(size) {
                MARK32
            } else {
                size as u32
            };
            &&& h.len() == 30 + name.len() + loc_extra(size).len()
            &&& h.take(4) == be32(LOC_MAGIC)
            &&& h.subrange(4, 18) == shared_words(crc)
            &&& h.subrange(18, 26) == le32(size32) + le32(size32)
            &&& h.subrange(30, 30 + name.len() as int) == name
            &&& h.skip(30 + name.len() as int) == loc_extra(size)
        }),
{
    let h = loc_bytes(name, size, crc);
    let size32 = if over_32(size) {
        MARK32
    } else {
        size as u32
    };
    let first = be32(LOC_MAGIC);
    let second = shared_words(crc);
    let third = le32(size32) + le32(size32);
    let fourth = le16(low16(name.len())) + le16(loc_extra(size).len() as u16);
    let fifth = name + loc_extra(size);
    assert(h == first + second + third + fourth + fifth) by {
        reveal(loc_bytes);
        assert(h =~= first + second + third + fourth + fifth);
    }
    lemma_five_parts(first, second, third, fourth, fifth);
    assert(h.take(4) =~= first);
    assert(h.subrange(30, 30 + name.len() as int) =~= name);
    assert(h.skip(30 + name.len() as int) =~= loc_extra(size));
}

proof fn lemma_cdfh_start(name: Seq<u8>, size: usize, crc: Seq<u8>, offset: usize)
    requires
        crc.len() == 4,
    ensures
        ({
            let r = cdfh_bytes(name, size, crc, offset);
            &&& r.len() >= 46
            &&& r.subrange(0, 16) == be32(CDFH_MAGIC) + le16(VER_MADE_BY) + le16(MIN_VER) + le16(0)
                + le16(0) + le16(0) + le16(0)
            &&& r.subrange(16, 20) == crc
            &&& r.subrange(32, 42) == le16(0) + le16(0) + le16(0) + le32(0)
        }),
{
    let r = cdfh_bytes(name, size, crc, offset);
    let marked = over_32(offset) || over_32(size);
    let extra = cdfh_extra(size, offset);
    let first = be32(CDFH_MAGIC) + le16(VER_MADE_BY) + le16(MIN_VER) + le16(0) + le16(0) + le16(0)
        + le16(0);
    let third = field_32(size, marked) + field_32(size, marked) + le16(low16(name.len())) + le16(
        extra.len() as u16,
    );
    let fourth = le16(0) + le16(0) + le16(0) + le32(0);
    let fifth = field_32(offset, over_32(offset)) + name + extra;
    assert(r == first + crc + third + fourth + fifth) by {
        reveal(cdfh_bytes);
        assert(r =~= first + crc + third + fourth + fifth);
    }
    lemma_five_parts(first, crc, third, fourth, fifth);
}

proof fn lemma_cdfh_words(name: Seq<u8>, size: usize, crc: Seq<u8>, offset: usize)
    requires
        crc.len() == 4,
    ensures
        ({
            let r = cdfh_bytes(name, size, crc, offset);
            &&& r.len() >= 46
            &&& r.take(4) == be32(CDFH_MAGIC)
            &&& r.subrange(4, 6) == le16(VER_MADE_BY)
            &&& r.subrange(6, 20) == shared_words(crc)
            &&& forall|i: int| 32 <= i < 42 ==> #[trigger] r[i] == 0
        }),
{
    let r = cdfh_bytes(name, size, crc, offset);
    let first = be32(CDFH_MAGIC) + le16(VER_MADE_BY) + le16(MIN_VER) + le16(0) + le16(0) + le16(0)
        + le16(0);
    let zeros = le16(0) + le16(0) + le16(0) + le32(0);
    lemma_cdfh_start(name, size, crc, offset);
    let start = r.subrange(0, 16);
    assert(r.take(4) =~= start.take(4));
    assert(start.take(4) =~= be32(CDFH_MAGIC));
    assert(r.subrange(4, 6) =~= start.subrange(4, 6));
    assert(start.subrange(4, 6) =~= le16(VER_MADE_BY));
    assert(r.subrange(6, 20) =~= start.subrange(6, 16) + r.subrange(16, 20));
    assert(start.subrange(6, 16) + crc =~= shared_words(crc));
    assert forall|i: int| 32 <= i < 42 implies #[trigger] r[i] == 0 by {
        assert(r[i] == r.subrange(32, 42)[i - 32]);
        assert(zeros[i - 32] == 0);
    }
}

/// A local header tells by itself what the entry is: that it is stored, its checksum, both of
/// its sizes, in the ZIP64 field where 32 bits do not hold them, and its name. The directory
/// record repeats it and holds no comment and no attributes.
pub proof fn part_headers_agree_with_records(
    name: Seq<u8>,
    size: usize,
    crc: Seq<u8>,
    offset: usize,
)
    requires
        name.len() < 0x1_0000,
        crc.len() == 4,
    ensures
        ({
            let header = loc_bytes(name, size, crc);
            let record = cdfh_bytes(name, size, crc, offset);
            let data = zip64_data(header.skip(30 + name.len() as int));
            &&& header.take(4) == seq![0x50u8, 0x4b, 3, 4]
            &&& record.take(4) == seq![0x50u8, 0x4b, 1, 2]
            &&& field(header, 4, 2) == 10
            &&& header.subrange(14, 18) == crc
            &&& header.subrange(30, 30 + name.len() as int) == name
            &&& size <= 0xFFFF_FFFF ==> field(header, 18, 4) == size && field(header, 22, 4)
                == size && header.len() == 30 + name.len()
            &&& size > 0xFFFF_FFFF ==> field(header, 18, 4) == 0xFFFF_FFFF && field(header, 22, 4)
                == 0xFFFF_FFFF && data.len() == 16 && field(data, 0, 8) == size && field(data, 8, 8)
                == size
            &&& forall|i: int| 6 <= i < 14 ==> #[trigger] header[i] == 0
            &&& header.subrange(4, 18) == record.subrange(6, 20)
            &&& field(record, 4, 2) == 10
            &&& forall|i: int| 32 <= i < 42 ==> #[trigger] record[i] == 0
        }),
{
    let h = loc_bytes(name, size, crc);
    let r = cdfh_bytes(name, size, crc, offset);
    let shared = shared_words(crc);
    let size32 = if over_32(size) {
        MARK32
    } else {
        size as u32
    };
    let sizes = le32(size32) + le32(size32);
    lemma_loc_words(name, size, crc);
    lemma_cdfh_words(name, size, crc, offset);
    assert(be32(LOC_MAGIC) =~= seq![0x50u8, 0x4b, 3, 4]);
    assert(be32(CDFH_MAGIC) =~= seq![0x50u8, 0x4b, 1, 2]);
    lemma_field16(shared, 0, 10);
    lemma_field_inside(h, 4, shared, 0, 2);
    assert(shared.subrange(10, 14) =~= crc);
    lemma_field_inside(h, 4, shared, 10, 4);
    lemma_field32(sizes, 0, size32);
    lemma_field32(sizes, 4, size32);
    lemma_field_inside(h, 18, sizes, 0, 4);
    lemma_field_inside(h, 18, sizes, 4, 4);
    if over_32(size) {
        lemma_loc_extra(size);
    }
    assert forall|i: int| 6 <= i < 14 implies #[trigger] h[i] == 0 by {
        assert(h[i] == h.subrange(4, 18)[i - 4]);
    }
    assert(r[4] == r.subrange(4, 6)[0] && r[5] == r.subrange(4, 6)[1]);
    lemma_field16(r, 4, 10);
}

/// The data of a local header's extra field.
proof fn lemma_loc_extra(size: usize)
    requires
        over_32(size),
    ensures
        zip64_data(loc_extra(size)).len() == 16,
        field(zip64_data(loc_extra(size)), 0, 8) == size,
        field(zip64_data(loc_extra(size)), 8, 8) == size,
{
    let held = loc_extra(size);
    let data = zip64_data(held);
    lemma_field16(held, 0, 1);
    lemma_field16(held, 2, 16);
    assert(data =~= le64(size as u64) + le64(size as u64));
    assert(data.subrange(0, 8) =~= le64(size as u64));
    assert(data.subrange(8, 16) =~= le64(size as u64));
    lemma_field64(data, 0, size as u64);
    lemma_field64(data, 8, size as u64);
}

/// The records that end an archive speak of one disk, count the entries the same way twice,
/// and end with an empty comment.
pub proof fn end_records_speak_of_one_disk(count: u64, offset: u64, size: u64)
    ensures
        ({
            let e = end_records_bytes(count, offset, size);
            &&& e.len() == 98
            &&& e.subrange(24, 32) == e.subrange(32, 40)
            &&& e.subrange(84, 86) == e.subrange(86, 88)
            &&& e.subrange(4, 12) == seq![44u8, 0, 0, 0, 0, 0, 0, 0]
            &&& e.subrange(12, 16) == seq![45u8, 0, 45, 0]
            &&& e.subrange(16, 24) == seq![0u8, 0, 0, 0, 0, 0, 0, 0]
            &&& e.subrange(60, 64) == seq![0u8, 0, 0, 0]
            &&& e.subrange(72, 76) == seq![1u8, 0, 0, 0]
            &&& e.subrange(80, 84) == seq![0u8, 0, 0, 0]
            &&& e.subrange(96, 98) == seq![0u8, 0]
        }),
{
    let e = end_records_bytes(count, offset, size);
    let first = zip64_eocd_bytes(count, offset, size);
    let second = zip64_locator_bytes((offset + size) as u64);
    let third = eocd_bytes(count, offset, size);
    let none = Seq::<u8>::empty();
    assert(e == first + second + third + none + none) by {
        reveal(end_records_bytes);
        assert(e =~= first + second + third + none + none);
    }
    lemma_five_parts(first, second, third, none, none);
    lemma_wide_end(count, offset, size);
    lemma_ends(count, offset, size);
    lemma_field_inside(e, 0, first, 24, 8);
    lemma_field_inside(e, 0, first, 32, 8);
    lemma_field_inside(e, 0, first, 4, 8);
    lemma_field_inside(e, 0, first, 12, 4);
    lemma_field_inside(e, 0, first, 16, 8);
    lemma_field_inside(e, 56, second, 4, 4);
    lemma_field_inside(e, 56, second, 16, 4);
    lemma_field_inside(e, 76, third, 4, 4);
    lemma_field_inside(e, 76, third, 8, 2);
    lemma_field_inside(e, 76, third, 10, 2);
    lemma_field_inside(e, 76, third, 20, 2);
}

proof fn lemma_wide_end(count: u64, offset: u64, size: u64)
    ensures
        ({
            let first = zip64_eocd_bytes(count, offset, size);
            &&& first.len() == 56
            &&& first.subrange(24, 32) == le64(count)
            &&& first.subrange(32, 40) == le64(count)
            &&& first.subrange(4, 12) == seq![44u8, 0, 0, 0, 0, 0, 0, 0]
            &&& first.subrange(12, 16) == seq![45u8, 0, 45, 0]
            &&& first.subrange(16, 24) == seq![0u8, 0, 0, 0, 0, 0, 0, 0]
        }),
{
    let first = zip64_eocd_bytes(count, offset, size);
    assert(first.subrange(24, 32) =~= le64(count));
    assert(first.subrange(32, 40) =~= le64(count));
    assert(first.subrange(4, 12) =~= le64(44));
    assert(le64(44) =~= seq![44u8, 0, 0, 0, 0, 0, 0, 0]);
    assert(first.subrange(12, 16) =~= le16(45) + le16(45));
    assert(le16(45) + le16(45) =~= seq![45u8, 0, 45, 0]);
    assert(first.subrange(16, 24) =~= le32(0) + le32(0));
    assert(le32(0) + le32(0) =~= seq![0u8, 0, 0, 0, 0, 0, 0, 0]);
}

proof fn lemma_ends(count: u64, offset: u64, size: u64)
    ensures
        ({
            let second = zip64_locator_bytes((offset + size) as u64);
            let third = eocd_bytes(count, offset, size);
            &&& second.len() == 20
            &&& second.subrange(4, 8) == seq![0u8, 0, 0, 0]
            &&& second.subrange(16, 20) == seq![1u8, 0, 0, 0]
            &&& third.len() == 22
            &&& third.subrange(4, 8) == seq![0u8, 0, 0, 0]
            &&& third.subrange(8, 10) == third.subrange(10, 12)
            &&& third.subrange(20, 22) == seq![0u8, 0]
        }),
{
    let second = zip64_locator_bytes((offset + size) as u64);
    let third = eocd_bytes(count, offset, size);
    assert(second.subrange(4, 8) =~= le32(0));
    assert(le32(0) =~= seq![0u8, 0, 0, 0]);
    assert(second.subrange(16, 20) =~= le32(1));
    assert(le32(1) =~= seq![1u8, 0, 0, 0]);
    assert(third.subrange(4, 8) =~= le16(0) + le16(0));
    assert(le16(0) + le16(0) =~= seq![0u8, 0, 0, 0]);
    assert(third.subrange(8, 10) =~= third.subrange(10, 12));
    assert(third.subrange(20, 22) =~= le16(0));
    assert(le16(0) =~= seq![0u8, 0]);
}

} // verus!
