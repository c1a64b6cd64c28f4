//! ZIP records of an archive whose layout is fixed before any checksum is known.
//!
//! A local header is created without its checksum and gets it later, when S3 has told it.
//! Sizes and offsets past 4 GiB go into ZIP64 extra fields, and the ZIP64 end records are
//! written only where they are needed.

use crate::le_bytes::{be32, le16, le32, le64, p16, p32, p64, push_bytes};
use crate::zip_format::low16;
use base64::Engine;
use vstd::prelude::*;
use vstd::utf8::encode_utf8;

verus! {

/// A value that is written into the archive.
pub trait ZipSerialize {
    /// The value's bytes in the archive.
    spec fn zip_bytes(&self) -> Seq<u8>;

    /// Appends the value's bytes and returns how many they are.
    fn dump(&self, out: &mut Vec<u8>) -> (written: usize)
        requires
            self.zip_bytes().len() <= usize::MAX,
        ensures
            final(out)@ == old(out)@ + self.zip_bytes(),
            written == self.zip_bytes().len(),
    ;
}

impl ZipSerialize for u16 {
    open spec fn zip_bytes(&self) -> Seq<u8> {
        le16(*self)
    }

    fn dump(&self, out: &mut Vec<u8>) -> (written: usize) {
        p16(out, *self);
        assert(out@ == old(out)@ + self.zip_bytes());
        2
    }
}

impl ZipSerialize for u32 {
    open spec fn zip_bytes(&self) -> Seq<u8> {
        le32(*self)
    }

    fn dump(&self, out: &mut Vec<u8>) -> (written: usize) {
        p32(out, *self);
        assert(out@ == old(out)@ + self.zip_bytes());
        4
    }
}

impl ZipSerialize for u64 {
    open spec fn zip_bytes(&self) -> Seq<u8> {
        le64(*self)
    }

    fn dump(&self, out: &mut Vec<u8>) -> (written: usize) {
        p64(out, *self);
        assert(out@ == old(out)@ + self.zip_bytes());
        8
    }
}

impl ZipSerialize for [u8] {
    open spec fn zip_bytes(&self) -> Seq<u8> {
        self@
    }

    fn dump(&self, out: &mut Vec<u8>) -> (written: usize) {
        push_bytes(out, self);
        assert(out@ == old(out)@ + self.zip_bytes());
        self.len()
    }
}

/// The signature of a record, written in reading order.
#[derive(Debug, Clone, Copy, PartialEq, Eq, Structural)]
pub struct Magic(pub u32);

impl ZipSerialize for Magic {
    open spec fn zip_bytes(&self) -> Seq<u8> {
        be32(self.0)
    }

    fn dump(&self, out: &mut Vec<u8>) -> (written: usize) {
        let v: u32 = self.0;
        out.push((v / 0x100_0000) as u8);
        out.push(((v / 0x1_0000) % 256) as u8);
        out.push(((v / 0x100) % 256) as u8);
        out.push((v % 256) as u8);
        assert(out@ =~= old(out)@ + self.zip_bytes());
        4
    }
}

/// A CRC-32 in the byte order of the archive: least significant first.
#[derive(Debug, Clone, Copy)]
pub struct CRC32(pub [u8; 4]);

impl ZipSerialize for CRC32 {
    open spec fn zip_bytes(&self) -> Seq<u8> {
        self.0@
    }

    fn dump(&self, out: &mut Vec<u8>) -> (written: usize) {
        let bytes: &[u8] = self.0.as_slice();
        push_bytes(out, bytes);
        assert(out@ == old(out)@ + self.zip_bytes());
        4
    }
}

/// Why a checksum text is no base64, or holds too much.
#[derive(Debug, Clone, Copy, PartialEq, Eq, Structural)]
pub enum Base64Error {
    /// A byte outside the alphabet, at this place.
    InvalidByte(usize, u8),
    /// A text of this length cannot be decoded.
    InvalidLength(usize),
    /// The last symbol at this place holds bits that would be lost.
    InvalidLastSymbol(usize, u8),
    /// The padding is not what it has to be.
    InvalidPadding,
    /// More than four bytes.
    OutputSliceTooSmall,
}

/// The symbol of the standard base64 alphabet for six bits.
pub open spec fn base64_symbol(v: nat) -> char {
    if v < 26 {
        (65 + v) as char
    } else if v < 52 {
        (97 + (v - 26)) as char
    } else if v < 62 {
        (48 + (v - 52)) as char
    } else if v == 62 {
        '+'
    } else {
        '/'
    }
}

/// How S3 spells a CRC-32: its four bytes, most significant first, in padded base64.
pub open spec fn s3_checksum_text(crc: u32) -> Seq<char> {
    seq![
        base64_symbol((crc / 0x400_0000) as nat),
        base64_symbol(((crc / 0x10_0000) % 64) as nat),
        base64_symbol(((crc / 0x4000) % 64) as nat),
        base64_symbol(((crc / 0x100) % 64) as nat),
        base64_symbol(((crc / 4) % 64) as nat),
        base64_symbol(((crc % 4) * 16) as nat),
        '=',
        '=',
    ]
}

/// What decoding a text as standard base64 over four zero bytes leaves in them.
pub uninterp spec fn base64_over_four_zeros(text: Seq<char>) -> Result<Seq<u8>, Base64Error>;

/// `decode_slice` of the `base64` crate's standard engine (padded, standard alphabet), into
/// four bytes that are zero before the call. Trusted: the outcome depends on the text
/// alone, and a text that spells four bytes in padded base64 gives those four bytes.
#[verifier::external_body]
fn decode_four(text: &str) -> (bytes: Result<[u8; 4], Base64Error>)
    ensures
        match bytes {
            Ok(b) => base64_over_four_zeros(text@) == Ok::<Seq<u8>, Base64Error>(b@),
            Err(e) => base64_over_four_zeros(text@) == Err::<Seq<u8>, Base64Error>(e),
        },
        forall|crc: u32|
            text@ == #[trigger] s3_checksum_text(crc) ==> bytes is Ok && bytes->Ok_0@ == be32(crc),
{
    let mut b = [0u8; 4];
    match base64::prelude::BASE64_STANDARD.decode_slice(text, &mut b) {
        Ok(_) => Ok(b),
        Err(base64::DecodeSliceError::OutputSliceTooSmall) => Err(Base64Error::OutputSliceTooSmall),
        Err(base64::DecodeSliceError::DecodeError(e)) => Err(match e {
            base64::DecodeError::InvalidByte(at, b) => Base64Error::InvalidByte(at, b),
            base64::DecodeError::InvalidLength(n) => Base64Error::InvalidLength(n),
            base64::DecodeError::InvalidLastSymbol(at, b) => Base64Error::InvalidLastSymbol(at, b),
            base64::DecodeError::InvalidPadding => Base64Error::InvalidPadding,
        }),
    }
}

impl CRC32 {
    /// Turns the decoded checksum, most significant byte first, round.
    pub fn from_big_endian(bytes: [u8; 4]) -> (crc: CRC32)
        ensures
            crc.0@ == bytes@.reverse(),
    {
        let crc: CRC32 = CRC32([bytes[3], bytes[2], bytes[1], bytes[0]]);
        assert(crc.0@ =~= bytes@.reverse());
        crc
    }

    /// Reads a checksum as S3 spells it.
    pub fn from_str(s: &str) -> (crc: Result<CRC32, Base64Error>)
        ensures
            match crc {
                Ok(c) => base64_over_four_zeros(s@) is Ok && c.0@ == base64_over_four_zeros(
                    s@,
                )->Ok_0.reverse(),
                Err(e) => base64_over_four_zeros(s@) == Err::<Seq<u8>, Base64Error>(e),
            },
            forall|v: u32|
                s@ == #[trigger] s3_checksum_text(v) ==> crc is Ok && crc->Ok_0.0@ == le32(v),
    {
        match decode_four(s) {
            Ok(bytes) => {
                let crc: CRC32 = CRC32::from_big_endian(bytes);
                proof {
                    assert forall|v: u32| s@ == #[trigger] s3_checksum_text(v) implies crc.0@
                        == le32(v) by {
                        assert(be32(v).reverse() =~= le32(v));
                    }
                }
                Ok(crc)
            },
            Err(e) => Err(e),
        }
    }
}

/// Whether a header has its checksum yet.
pub trait CRCStatus {

}

/// The checksum is not known yet.
#[derive(Debug, Clone, Copy, PartialEq, Eq, Structural)]
pub struct NoCRC;

impl CRCStatus for NoCRC {

}

impl CRCStatus for CRC32 {

}

/// Signature of a local file header.
pub const LOC_MAGIC: u32 = 0x504B_0304;

/// Signature of a central directory file header.
pub const CDFH_MAGIC: u32 = 0x504B_0102;

/// Signature of the end of central directory record.
pub const EOCD_MAGIC: u32 = 0x504B_0506;

/// Signature of the ZIP64 end of central directory record.
pub const EOCD64_MAGIC: u32 = 0x504B_0606;

/// Signature of the ZIP64 end of central directory locator.
pub const EOCD64_LOCATOR_MAGIC: u32 = 0x504B_0607;

/// Version needed to extract: 1.0.
pub const MIN_VER: u16 = 10;

/// Version made by: 1.0.
pub const VER_MADE_BY: u16 = 10;

/// Length of a local file header without name and extra field.
pub const BASE_LOC_LENGTH: usize = 30;

/// Length of the extra field that holds the sizes.
pub const LOC_ZIP64EXT_LENGTH: usize = 20;

/// Length of a central directory file header without name and extra field.
pub const BASE_CDFH_LENGTH: usize = 46;

/// Length of the extra field that holds the sizes.
pub const CDFH_SIZE_ZIP64EXT_LENGTH: usize = 20;

/// Length of the extra field that holds the sizes and the offset.
pub const CDFH_OFFSET_ZIP64EXT_LENGTH: usize = 28;

/// Length of the classic end record.
pub const EOCD_LENGTH: usize = 22;

/// Length of the ZIP64 end record.
pub const EOCD64_LENGTH: usize = 56;

/// Length of the ZIP64 locator.
pub const EOCD64_LOCATOR_LENGTH: usize = 20;

/// Whether a value is too large for a 32-bit field.
pub open spec fn over_32(v: usize) -> bool {
    v > 0xFFFF_FFFF
}

/// A 32-bit field: the value, or the marker that a ZIP64 record holds it.
pub open spec fn field_32(v: usize, marked: bool) -> Seq<u8> {
    if marked {
        le32(0xFFFF_FFFF)
    } else {
        le32(v as u32)
    }
}

/// Length of a local file header for a name of `name_len` bytes.
pub open spec fn loc_span(file_size: usize, name_len: nat) -> nat {
    if over_32(file_size) {
        (BASE_LOC_LENGTH + LOC_ZIP64EXT_LENGTH + name_len) as nat
    } else {
        (BASE_LOC_LENGTH + name_len) as nat
    }
}

/// Length of a central directory file header for a name of `name_len` bytes.
pub open spec fn cdfh_span(file_size: usize, name_len: nat, loc_offset: usize) -> nat {
    if over_32(loc_offset) {
        (BASE_CDFH_LENGTH + CDFH_OFFSET_ZIP64EXT_LENGTH + name_len) as nat
    } else if over_32(file_size) {
        (BASE_CDFH_LENGTH + CDFH_SIZE_ZIP64EXT_LENGTH + name_len) as nat
    } else {
        (BASE_CDFH_LENGTH + name_len) as nat
    }
}

/// The extra field of a local file header.
pub open spec fn loc_extra(file_size: usize) -> Seq<u8> {
    if over_32(file_size) {
        le16(1) + le16(16) + le64(file_size as u64) + le64(file_size as u64)
    } else {
        Seq::empty()
    }
}

/// A local file header.
#[verifier::opaque]
pub open spec fn loc_bytes(name: Seq<u8>, file_size: usize, crc: Seq<u8>) -> Seq<u8> {
    be32(LOC_MAGIC) + le16(MIN_VER) + le16(0) + le16(0) + le16(0) + le16(0) + crc + field_32(
        file_size,
        over_32(file_size),
    ) + field_32(file_size, over_32(file_size)) + le16(low16(name.len())) + le16(
        loc_extra(file_size).len() as u16,
    ) + name + loc_extra(file_size)
}

/// The extra field of a central directory file header: the sizes, and the offset where it
/// is what needs it.
pub open spec fn cdfh_extra(file_size: usize, offset: usize) -> Seq<u8> {
    if over_32(offset) {
        le16(1) + le16(24) + le64(file_size as u64) + le64(file_size as u64) + le64(offset as u64)
    } else if over_32(file_size) {
        le16(1) + le16(16) + le64(file_size as u64) + le64(file_size as u64)
    } else {
        Seq::empty()
    }
}

/// A central directory file header.
#[verifier::opaque]
pub open spec fn cdfh_bytes(
    name: Seq<u8>,
    file_size: usize,
    crc: Seq<u8>,
    offset: usize,
) -> Seq<u8> {
    let sizes_marked = over_32(offset) || over_32(file_size);
    be32(CDFH_MAGIC) + le16(VER_MADE_BY) + le16(MIN_VER) + le16(0) + le16(0) + le16(0) + le16(0)
        + crc + field_32(file_size, sizes_marked) + field_32(file_size, sizes_marked) + le16(
        low16(name.len()),
    ) + le16(cdfh_extra(file_size, offset).len() as u16) + le16(0) + le16(0) + le16(0) + le32(0)
        + field_32(offset, over_32(offset)) + name + cdfh_extra(file_size, offset)
}

/// Local file header of an entry, with or without its checksum.
#[derive(Debug, Clone)]
pub struct LocalFileHeader<C: CRCStatus> {
    /// Where the header starts in the archive.
    pub offset: usize,
    pub name: String,
    pub crc32: C,
    pub file_size: usize,
}

impl<C: CRCStatus> LocalFileHeader<C> {
    /// The entry's name as it stands in the archive.
    pub open spec fn name_bytes(&self) -> Seq<u8> {
        encode_utf8(self.name@)
    }

    /// Length of the header.
    pub open spec fn span(&self) -> nat {
        loc_span(self.file_size, self.name_bytes().len())
    }

    /// Length of the header.
    pub fn size(&self) -> (len: usize)
        requires
            self.span() <= usize::MAX,
        ensures
            len == self.span(),
    {
        let name: &[u8] = self.name.as_str().as_bytes();
        Self::predict_size(self.file_size, name.len())
    }

    /// Length of a header, without one at hand.
    pub fn predict_size(file_size: usize, name_len: usize) -> (len: usize)
        requires
            loc_span(file_size, name_len as nat) <= usize::MAX,
        ensures
            len == loc_span(file_size, name_len as nat),
    {
        if file_size > u32::MAX as usize {
            BASE_LOC_LENGTH + LOC_ZIP64EXT_LENGTH + name_len
        } else {
            BASE_LOC_LENGTH + name_len
        }
    }
}

impl LocalFileHeader<NoCRC> {
    /// A header at the given offset, its checksum still open.
    pub fn new(offset: usize, name: String, size: usize) -> (header: LocalFileHeader<NoCRC>)
        ensures
            header.offset == offset,
            header.name == name,
            header.file_size == size,
    {
        LocalFileHeader { offset, name, crc32: NoCRC, file_size: size }
    }

    /// The same header with its checksum.
    pub fn set_crc(self, crc32: CRC32) -> (header: LocalFileHeader<CRC32>)
        ensures
            header.offset == self.offset,
            header.name == self.name,
            header.crc32 == crc32,
            header.file_size == self.file_size,
    {
        LocalFileHeader { offset: self.offset, name: self.name, crc32, file_size: self.file_size }
    }
}

/// A local file header is as long as `loc_span` says.
pub proof fn loc_length(name: Seq<u8>, file_size: usize, crc: Seq<u8>)
    requires
        crc.len() == 4,
    ensures
        loc_bytes(name, file_size, crc).len() == loc_span(file_size, name.len()),
{
    reveal(loc_bytes);
}

/// A central directory file header is as long as `cdfh_span` says.
pub proof fn cdfh_length(name: Seq<u8>, file_size: usize, crc: Seq<u8>, offset: usize)
    requires
        crc.len() == 4,
    ensures
        cdfh_bytes(name, file_size, crc, offset).len() == cdfh_span(file_size, name.len(), offset),
{
    reveal(cdfh_bytes);
}

impl ZipSerialize for LocalFileHeader<CRC32> {
    open spec fn zip_bytes(&self) -> Seq<u8> {
        loc_bytes(encode_utf8(self.name@), self.file_size, self.crc32.0@)
    }

    fn dump(&self, out: &mut Vec<u8>) -> (written: usize) {
        proof {
            loc_length(self.name_bytes(), self.file_size, self.crc32.0@);
            reveal(loc_bytes);
        }
        let wide: bool = self.file_size > u32::MAX as usize;
        let name: &[u8] = self.name.as_str().as_bytes();
        let mut b: Vec<u8> = Vec::new();
        let mut n: usize = Magic(LOC_MAGIC).dump(&mut b);
        assert(b@ =~= be32(LOC_MAGIC));
        n = n + MIN_VER.dump(&mut b);
        n = n + 0u16.dump(&mut b);
        n = n + 0u16.dump(&mut b);
        n = n + 0u16.dump(&mut b);
        n = n + 0u16.dump(&mut b);
        n = n + self.crc32.dump(&mut b);
        let size_field: u32 = if wide {
            u32::MAX
        } else {
            self.file_size as u32
        };
        n = n + size_field.dump(&mut b);
        n = n + size_field.dump(&mut b);
        let name_len: u16 = (name.len() % 0x1_0000) as u16;
        n = n + name_len.dump(&mut b);
        let extra_len: u16 = if wide {
            20
        } else {
            0
        };
        n = n + extra_len.dump(&mut b);
        n = n + name.dump(&mut b);
        let ghost before = b@;
        if wide {
            let size: u64 = self.file_size as u64;
            n = n + 1u16.dump(&mut b);
            n = n + 16u16.dump(&mut b);
            n = n + size.dump(&mut b);
            n = n + size.dump(&mut b);
        }
        assert(b@ =~= before + loc_extra(self.file_size));
        assert(b@ == self.zip_bytes());
        out.append(&mut b);
        n
    }
}

/// Central directory file header: the finished local header, written as a directory record.
#[derive(Debug, Clone)]
pub struct CentralDirectoryFileHeader(pub LocalFileHeader<CRC32>);

impl CentralDirectoryFileHeader {
    /// The record of a finished local header.
    pub fn from_loc(loc: LocalFileHeader<CRC32>) -> (record: CentralDirectoryFileHeader)
        ensures
            record.0 == loc,
    {
        CentralDirectoryFileHeader(loc)
    }

    /// Length of a record, without one at hand.
    pub fn predict_size(file_size: usize, name_len: usize, loc_offset: usize) -> (len: usize)
        requires
            cdfh_span(file_size, name_len as nat, loc_offset) <= usize::MAX,
        ensures
            len == cdfh_span(file_size, name_len as nat, loc_offset),
    {
        if loc_offset > u32::MAX as usize {
            BASE_CDFH_LENGTH + CDFH_OFFSET_ZIP64EXT_LENGTH + name_len
        } else if file_size > u32::MAX as usize {
            BASE_CDFH_LENGTH + CDFH_SIZE_ZIP64EXT_LENGTH + name_len
        } else {
            BASE_CDFH_LENGTH + name_len
        }
    }

    /// The extra field.
    fn extra(&self) -> (extra: Vec<u8>)
        ensures
            extra@ == cdfh_extra(self.0.file_size, self.0.offset),
    {
        let mut b: Vec<u8> = Vec::new();
        let wide_offset: bool = self.0.offset > u32::MAX as usize;
        if wide_offset || self.0.file_size > u32::MAX as usize {
            p16(&mut b, 1);
            p16(
                &mut b,
                if wide_offset {
                    24
                } else {
                    16
                },
            );
            p64(&mut b, self.0.file_size as u64);
            p64(&mut b, self.0.file_size as u64);
            if wide_offset {
                p64(&mut b, self.0.offset as u64);
            }
        }
        assert(b@ =~= cdfh_extra(self.0.file_size, self.0.offset));
        b
    }
}

impl ZipSerialize for CentralDirectoryFileHeader {
    open spec fn zip_bytes(&self) -> Seq<u8> {
        cdfh_bytes(
            encode_utf8(self.0.name@),
            self.0.file_size,
            self.0.crc32.0@,
            self.0.offset,
        )
    }

    fn dump(&self, out: &mut Vec<u8>) -> (written: usize) {
        proof {
            cdfh_length(
                encode_utf8(self.0.name@),
                self.0.file_size,
                self.0.crc32.0@,
                self.0.offset,
            );
            reveal(cdfh_bytes);
        }
        let wide_offset: bool = self.0.offset > u32::MAX as usize;
        let wide: bool = wide_offset || self.0.file_size > u32::MAX as usize;
        let name: &[u8] = self.0.name.as_str().as_bytes();
        let extra: Vec<u8> = self.extra();
        let mut b: Vec<u8> = Vec::new();
        let mut n: usize = Magic(CDFH_MAGIC).dump(&mut b);
        assert(b@ =~= be32(CDFH_MAGIC));
        n = n + VER_MADE_BY.dump(&mut b);
        n = n + MIN_VER.dump(&mut b);
        n = n + 0u16.dump(&mut b);
        n = n + 0u16.dump(&mut b);
        n = n + 0u16.dump(&mut b);
        n = n + 0u16.dump(&mut b);
        n = n + self.0.crc32.dump(&mut b);
        let size_field: u32 = if wide {
            u32::MAX
        } else {
            self.0.file_size as u32
        };
        n = n + size_field.dump(&mut b);
        n = n + size_field.dump(&mut b);
        let name_len: u16 = (name.len() % 0x1_0000) as u16;
        n = n + name_len.dump(&mut b);
        let extra_len: u16 = extra.len() as u16;
        n = n + extra_len.dump(&mut b);
        n = n + 0u16.dump(&mut b);
        n = n + 0u16.dump(&mut b);
        n = n + 0u16.dump(&mut b);
        n = n + 0u32.dump(&mut b);
        let offset_field: u32 = if wide_offset {
            u32::MAX
        } else {
            self.0.offset as u32
        };
        n = n + offset_field.dump(&mut b);
        n = n + name.dump(&mut b);
        n = n + extra.as_slice().dump(&mut b);
        assert(b@ == self.zip_bytes());
        out.append(&mut b);
        n
    }
}

/// The records that end the archive.
#[derive(Debug, Clone, Copy, PartialEq, Eq, Structural)]
pub struct EndOfCentralDirectory64 {
    pub record_count: usize,
    pub central_directory_size: usize,
    /// Where the first central directory file header starts.
    pub central_directory_offset: usize,
    /// Where the ZIP64 end record starts.
    pub eocd64_offset: usize,
}

/// Whether a value is too large for its field in the classic end record.
pub open spec fn eocd64_needed(
    central_directory_size: usize,
    central_directory_offset: usize,
    record_count: usize,
) -> bool {
    central_directory_size > 0xFFFF_FFFF || central_directory_offset > 0xFFFF_FFFF || record_count
        > 0xFFFF
}

impl EndOfCentralDirectory64 {
    /// Whether the ZIP64 records are written.
    pub open spec fn wide(&self) -> bool {
        eocd64_needed(
            self.central_directory_size,
            self.central_directory_offset,
            self.record_count,
        )
    }

    /// Length of the records.
    pub open spec fn span(&self) -> nat {
        if self.wide() {
            (EOCD_LENGTH + EOCD64_LENGTH + EOCD64_LOCATOR_LENGTH) as nat
        } else {
            EOCD_LENGTH as nat
        }
    }

    /// The ZIP64 end record.
    pub open spec fn eocd64_bytes(&self) -> Seq<u8> {
        be32(EOCD64_MAGIC) + le64(44) + le16(VER_MADE_BY) + le16(MIN_VER) + le32(0) + le32(0)
            + le64(self.record_count as u64) + le64(self.record_count as u64) + le64(
            self.central_directory_size as u64,
        ) + le64(self.central_directory_offset as u64)
    }

    /// The ZIP64 locator.
    pub open spec fn eocd64_locator_bytes(&self) -> Seq<u8> {
        be32(EOCD64_LOCATOR_MAGIC) + le32(0) + le64(self.eocd64_offset as u64) + le32(0)
    }

    /// The classic end record: the values, or markers in every field.
    pub open spec fn eocd_bytes(&self) -> Seq<u8> {
        if self.wide() {
            be32(EOCD_MAGIC) + le16(0xFFFF) + le16(0xFFFF) + le16(0xFFFF) + le16(0xFFFF) + le32(
                0xFFFF_FFFF,
            ) + le32(0xFFFF_FFFF) + le16(0)
        } else {
            be32(EOCD_MAGIC) + le16(0) + le16(0) + le16(self.record_count as u16) + le16(
                self.record_count as u16,
            ) + le32(self.central_directory_size as u32) + le32(
                self.central_directory_offset as u32,
            ) + le16(0)
        }
    }

    /// Whether the ZIP64 records are needed.
    pub fn need_eocd64(
        central_directory_size: usize,
        central_directory_offset: usize,
        record_count: usize,
    ) -> (needed: bool)
        ensures
            needed == eocd64_needed(central_directory_size, central_directory_offset, record_count),
    {
        central_directory_size > u32::MAX as usize || central_directory_offset > u32::MAX as usize
            || record_count > u16::MAX as usize
    }

    /// Length of the records.
    pub fn size(&self) -> (len: usize)
        ensures
            len == self.span(),
    {
        if Self::need_eocd64(
            self.central_directory_size,
            self.central_directory_offset,
            self.record_count,
        ) {
            EOCD_LENGTH + EOCD64_LENGTH + EOCD64_LOCATOR_LENGTH
        } else {
            EOCD_LENGTH
        }
    }

    /// Appends the ZIP64 end record.
    fn dump_eocd64(&self, out: &mut Vec<u8>) -> (written: usize)
        ensures
            final(out)@ == old(out)@ + self.eocd64_bytes(),
            written == EOCD64_LENGTH,
            self.eocd64_bytes().len() == EOCD64_LENGTH,
    {
        let count: u64 = self.record_count as u64;
        let mut b: Vec<u8> = Vec::new();
        let mut n: usize = Magic(EOCD64_MAGIC).dump(&mut b);
        assert(b@ =~= be32(EOCD64_MAGIC));
        n = n + 44u64.dump(&mut b);
        n = n + VER_MADE_BY.dump(&mut b);
        n = n + MIN_VER.dump(&mut b);
        n = n + 0u32.dump(&mut b);
        n = n + 0u32.dump(&mut b);
        n = n + count.dump(&mut b);
        n = n + count.dump(&mut b);
        n = n + (self.central_directory_size as u64).dump(&mut b);
        n = n + (self.central_directory_offset as u64).dump(&mut b);
        out.append(&mut b);
        n
    }

    /// Appends the ZIP64 locator.
    fn dump_eocd64_locator(&self, out: &mut Vec<u8>) -> (written: usize)
        ensures
            final(out)@ == old(out)@ + self.eocd64_locator_bytes(),
            written == EOCD64_LOCATOR_LENGTH,
            self.eocd64_locator_bytes().len() == EOCD64_LOCATOR_LENGTH,
    {
        let mut b: Vec<u8> = Vec::new();
        let mut n: usize = Magic(EOCD64_LOCATOR_MAGIC).dump(&mut b);
        assert(b@ =~= be32(EOCD64_LOCATOR_MAGIC));
        n = n + 0u32.dump(&mut b);
        n = n + (self.eocd64_offset as u64).dump(&mut b);
        n = n + 0u32.dump(&mut b);
        out.append(&mut b);
        n
    }

    /// Appends the classic end record.
    fn dump_eocd(&self, out: &mut Vec<u8>, need_eocd64: bool) -> (written: usize)
        requires
            need_eocd64 == self.wide(),
        ensures
            final(out)@ == old(out)@ + self.eocd_bytes(),
            written == EOCD_LENGTH,
            self.eocd_bytes().len() == EOCD_LENGTH,
    {
        let disk: u16 = if need_eocd64 {
            u16::MAX
        } else {
            0
        };
        let count: u16 = if need_eocd64 {
            u16::MAX
        } else {
            self.record_count as u16
        };
        let size: u32 = if need_eocd64 {
            u32::MAX
        } else {
            self.central_directory_size as u32
        };
        let offset: u32 = if need_eocd64 {
            u32::MAX
        } else {
            self.central_directory_offset as u32
        };
        let mut b: Vec<u8> = Vec::new();
        let mut n: usize = Magic(EOCD_MAGIC).dump(&mut b);
        assert(b@ =~= be32(EOCD_MAGIC));
        n = n + disk.dump(&mut b);
        n = n + disk.dump(&mut b);
        n = n + count.dump(&mut b);
        n = n + count.dump(&mut b);
        n = n + size.dump(&mut b);
        n = n + offset.dump(&mut b);
        n = n + 0u16.dump(&mut b);
        out.append(&mut b);
        n
    }
}

/// The end records are as long as `span` says.
pub proof fn end_records_span(records: EndOfCentralDirectory64)
    ensures
        records.zip_bytes().len() == records.span(),
{
    assert(records.eocd64_bytes().len() == EOCD64_LENGTH);
    assert(records.eocd64_locator_bytes().len() == EOCD64_LOCATOR_LENGTH);
    assert(records.eocd_bytes().len() == EOCD_LENGTH);
}

impl ZipSerialize for EndOfCentralDirectory64 {
    open spec fn zip_bytes(&self) -> Seq<u8> {
        if self.wide() {
            self.eocd64_bytes() + self.eocd64_locator_bytes() + self.eocd_bytes()
        } else {
            self.eocd_bytes()
        }
    }

    fn dump(&self, out: &mut Vec<u8>) -> (written: usize) {
        let need_eocd64: bool = Self::need_eocd64(
            self.central_directory_size,
            self.central_directory_offset,
            self.record_count,
        );
        let mut n: usize = 0;
        if need_eocd64 {
            n = n + self.dump_eocd64(out);
            n = n + self.dump_eocd64_locator(out);
        }
        n = n + self.dump_eocd(out, need_eocd64);
        assert(out@ =~= old(out)@ + self.zip_bytes());
        n
    }
}

/// The ZIP64 records are written exactly where a value does not fit its field in the classic
/// end record: 32 bits for the place and the length of the directory, 16 for the count. In
/// the same way a size or a place goes to a ZIP64 field exactly where 32 bits do not hold it.
pub proof fn wide_records_come_where_needed(size: usize, offset: usize, count: usize)
    ensures
        eocd64_needed(size, offset, count) <==> size > u32::MAX || offset > u32::MAX || count
            > u16::MAX,
        loc_extra(size).len() > 0 <==> size > u32::MAX,
        cdfh_extra(size, offset).len() > 0 <==> size > u32::MAX || offset > u32::MAX,
{
}

} // verus!
