//! Realising a plan: what is asked of S3 for each part, and what is made of the answers.

use crate::byte_range::ByteRange;
use crate::crc::{decode_s3_crc32, s3_crc32};
use crate::plan::{
    contents_match, distinct_ids, entries_stand_at_their_offsets, files_placed, lemma_file_of,
    placed_bytes, segment_bytes, segments_bytes, Contents, Entry, FileId, PartSpec, Segment,
    SourceFile,
};
use crate::text::{chars_of, decimal, decimal_text};
use crate::zip_format::{
    central_dir_entry, central_dir_entry_bytes, central_dir_entry_length, central_dir_entry_span,
    end_records, end_records_bytes, entry_span, entry_total_len, local_header, local_header_bytes,
    EntryMeta, U32_MAX,
};
use std::collections::HashMap;
use vstd::prelude::*;
use vstd::string::{StrSliceExecFns, StringExecFns};
use vstd::utf8::encode_utf8;

verus! {

/// Why an archive could not be put together.
#[derive(Debug)]
pub enum AssembleError {
    /// S3 opened an upload without saying which.
    NoUploadId,
    /// S3 took a part, in the given call, without an entity tag.
    NoEtag(String),
    /// The checksum of an object is missing or no checksum.
    BadCrc(String),
    /// S3 refused a call, with these words.
    S3(String),
    /// A body broke off, with these words.
    ByteStream(String),
}

impl AssembleError {
    /// The error in words.
    pub open spec fn text(&self) -> Seq<char> {
        match *self {
            AssembleError::NoUploadId => "missing upload id from create_multipart_upload"@,
            AssembleError::NoEtag(call) => "missing etag from "@ + call@,
            AssembleError::BadCrc(object) => "missing or undecodable CRC for object "@ + object@,
            AssembleError::S3(words) => "s3 error: "@ + words@,
            AssembleError::ByteStream(words) => "bytestream: "@ + words@,
        }
    }

    /// The error in words.
    pub fn message(&self) -> (text: String)
        ensures
            text@ == self.text(),
    {
        match self {
            AssembleError::NoUploadId => String::from_str(
                "missing upload id from create_multipart_upload",
            ),
            AssembleError::NoEtag(call) => {
                let mut s: String = String::from_str("missing etag from ");
                s.append(call.as_str());
                s
            },
            AssembleError::BadCrc(object) => {
                let mut s: String = String::from_str("missing or undecodable CRC for object ");
                s.append(object.as_str());
                s
            },
            AssembleError::S3(words) => {
                let mut s: String = String::from_str("s3 error: ");
                s.append(words.as_str());
                s
            },
            AssembleError::ByteStream(words) => {
                let mut s: String = String::from_str("bytestream: ");
                s.append(words.as_str());
                s
            },
        }
    }
}

/// The upload's identity in S3's answer.
pub fn upload_id_of(answer: Option<String>) -> (upload_id: Result<String, AssembleError>)
    ensures
        match answer {
            Some(id) => upload_id == Ok::<String, AssembleError>(id),
            None => upload_id == Err::<String, AssembleError>(AssembleError::NoUploadId),
        },
{
    match answer {
        Some(id) => Ok(id),
        None => Err(AssembleError::NoUploadId),
    }
}

/// The entity tag in S3's answer to a call.
pub fn etag_of(answer: Option<String>, call: &str) -> (etag: Result<String, AssembleError>)
    ensures
        match answer {
            Some(tag) => etag == Ok::<String, AssembleError>(tag),
            None => etag is Err && etag->Err_0 is NoEtag && etag->Err_0->NoEtag_0@ == call@,
        },
{
    match answer {
        Some(tag) => Ok(tag),
        None => Err(AssembleError::NoEtag(String::from_str(call))),
    }
}

/// The key of an object of this name.
pub open spec fn key_text(files_prefix: Seq<char>, name: Seq<char>) -> Seq<char> {
    files_prefix + "/"@ + name
}

/// The key of an object of this name.
pub fn object_key(files_prefix: &str, name: &str) -> (key: String)
    ensures
        key@ == key_text(files_prefix@, name@),
{
    let mut key: String = String::from_str(files_prefix);
    key.append("/");
    key.append(name);
    key
}

/// How S3 names an object in a copy.
pub fn copy_source(bucket: &str, key: &str) -> (source: String)
    ensures
        source@ == bucket@ + "/"@ + key@,
{
    let mut source: String = String::from_str(bucket);
    source.append("/");
    source.append(key);
    source
}

/// What follows the last slash of an archive's key, or all of it where there is none.
pub open spec fn basename_of(key: Seq<char>) -> Seq<char>
    decreases key.len(),
{
    if key.len() == 0 || key.last() == '/' {
        Seq::empty()
    } else {
        basename_of(key.drop_last()).push(key.last())
    }
}

/// What follows the last slash of an archive's key, or all of it where there is none.
pub fn archive_basename(archive_key: &str) -> (name: String)
    ensures
        name@ == basename_of(archive_key@),
{
    let chars: Vec<char> = chars_of(archive_key);
    let mut from: usize = chars.len();
    let ghost key = archive_key@;
    assert(key.take(from as int) =~= key);
    assert(basename_of(key) + key.skip(from as int) =~= basename_of(key));
    while from > 0 && chars[from - 1] != '/'
        invariant
            from <= chars@.len(),
            chars@ == key,
            basename_of(key) == basename_of(key.take(from as int)) + key.skip(from as int),
        decreases from,
    {
        proof {
            let head = key.take(from as int);
            assert(head.drop_last() =~= key.take(from - 1));
            assert(basename_of(head) + key.skip(from as int) =~= basename_of(key.take(from - 1))
                + key.skip(from - 1));
        }
        from = from - 1;
    }
    let name: String = String::from_str(archive_key.substring_char(from, chars.len()));
    proof {
        assert(basename_of(key.take(from as int)) =~= Seq::empty());
        assert(name@ =~= basename_of(key));
    }
    name
}

/// The key without its last slash and what precedes it: the name has no slash, and the key
/// is the name, or ends with a slash and the name.
pub proof fn basename_is_what_follows_the_last_slash(key: Seq<char>)
    ensures
        !basename_of(key).contains('/'),
        basename_of(key).len() <= key.len(),
        key.skip(key.len() - basename_of(key).len()) == basename_of(key),
        basename_of(key).len() < key.len() ==> key[key.len() - basename_of(key).len() - 1] == '/',
    decreases key.len(),
{
    if key.len() == 0 || key.last() == '/' {
        assert(key.skip(key.len() as int) =~= Seq::<char>::empty());
    } else {
        basename_is_what_follows_the_last_slash(key.drop_last());
        let shorter = basename_of(key.drop_last());
        let name = basename_of(key);
        assert(key.skip(key.len() - name.len()) =~= key.drop_last().skip(
            key.len() - 1 - shorter.len(),
        ).push(key.last()));
        assert forall|i: int| 0 <= i < name.len() implies name[i] != '/' by {
            if i < shorter.len() {
                assert(shorter[i] == name[i]);
                assert(shorter.contains(shorter[i]));
            }
        }
    }
}

/// What an entry's records say of it, given its checksum.
pub fn entry_meta(e: &Entry, crc: u32) -> (meta: EntryMeta)
    ensures
        meta.name == e.name,
        meta.size == e.size,
        meta.crc == crc,
        meta.local_header_offset == e.local_header_offset,
{
    EntryMeta {
        name: e.name.clone(),
        size: e.size,
        crc,
        local_header_offset: e.local_header_offset,
    }
}

/// Length of an entry: local header and content.
pub open spec fn planned_span(e: Entry) -> nat {
    entry_span(encode_utf8(e.name@), e.size)
}

/// The local header of an entry whose checksum is known.
pub open spec fn planned_header(e: Entry) -> Seq<u8> {
    local_header_bytes(encode_utf8(e.name@), e.size, e.crc->Some_0)
}

/// The directory record of an entry whose checksum is known.
pub open spec fn planned_record(e: Entry) -> Seq<u8> {
    central_dir_entry_bytes(
        encode_utf8(e.name@),
        e.size,
        e.crc->Some_0,
        e.local_header_offset,
    )
}

/// Length of the first `n` entries.
pub open spec fn order_span(entries: Map<u32, Entry>, order: Seq<FileId>, n: int) -> nat
    decreases n,
{
    if n <= 0 {
        0
    } else {
        order_span(entries, order, n - 1) + planned_span(entries[order[n - 1].0])
    }
}

/// Length of the directory records of the first `n` entries.
pub open spec fn records_span(entries: Map<u32, Entry>, order: Seq<FileId>, n: int) -> nat
    decreases n,
{
    if n <= 0 {
        0
    } else {
        let e = entries[order[n - 1].0];
        records_span(entries, order, n - 1) + central_dir_entry_span(
            encode_utf8(e.name@),
            e.local_header_offset,
        )
    }
}

/// The directory records of the first `n` entries.
pub open spec fn order_records(entries: Map<u32, Entry>, order: Seq<FileId>, n: int) -> Seq<u8>
    decreases n,
{
    if n <= 0 {
        Seq::empty()
    } else {
        order_records(entries, order, n - 1) + planned_record(entries[order[n - 1].0])
    }
}

/// The directory of the archive: a record for each entry, and the end records.
pub open spec fn directory_of(entries: Map<u32, Entry>, order: Seq<FileId>) -> Seq<u8> {
    order_records(entries, order, order.len() as int) + end_records_bytes(
        order.len() as u64,
        order_span(entries, order, order.len() as int) as u64,
        order_records(entries, order, order.len() as int).len() as u64,
    )
}

/// The first of the first `n` entries whose checksum is not known.
pub open spec fn first_without_crc(
    entries: Map<u32, Entry>,
    order: Seq<FileId>,
    n: int,
) -> Option<int>
    decreases n,
{
    if n <= 0 {
        None
    } else {
        match first_without_crc(entries, order, n - 1) {
            Some(i) => Some(i),
            None => if entries[order[n - 1].0].crc is None {
                Some(n - 1)
            } else {
                None
            },
        }
    }
}

/// Each ordered entry is there and small enough for the records, and the directory can be
/// addressed.
pub open spec fn realisable(entries: Map<u32, Entry>, order: Seq<FileId>) -> bool {
    &&& forall|i: int|
        0 <= i < order.len() ==> #[trigger] entries.contains_key(order[i].0)
            && entries[order[i].0].size <= U32_MAX
    &&& order_span(entries, order, order.len() as int) + records_span(
        entries,
        order,
        order.len() as int,
    ) <= u64::MAX
}

/// The directory as it comes out, or the name of the first entry without a checksum.
pub open spec fn directory_outcome(entries: Map<u32, Entry>, order: Seq<FileId>) -> Result<
    Seq<u8>,
    Seq<char>,
> {
    match first_without_crc(entries, order, order.len() as int) {
        None => Ok(directory_of(entries, order)),
        Some(i) => Err(entries[order[i].0].name@),
    }
}

/// A result that agrees with an outcome.
pub open spec fn agrees(result: Result<Vec<u8>, AssembleError>, outcome: Result<Seq<u8>, Seq<char>>) -> bool {
    match outcome {
        Ok(bytes) => result is Ok && result->Ok_0@ == bytes,
        Err(name) => result is Err && result->Err_0 is BadCrc && result->Err_0->BadCrc_0@ == name,
    }
}

proof fn lemma_order_span_monotonic(
    entries: Map<u32, Entry>,
    order: Seq<FileId>,
    i: int,
    j: int,
)
    requires
        i <= j,
    ensures
        order_span(entries, order, i) <= order_span(entries, order, j),
        records_span(entries, order, i) <= records_span(entries, order, j),
    decreases j - i,
{
    if i < j {
        lemma_order_span_monotonic(entries, order, i, j - 1);
    }
}

proof fn lemma_first_without_crc(
    entries: Map<u32, Entry>,
    order: Seq<FileId>,
    i: int,
    n: int,
)
    requires
        0 <= i < n,
        first_without_crc(entries, order, i) is None,
        entries[order[i].0].crc is None,
    ensures
        first_without_crc(entries, order, n) == Some(i),
    decreases n - i,
{
    if i < n - 1 {
        lemma_first_without_crc(entries, order, i, n - 1);
    }
}

/// The central directory and the end records of a plan whose checksums are known.
pub fn build_central_directory(order: &Vec<FileId>, entries: &HashMap<u32, Entry>) -> (result:
    Result<Vec<u8>, AssembleError>)
    requires
        realisable(entries@, order@),
    ensures
        agrees(result, directory_outcome(entries@, order@)),
{
    broadcast use vstd::std_specs::hash::group_hash_axioms;

    let mut cd_offset: u64 = 0;
    for i in 0..order.len()
        invariant
            realisable(entries@, order@),
            cd_offset == order_span(entries@, order@, i as int),
    {
        proof {
            lemma_order_span_monotonic(entries@, order@, i + 1, order@.len() as int);
            assert(entries@.contains_key(order@[i as int].0));
        }
        let e: &Entry = entries.get(&order[i].0).unwrap();
        cd_offset = cd_offset + entry_total_len(e.name.as_str(), e.size);
    }
    let mut out: Vec<u8> = Vec::new();
    let mut cd_size: u64 = 0;
    for i in 0..order.len()
        invariant
            realisable(entries@, order@),
            out@ == order_records(entries@, order@, i as int),
            out@.len() == records_span(entries@, order@, i as int),
            cd_size == out@.len(),
            first_without_crc(entries@, order@, i as int) is None,
    {
        proof {
            lemma_order_span_monotonic(entries@, order@, i + 1, order@.len() as int);
            assert(entries@.contains_key(order@[i as int].0));
        }
        let e: &Entry = entries.get(&order[i].0).unwrap();
        let crc: u32 = match e.crc {
            Some(crc) => crc,
            None => {
                proof {
                    lemma_first_without_crc(entries@, order@, i as int, order@.len() as int);
                }
                return Err(AssembleError::BadCrc(e.name.clone()));
            },
        };
        let meta: EntryMeta = entry_meta(e, crc);
        let mut record: Vec<u8> = central_dir_entry(&meta);
        proof {
            central_dir_entry_length(
                encode_utf8(e.name@),
                e.size,
                crc,
                e.local_header_offset,
            );
        }
        cd_size = cd_size + record.len() as u64;
        out.append(&mut record);
    }
    let mut end: Vec<u8> = end_records(order.len() as u64, cd_offset, cd_size);
    out.append(&mut end);
    Ok(out)
}

/// The bytes of a segment, given what was fetched for it, or the name of the entry whose
/// checksum is missing.
pub open spec fn segment_outcome(
    entries: Map<u32, Entry>,
    order: Seq<FileId>,
    segment: Segment,
    body: Seq<u8>,
) -> Result<Seq<u8>, Seq<char>> {
    match segment {
        Segment::StreamedFile { id } => if entries[id.0].crc is Some {
            Ok(planned_header(entries[id.0]) + body)
        } else {
            Err(entries[id.0].name@)
        },
        Segment::CopiedFileHeader { id } => if entries[id.0].crc is Some {
            Ok(planned_header(entries[id.0]))
        } else {
            Err(entries[id.0].name@)
        },
        Segment::StreamedBigPrefix { .. } => Ok(body),
        Segment::CentralDirectory => directory_outcome(entries, order),
    }
}

/// The bytes of the first `n` segments, or the name of the first entry whose checksum is
/// missing.
pub open spec fn stream_outcome(
    entries: Map<u32, Entry>,
    order: Seq<FileId>,
    segments: Seq<Segment>,
    bodies: Seq<Vec<u8>>,
    n: int,
) -> Result<Seq<u8>, Seq<char>>
    decreases n,
{
    if n <= 0 {
        Ok(Seq::empty())
    } else {
        match stream_outcome(entries, order, segments, bodies, n - 1) {
            Err(name) => Err(name),
            Ok(before) => match segment_outcome(entries, order, segments[n - 1], bodies[n - 1]@) {
                Err(name) => Err(name),
                Ok(own) => Ok(before + own),
            },
        }
    }
}

/// The entry that a segment speaks of is there and small enough for its header.
pub open spec fn segment_known(entries: Map<u32, Entry>, segment: Segment) -> bool {
    match segment {
        Segment::StreamedFile { id } => entries.contains_key(id.0) && entries[id.0].size
            <= U32_MAX,
        Segment::CopiedFileHeader { id } => entries.contains_key(id.0) && entries[id.0].size
            <= U32_MAX,
        Segment::StreamedBigPrefix { id, len } => entries.contains_key(id.0) && len > 0,
        Segment::CentralDirectory => true,
    }
}

proof fn lemma_stream_error(
    entries: Map<u32, Entry>,
    order: Seq<FileId>,
    segments: Seq<Segment>,
    bodies: Seq<Vec<u8>>,
    i: int,
    n: int,
)
    requires
        0 <= i <= n,
        stream_outcome(entries, order, segments, bodies, i) is Err,
    ensures
        stream_outcome(entries, order, segments, bodies, n) == stream_outcome(
            entries,
            order,
            segments,
            bodies,
            i,
        ),
    decreases n - i,
{
    if i < n {
        lemma_stream_error(entries, order, segments, bodies, i, n - 1);
    }
}

/// The local header of an entry, or an error where its checksum is missing.
fn header_of(e: &Entry) -> (result: Result<Vec<u8>, AssembleError>)
    requires
        e.size <= U32_MAX,
    ensures
        agrees(
            result,
            if e.crc is Some {
                Ok(planned_header(*e))
            } else {
                Err(e.name@)
            },
        ),
{
    match e.crc {
        Some(crc) => {
            let meta: EntryMeta = entry_meta(e, crc);
            Ok(local_header(&meta))
        },
        None => Err(AssembleError::BadCrc(e.name.clone())),
    }
}

/// Puts a stream part together from what was fetched for its segments.
pub fn build_stream_part_bytes(
    order: &Vec<FileId>,
    entries: &HashMap<u32, Entry>,
    segments: &Vec<Segment>,
    bodies: &Vec<Vec<u8>>,
) -> (result: Result<Vec<u8>, AssembleError>)
    requires
        bodies@.len() == segments@.len(),
        realisable(entries@, order@),
        forall|i: int|
            0 <= i < segments@.len() ==> segment_known(entries@, #[trigger] segments@[i]),
    ensures
        agrees(
            result,
            stream_outcome(entries@, order@, segments@, bodies@, segments@.len() as int),
        ),
{
    broadcast use vstd::std_specs::hash::group_hash_axioms;

    let mut buf: Vec<u8> = Vec::new();
    for i in 0..segments.len()
        invariant
            bodies@.len() == segments@.len(),
            realisable(entries@, order@),
            forall|i: int|
                0 <= i < segments@.len() ==> segment_known(entries@, #[trigger] segments@[i]),
            stream_outcome(entries@, order@, segments@, bodies@, i as int) == Ok::<
                Seq<u8>,
                Seq<char>,
            >(buf@),
    {
        let ghost own = segment_outcome(
            entries@,
            order@,
            segments@[i as int],
            bodies@[i as int]@,
        );
        proof {
            assert(segment_known(entries@, segments@[i as int]));
            if own is Err {
                lemma_stream_error(
                    entries@,
                    order@,
                    segments@,
                    bodies@,
                    i + 1,
                    segments@.len() as int,
                );
            }
        }
        let ghost before = buf@;
        match segments[i] {
            Segment::StreamedFile { id } => {
                let e: &Entry = entries.get(&id.0).unwrap();
                match header_of(e) {
                    Ok(header) => {
                        let mut header: Vec<u8> = header;
                        buf.append(&mut header);
                        crate::le_bytes::push_bytes(&mut buf, bodies[i].as_slice());
                        assert(buf@ =~= before + own->Ok_0);
                    },
                    Err(e) => {
                        return Err(e);
                    },
                }
            },
            Segment::CopiedFileHeader { id } => {
                let e: &Entry = entries.get(&id.0).unwrap();
                match header_of(e) {
                    Ok(header) => {
                        let mut header: Vec<u8> = header;
                        buf.append(&mut header);
                    },
                    Err(e) => {
                        return Err(e);
                    },
                }
            },
            Segment::StreamedBigPrefix { .. } => {
                crate::le_bytes::push_bytes(&mut buf, bodies[i].as_slice());
            },
            Segment::CentralDirectory => match build_central_directory(order, entries) {
                Ok(directory) => {
                    let mut directory: Vec<u8> = directory;
                    buf.append(&mut directory);
                },
                Err(e) => {
                    return Err(e);
                },
            },
        }
    }
    Ok(buf)
}

/// An object, or a range of it, that is to be fetched.
#[derive(Debug)]
pub struct FetchRequest {
    pub key: String,
    pub range: Option<ByteRange>,
}

/// What is fetched for a segment: the object's key, and the range where it is not the whole.
pub open spec fn fetch_of(
    entries: Map<u32, Entry>,
    files_prefix: Seq<char>,
    segment: Segment,
) -> Option<(Seq<char>, Option<ByteRange>)> {
    match segment {
        Segment::StreamedFile { id } => Some(
            (key_text(files_prefix, entries[id.0].name@), None),
        ),
        Segment::StreamedBigPrefix { id, len } => Some(
            (
                key_text(files_prefix, entries[id.0].name@),
                Some(ByteRange { first: 0, last: (len - 1) as u64 }),
            ),
        ),
        _ => None,
    }
}

/// What is copied for a part: the object, as S3 names it in a copy, and the range where it is
/// not the whole.
pub open spec fn copy_of(
    entries: Map<u32, Entry>,
    bucket: Seq<char>,
    files_prefix: Seq<char>,
    id: FileId,
    copy_from: u64,
) -> (Seq<char>, Option<ByteRange>) {
    (
        bucket + "/"@ + key_text(files_prefix, entries[id.0].name@),
        if copy_from > 0 {
            Some(ByteRange { first: copy_from, last: (entries[id.0].size - 1) as u64 })
        } else {
            None
        },
    )
}

/// What is to be fetched for a segment: the file, its first bytes, or nothing.
pub fn segment_fetch(entries: &HashMap<u32, Entry>, files_prefix: &str, segment: &Segment) -> (
    request: Option<FetchRequest>)
    requires
        segment_known(entries@, *segment),
    ensures
        match *segment {
            Segment::StreamedFile { id } => {
                &&& request is Some
                &&& request->Some_0.key@ == key_text(files_prefix@, entries@[id.0].name@)
                &&& request->Some_0.range is None
            },
            Segment::StreamedBigPrefix { id, len } => {
                &&& request is Some
                &&& request->Some_0.key@ == key_text(files_prefix@, entries@[id.0].name@)
                &&& request->Some_0.range == Some(ByteRange { first: 0, last: (len - 1) as u64 })
            },
            _ => request is None,
        },
        match fetch_of(entries@, files_prefix@, *segment) {
            Some(fetch) => {
                &&& request is Some
                &&& request->Some_0.key@ == fetch.0
                &&& request->Some_0.range == fetch.1
            },
            None => request is None,
        },
{
    broadcast use vstd::std_specs::hash::group_hash_axioms;

    match segment {
        Segment::StreamedFile { id } => {
            let e: &Entry = entries.get(&id.0).unwrap();
            Some(FetchRequest { key: object_key(files_prefix, e.name.as_str()), range: None })
        },
        Segment::StreamedBigPrefix { id, len } => {
            let e: &Entry = entries.get(&id.0).unwrap();
            Some(
                FetchRequest {
                    key: object_key(files_prefix, e.name.as_str()),
                    range: Some(ByteRange { first: 0, last: *len - 1 }),
                },
            )
        },
        _ => None,
    }
}

/// A copy inside S3 that makes one part.
#[derive(Debug)]
pub struct CopyRequest {
    pub part_number: u32,
    pub source: String,
    pub range: Option<ByteRange>,
}

/// The copy of a big from byte `copy_from` on. Where that is its first byte, no range is
/// given.
pub fn copy_request(
    entries: &HashMap<u32, Entry>,
    bucket: &str,
    files_prefix: &str,
    part_number: u32,
    id: FileId,
    copy_from: u64,
) -> (request: CopyRequest)
    requires
        entries@.contains_key(id.0),
        copy_from > 0 ==> entries@[id.0].size > 0,
    ensures
        request.part_number == part_number,
        (request.source@, request.range) == copy_of(
            entries@,
            bucket@,
            files_prefix@,
            id,
            copy_from,
        ),
        request.source@ == bucket@ + "/"@ + key_text(files_prefix@, entries@[id.0].name@),
        request.range == (if copy_from > 0 {
            Some(ByteRange { first: copy_from, last: (entries@[id.0].size - 1) as u64 })
        } else {
            None
        }),
{
    broadcast use vstd::std_specs::hash::group_hash_axioms;

    let e: &Entry = entries.get(&id.0).unwrap();
    let key: String = object_key(files_prefix, e.name.as_str());
    CopyRequest {
        part_number,
        source: copy_source(bucket, key.as_str()),
        range: if copy_from > 0 {
            Some(ByteRange { first: copy_from, last: e.size - 1 })
        } else {
            None
        },
    }
}

/// The copied parts among the first `n`.
pub open spec fn copies_among(parts: Seq<PartSpec>, n: nat) -> Seq<(u32, FileId, u64)>
    decreases n,
{
    if n == 0 {
        Seq::empty()
    } else {
        let before = copies_among(parts, (n - 1) as nat);
        match parts[n - 1] {
            PartSpec::Copy { part_number, id, copy_from } => before.push(
                (part_number, id, copy_from),
            ),
            PartSpec::Stream { .. } => before,
        }
    }
}

/// The streamed parts among the first `n`.
pub open spec fn streams_among(parts: Seq<PartSpec>, n: nat) -> Seq<(u32, Seq<Segment>)>
    decreases n,
{
    if n == 0 {
        Seq::empty()
    } else {
        let before = streams_among(parts, (n - 1) as nat);
        match parts[n - 1] {
            PartSpec::Copy { .. } => before,
            PartSpec::Stream { part_number, segments } => before.push((part_number, segments@)),
        }
    }
}

/// Splits the parts into those that S3 copies and those that are streamed: the two kinds are
/// worked off independently.
pub fn split_pools(parts: &Vec<PartSpec>) -> (pools: (
    Vec<(u32, FileId, u64)>,
    Vec<(u32, Vec<Segment>)>,
))
    ensures
        pools.0@ == copies_among(parts@, parts@.len()),
        Seq::new(pools.1@.len(), |i: int| (pools.1@[i].0, pools.1@[i].1@)) == streams_among(
            parts@,
            parts@.len(),
        ),
{
    let mut copies: Vec<(u32, FileId, u64)> = Vec::new();
    let mut streams: Vec<(u32, Vec<Segment>)> = Vec::new();
    assert(Seq::new(streams@.len(), |i: int| (streams@[i].0, streams@[i].1@)) =~= Seq::empty());
    for n in 0..parts.len()
        invariant
            copies@ == copies_among(parts@, n as nat),
            Seq::new(streams@.len(), |i: int| (streams@[i].0, streams@[i].1@)) == streams_among(
                parts@,
                n as nat,
            ),
    {
        let ghost before = streams@;
        match &parts[n] {
            PartSpec::Copy { part_number, id, copy_from } => {
                copies.push((*part_number, *id, *copy_from));
            },
            PartSpec::Stream { part_number, segments } => {
                let own: Vec<Segment> = segments.clone();
                assert(own@ =~= segments@);
                streams.push((*part_number, own));
                assert(Seq::new(streams@.len(), |i: int| (streams@[i].0, streams@[i].1@))
                    =~= Seq::new(before.len(), |i: int| (before[i].0, before[i].1@)).push(
                    (*part_number, segments@),
                ));
            },
        }
    }
    (copies, streams)
}

/// The objects whose checksums are asked for: all, in the order of the archive.
pub fn crc_jobs(order: &Vec<FileId>, entries: &HashMap<u32, Entry>, files_prefix: &str) -> (jobs:
    Vec<(FileId, String)>)
    requires
        forall|i: int| 0 <= i < order@.len() ==> #[trigger] entries@.contains_key(order@[i].0),
    ensures
        jobs@.len() == order@.len(),
        forall|i: int|
            0 <= i < jobs@.len() ==> (#[trigger] jobs@[i]).0 == order@[i] && jobs@[i].1@
                == key_text(files_prefix@, entries@[order@[i].0].name@),
{
    broadcast use vstd::std_specs::hash::group_hash_axioms;

    let mut jobs: Vec<(FileId, String)> = Vec::new();
    for i in 0..order.len()
        invariant
            forall|i: int| 0 <= i < order@.len() ==> #[trigger] entries@.contains_key(order@[i].0),
            jobs@.len() == i,
            forall|j: int|
                0 <= j < i ==> (#[trigger] jobs@[j]).0 == order@[j] && jobs@[j].1@ == key_text(
                    files_prefix@,
                    entries@[order@[j].0].name@,
                ),
    {
        assert(entries@.contains_key(order@[i as int].0));
        let e: &Entry = entries.get(&order[i].0).unwrap();
        jobs.push((order[i], object_key(files_prefix, e.name.as_str())));
    }
    jobs
}

/// The checksum in S3's answer.
pub open spec fn answered_crc(answer: Option<String>) -> Option<u32> {
    match answer {
        Some(text) => s3_crc32(text@),
        None => None,
    }
}

/// The entries with a checksum filled in.
pub open spec fn with_crc(entries: Map<u32, Entry>, id: FileId, crc: u32) -> Map<u32, Entry> {
    if entries.contains_key(id.0) {
        let e = entries[id.0];
        entries.insert(
            id.0,
            Entry {
                id: e.id,
                name: e.name,
                size: e.size,
                local_header_offset: e.local_header_offset,
                crc: Some(crc),
                streamed: e.streamed,
            },
        )
    } else {
        entries
    }
}

/// The entries with the checksums of the first `n` answers filled in.
pub open spec fn crcs_filled(
    entries: Map<u32, Entry>,
    answers: Seq<(FileId, Option<String>)>,
    n: nat,
) -> Map<u32, Entry>
    decreases n,
{
    if n == 0 {
        entries
    } else {
        with_crc(
            crcs_filled(entries, answers, (n - 1) as nat),
            answers[n - 1].0,
            answered_crc(answers[n - 1].1)->Some_0,
        )
    }
}

/// The words for a file's identity.
pub open spec fn id_text(id: FileId) -> Seq<char> {
    "FileId("@ + decimal_text(id.0 as nat) + ")"@
}

pub(crate) fn id_debug(id: FileId) -> (text: String)
    ensures
        text@ == id_text(id),
{
    let mut text: String = String::from_str("FileId(");
    text.append(decimal(id.0 as u64).as_str());
    text.append(")");
    text
}

/// Fills in the checksums that S3 answered. The first answer without a checksum ends it.
pub fn fill_crcs(entries: &mut HashMap<u32, Entry>, answers: Vec<(FileId, Option<String>)>) -> (
    result: Result<(), AssembleError>)
    ensures
        match result {
            Ok(_) => {
                &&& forall|i: int|
                    0 <= i < answers@.len() ==> answered_crc((#[trigger] answers@[i]).1) is Some
                &&& final(entries)@ == crcs_filled(old(entries)@, answers@, answers@.len())
            },
            Err(e) => exists|i: int|
                {
                    &&& 0 <= i < answers@.len()
                    &&& answered_crc((#[trigger] answers@[i]).1) is None
                    &&& forall|j: int|
                        0 <= j < i ==> answered_crc((#[trigger] answers@[j]).1) is Some
                    &&& final(entries)@ == crcs_filled(old(entries)@, answers@, i as nat)
                    &&& e is BadCrc
                    &&& e->BadCrc_0@ == id_text(answers@[i].0)
                },
        },
{
    broadcast use vstd::std_specs::hash::group_hash_axioms;

    let ghost before = entries@;
    for i in 0..answers.len()
        invariant
            before == old(entries)@,
            forall|j: int| 0 <= j < i ==> answered_crc((#[trigger] answers@[j]).1) is Some,
            entries@ == crcs_filled(before, answers@, i as nat),
    {
        let id: FileId = answers[i].0;
        let crc: Option<u32> = match &answers[i].1 {
            Some(text) => decode_s3_crc32(text.as_str()),
            None => None,
        };
        assert(crc == answered_crc(answers@[i as int].1));
        match crc {
            Some(crc) => {
                let ghost now = entries@;
                match entries.remove(&id.0) {
                    Some(e) => {
                        let mut e: Entry = e;
                        e.crc = Some(crc);
                        entries.insert(id.0, e);
                        assert(entries@ =~= with_crc(now, id, crc));
                    },
                    None => {
                        assert(entries@ =~= now);
                    },
                }
            },
            None => {
                assert(answered_crc(answers@[i as int].1) is None);
                return Err(AssembleError::BadCrc(id_debug(id)));
            },
        }
    }
    Ok(())
}

/// The entries are those of the files, their checksums known.
pub open spec fn entries_realise(
    entries: Map<u32, Entry>,
    files: Seq<SourceFile>,
    contents: Contents,
) -> bool {
    forall|i: int|
        #![trigger files[i]]
        0 <= i < files.len() ==> {
            let e = entries[files[i].id.0];
            &&& entries.contains_key(files[i].id.0)
            &&& e.name@ == files[i].name@
            &&& e.size == files[i].size
            &&& e.crc == Some((contents.crc)(files[i].id))
        }
}

/// What S3 gives for a segment.
pub open spec fn fetched(contents: Contents, segment: Segment) -> Seq<u8> {
    match segment {
        Segment::StreamedFile { id } => (contents.body)(id),
        Segment::StreamedBigPrefix { id, len } => (contents.body)(id).take(len as int),
        _ => Seq::empty(),
    }
}

/// The file that a segment speaks of is one of `files`.
pub open spec fn segment_listed(files: Seq<SourceFile>, segment: Segment) -> bool {
    match segment {
        Segment::StreamedFile { id } => exists|i: int|
            0 <= i < files.len() && #[trigger] files[i].id == id,
        Segment::CopiedFileHeader { id } => exists|i: int|
            0 <= i < files.len() && #[trigger] files[i].id == id,
        _ => true,
    }
}

/// A stream part that is put together from what S3 gives holds its segments' bytes.
pub proof fn stream_parts_hold_their_segments(
    files: Seq<SourceFile>,
    contents: Contents,
    entries: Map<u32, Entry>,
    order: Seq<FileId>,
    segments: Seq<Segment>,
    bodies: Seq<Vec<u8>>,
    n: int,
)
    requires
        distinct_ids(files),
        entries_realise(entries, files, contents),
        first_without_crc(entries, order, order.len() as int) is None,
        bodies.len() == segments.len(),
        forall|i: int|
            0 <= i < segments.len() ==> segment_listed(files, #[trigger] segments[i])
                && bodies[i]@ == fetched(contents, segments[i]),
        0 <= n <= segments.len(),
    ensures
        stream_outcome(entries, order, segments, bodies, n) == Ok::<Seq<u8>, Seq<char>>(
            segments_bytes(files, contents, directory_of(entries, order), segments.take(n)),
        ),
    decreases n,
{
    let directory = directory_of(entries, order);
    if n == 0 {
        assert(segments.take(0) =~= Seq::empty());
    } else {
        stream_parts_hold_their_segments(
            files,
            contents,
            entries,
            order,
            segments,
            bodies,
            n - 1,
        );
        let segment = segments[n - 1];
        assert(segments.take(n).drop_last() =~= segments.take(n - 1));
        assert(segment_listed(files, segment));
        match segment {
            Segment::StreamedFile { id } => {
                let i = choose|i: int| 0 <= i < files.len() && #[trigger] files[i].id == id;
                lemma_file_of(files, i);
            },
            Segment::CopiedFileHeader { id } => {
                let i = choose|i: int| 0 <= i < files.len() && #[trigger] files[i].id == id;
                lemma_file_of(files, i);
            },
            _ => {},
        }
        assert(segment_outcome(entries, order, segment, bodies[n - 1]@) == Ok::<
            Seq<u8>,
            Seq<char>,
        >(segment_bytes(files, contents, directory, segment)));
    }
}

/// The end records tell where the directory starts: right behind the last entry.
pub proof fn directory_starts_behind_the_entries(
    placed: Seq<(SourceFile, bool)>,
    contents: Contents,
    entries: Map<u32, Entry>,
    order: Seq<FileId>,
    n: int,
)
    requires
        contents_match(files_placed(placed), contents),
        entries_realise(entries, files_placed(placed), contents),
        order == Seq::new(placed.len(), |i: int| placed[i].0.id),
        0 <= n <= placed.len(),
    ensures
        order_span(entries, order, n) == placed_bytes(placed.take(n), contents).len(),
    decreases n,
{
    entries_stand_at_their_offsets(placed, contents, n);
    if n > 0 {
        directory_starts_behind_the_entries(placed, contents, entries, order, n - 1);
        entries_stand_at_their_offsets(placed, contents, n - 1);
        assert(files_placed(placed)[n - 1] == placed[n - 1].0);
    }
}

/// The key of an object is its prefix, a slash, and its name: from the key both are found
/// again.
pub proof fn keys_hold_prefix_and_name(files_prefix: Seq<char>, name: Seq<char>)
    ensures
        key_text(files_prefix, name).len() == files_prefix.len() + 1 + name.len(),
        key_text(files_prefix, name).take(files_prefix.len() as int) == files_prefix,
        key_text(files_prefix, name)[files_prefix.len() as int] == '/',
        key_text(files_prefix, name).skip(files_prefix.len() as int + 1) == name,
{
    reveal_strlit("/");
    let key = key_text(files_prefix, name);
    assert(key.take(files_prefix.len() as int) =~= files_prefix);
    assert(key.skip(files_prefix.len() as int + 1) =~= name);
}

/// The bytes that S3 gives for a key, or for a range of its object.
pub open spec fn asked_bytes(object: Seq<u8>, range: Option<ByteRange>) -> Seq<u8> {
    match range {
        Some(r) => object.subrange(r.first as int, r.last + 1),
        None => object,
    }
}

/// What is fetched for a streamed file is its whole content, and for a streamed prefix the
/// first bytes of it, as many as the plan says; for a header or the directory nothing is
/// fetched.
pub proof fn fetches_bring_what_is_streamed(
    entries: Map<u32, Entry>,
    files_prefix: Seq<char>,
    segment: Segment,
    objects: spec_fn(Seq<char>) -> Seq<u8>,
    body: Seq<u8>,
)
    ensures
        segment matches Segment::StreamedFile { id } ==> {
            let fetch = fetch_of(entries, files_prefix, segment);
            objects(files_prefix + "/"@ + entries[id.0].name@) == body ==> fetch is Some
                && asked_bytes(objects(fetch->Some_0.0), fetch->Some_0.1) == body
        },
        segment matches Segment::StreamedBigPrefix { id, len } ==> {
            let fetch = fetch_of(entries, files_prefix, segment);
            objects(files_prefix + "/"@ + entries[id.0].name@) == body && 0 < len <= body.len()
                ==> fetch is Some && asked_bytes(objects(fetch->Some_0.0), fetch->Some_0.1)
                == body.take(len as int)
        },
        segment is CopiedFileHeader || segment is CentralDirectory ==> fetch_of(
            entries,
            files_prefix,
            segment,
        ) is None,
{
    if let Segment::StreamedBigPrefix { id, len } = segment {
        if 0 < len <= body.len() {
            assert(body.subrange(0, len as int) =~= body.take(len as int));
        }
    }
}

/// A copied part is all of the file's content behind what was streamed of it.
pub proof fn copies_take_the_rest(
    entries: Map<u32, Entry>,
    bucket: Seq<char>,
    files_prefix: Seq<char>,
    id: FileId,
    copy_from: u64,
    objects: spec_fn(Seq<char>) -> Seq<u8>,
    body: Seq<u8>,
)
    requires
        objects(bucket + "/"@ + (files_prefix + "/"@ + entries[id.0].name@)) == body,
        body.len() == entries[id.0].size,
        copy_from <= body.len(),
        copy_from > 0 ==> body.len() > 0,
    ensures
        ({
            let (source, range) = copy_of(entries, bucket, files_prefix, id, copy_from);
            asked_bytes(objects(source), range) == body.skip(copy_from as int)
        }),
{
    assert(body.skip(0) =~= body);
    if copy_from > 0 {
        assert(body.subrange(copy_from as int, body.len() as int) =~= body.skip(copy_from as int));
    }
}

/// Every part goes into one of the two pools, with all that it says.
pub proof fn every_part_is_pooled(parts: Seq<PartSpec>, n: nat, i: int)
    requires
        n <= parts.len(),
        0 <= i < n,
    ensures
        copies_among(parts, n).len() + streams_among(parts, n).len() == n,
        match parts[i] {
            PartSpec::Copy { part_number, id, copy_from } => copies_among(parts, n).contains(
                (part_number, id, copy_from),
            ),
            PartSpec::Stream { part_number, segments } => streams_among(parts, n).contains(
                (part_number, segments@),
            ),
        },
    decreases n,
{
    let copies = copies_among(parts, (n - 1) as nat);
    let streams = streams_among(parts, (n - 1) as nat);
    if i < n - 1 {
        every_part_is_pooled(parts, (n - 1) as nat, i);
        match parts[i] {
            PartSpec::Copy { part_number, id, copy_from } => {
                let item = (part_number, id, copy_from);
                let at = choose|at: int| 0 <= at < copies.len() && copies[at] == item;
                assert(copies_among(parts, n)[at] == item);
            },
            PartSpec::Stream { part_number, segments } => {
                let item = (part_number, segments@);
                let at = choose|at: int| 0 <= at < streams.len() && streams[at] == item;
                assert(streams_among(parts, n)[at] == item);
            },
        }
    } else {
        if n > 1 {
            every_part_is_pooled(parts, (n - 1) as nat, 0);
        }
        match parts[i] {
            PartSpec::Copy { part_number, id, copy_from } => {
                assert(copies_among(parts, n)[copies.len() as int] == (part_number, id, copy_from));
            },
            PartSpec::Stream { part_number, segments } => {
                assert(streams_among(parts, n)[streams.len() as int] == (part_number, segments@));
            },
        }
    }
}

/// Filling checksums in gives each entry the checksum of the last answer for it, and changes
/// nothing else: an entry without an answer keeps what it has.
pub proof fn answers_fill_checksums_alone(
    entries: Map<u32, Entry>,
    answers: Seq<(FileId, Option<String>)>,
    n: nat,
    k: u32,
)
    requires
        n <= answers.len(),
        entries.contains_key(k),
    ensures
        ({
            let after = crcs_filled(entries, answers, n);
            &&& after.dom() == entries.dom()
            &&& after[k].id == entries[k].id && after[k].name == entries[k].name
            &&& after[k].size == entries[k].size && after[k].streamed == entries[k].streamed
            &&& after[k].local_header_offset == entries[k].local_header_offset
            &&& forall|i: int|
                0 <= i < n && (#[trigger] answers[i]).0.0 == k && answers[i].1 is Some && (forall|
                    j: int,
                |
                    i < j < n ==> (#[trigger] answers[j]).0.0 != k) && s3_crc32(
                    answers[i].1->Some_0@,
                ) is Some ==> after[k].crc == s3_crc32(answers[i].1->Some_0@)
            &&& (forall|i: int| 0 <= i < n ==> (#[trigger] answers[i]).0.0 != k) ==> after[k].crc
                == entries[k].crc
        }),
    decreases n,
{
    if n > 0 {
        let m = (n - 1) as nat;
        answers_fill_checksums_alone(entries, answers, m, k);
        let before = crcs_filled(entries, answers, m);
        let after = crcs_filled(entries, answers, n);
        assert(before.contains_key(k));
        let id = answers[n - 1].0;
        assert(after.dom() =~= before.dom());
        if id.0 != k {
            assert(after[k] == before[k]);
        }
    }
}

/// The directory can be made exactly where every entry has its checksum.
pub proof fn directories_need_every_checksum(
    entries: Map<u32, Entry>,
    order: Seq<FileId>,
    n: int,
)
    requires
        0 <= n <= order.len(),
    ensures
        first_without_crc(entries, order, n) is None <==> forall|i: int|
            0 <= i < n ==> entries[(#[trigger] order[i]).0].crc is Some,
        first_without_crc(entries, order, n) matches Some(i) ==> {
            &&& 0 <= i < n
            &&& entries[order[i].0].crc is None
            &&& forall|j: int| 0 <= j < i ==> entries[(#[trigger] order[j]).0].crc is Some
        },
    decreases n,
{
    if n > 0 {
        directories_need_every_checksum(entries, order, n - 1);
        if first_without_crc(entries, order, n) is None {
            assert forall|i: int| 0 <= i < n implies entries[(
            #[trigger] order[i]).0].crc is Some by {}
        }
        if forall|i: int| 0 <= i < n ==> entries[(#[trigger] order[i]).0].crc is Some {
            assert(entries[order[n - 1].0].crc is Some);
        }
    }
}

/// Whether every entry that a segment speaks of has its checksum.
pub open spec fn checksums_at_hand(
    entries: Map<u32, Entry>,
    order: Seq<FileId>,
    segment: Segment,
) -> bool {
    &&& segment matches Segment::StreamedFile { id } ==> entries[id.0].crc is Some
    &&& segment matches Segment::CopiedFileHeader { id } ==> entries[id.0].crc is Some
    &&& segment is CentralDirectory ==> forall|i: int|
        0 <= i < order.len() ==> entries[(#[trigger] order[i]).0].crc is Some
}

/// A stream part can be made exactly where every entry that it speaks of has its checksum:
/// no header is left out and none is written without one.
pub proof fn streams_need_every_checksum(
    entries: Map<u32, Entry>,
    order: Seq<FileId>,
    segments: Seq<Segment>,
    bodies: Seq<Vec<u8>>,
    n: int,
)
    requires
        0 <= n <= segments.len(),
    ensures
        stream_outcome(entries, order, segments, bodies, n) is Ok <==> forall|i: int|
            0 <= i < n ==> checksums_at_hand(entries, order, #[trigger] segments[i]),
    decreases n,
{
    if n > 0 {
        streams_need_every_checksum(entries, order, segments, bodies, n - 1);
        directories_need_every_checksum(entries, order, order.len() as int);
        let last = segments[n - 1];
        assert(segment_outcome(entries, order, last, bodies[n - 1]@) is Ok <==> checksums_at_hand(
            entries,
            order,
            last,
        ));
        if forall|i: int| 0 <= i < n ==> checksums_at_hand(entries, order, #[trigger] segments[i]) {
            assert(checksums_at_hand(entries, order, last));
        }
    }
}

} // verus!
