//! Realising a chain plan: the parts of every link, where its object goes, and which
//! checksums a segment has to wait for.

use crate::assemble::{
    answered_crc, copy_source, id_debug, id_text, key_text, object_key, CopyRequest,
    FetchRequest,
};
use crate::byte_range::ByteRange;
use crate::crc::decode_s3_crc32;
use crate::plan::{
    bigs_of, contents_match, distinct_ids, file_of, lemma_file_of, Contents, FileId, SourceFile,
};
use crate::plan_chain::{
    chain_entries_of, chain_order, chain_smalls_of, directory_span, first_part,
    is_chain_plan, last_part, piece_bytes, ChainPlan, Entry, Link, Piece, Segment,
};
use crate::retry::ChainError;
use crate::sorting::{sort_items, sorting_keeps_items};
use crate::text::{decimal, decimal_text, padded_decimal, padded_text};
use crate::zip_format::{
    central_dir_entry, central_dir_entry_bytes, central_dir_entry_length, central_dir_entry_span,
    end_records, end_records_bytes, local_header, local_header_bytes, EntryMeta, U32_MAX,
};
use std::collections::HashMap;
use vstd::prelude::*;
use vstd::string::StringExecFns;
use vstd::utf8::encode_utf8;

verus! {

/// The checksums that have come so far, by the number of the file.
#[derive(Debug)]
pub struct CrcStore {
    pub map: HashMap<u32, u32>,
}

impl CrcStore {
    /// No checksum yet.
    pub fn new() -> (store: CrcStore)
        ensures
            store.map@ == Map::<u32, u32>::empty(),
    {
        CrcStore { map: HashMap::new() }
    }

    /// Notes a checksum.
    pub fn put(&mut self, id: FileId, crc: u32)
        ensures
            final(self).map@ == old(self).map@.insert(id.0, crc),
    {
        broadcast use vstd::std_specs::hash::group_hash_axioms;

        self.map.insert(id.0, crc);
    }

    /// The checksum of a file, if it has come.
    pub fn get(&self, id: FileId) -> (crc: Option<u32>)
        ensures
            crc == (if self.map@.contains_key(id.0) {
                Some(self.map@[id.0])
            } else {
                None
            }),
    {
        broadcast use vstd::std_specs::hash::group_hash_axioms;

        match self.map.get(&id.0) {
            Some(crc) => Some(*crc),
            None => None,
        }
    }

    /// Whether the checksums of all these files have come.
    pub fn has_all(&self, ids: &Vec<FileId>) -> (yes: bool)
        ensures
            yes == (forall|i: int|
                0 <= i < ids@.len() ==> self.map@.contains_key((#[trigger] ids@[i]).0)),
    {
        for i in 0..ids.len()
            invariant
                forall|j: int| 0 <= j < i ==> self.map@.contains_key((#[trigger] ids@[j]).0),
        {
            if self.get(ids[i]).is_none() {
                assert(!self.map@.contains_key(ids@[i as int].0));
                return false;
            }
        }
        true
    }
}

/// The file that a piece is of.
pub open spec fn piece_file(piece: Piece) -> FileId {
    match piece {
        Piece::Header(id) => id,
        Piece::Body(id) => id,
    }
}

/// The file that a piece is of.
pub fn piece_id(p: &Piece) -> (id: FileId)
    ensures
        id == piece_file(*p),
{
    match p {
        Piece::Header(id) => *id,
        Piece::Body(id) => *id,
    }
}

/// The files that a link speaks of.
pub open spec fn link_files(link: Link) -> Seq<FileId> {
    match link {
        Link::Bootstrap { anchor, .. } => seq![anchor],
        Link::AnchorOnly { anchor } => seq![anchor],
        Link::AnchorThenAppend { anchor, piece } => seq![anchor, piece_file(piece)],
        Link::ForwardThenAppend { piece } => seq![piece_file(piece)],
    }
}

/// The files that the first `n` links speak of.
pub open spec fn links_files(links: Seq<Link>, n: nat) -> Seq<FileId>
    decreases n,
{
    if n == 0 {
        Seq::empty()
    } else {
        links_files(links, (n - 1) as nat) + link_files(links[n - 1])
    }
}

/// The files whose checksums a segment needs: those that its links speak of, each once, in
/// the order of their numbers.
pub fn segment_crc_ids(seg: &Segment) -> (ids: Vec<FileId>)
    ensures
        forall|i: int, j: int| 0 <= i < j < ids@.len() ==> (#[trigger] ids@[i]).0 < (
        #[trigger] ids@[j]).0,
        forall|id: FileId|
            ids@.contains(id) <==> links_files(seg.links@, seg.links@.len()).contains(id),
{
    let ghost all = links_files(seg.links@, seg.links@.len());
    let mut found: Vec<FileId> = Vec::new();
    for n in 0..seg.links.len()
        invariant
            found@ == links_files(seg.links@, n as nat),
    {
        let ghost before = found@;
        match seg.links[n] {
            Link::Bootstrap { anchor, .. } => {
                found.push(anchor);
            },
            Link::AnchorOnly { anchor } => {
                found.push(anchor);
            },
            Link::AnchorThenAppend { anchor, piece } => {
                found.push(anchor);
                found.push(piece_id(&piece));
            },
            Link::ForwardThenAppend { piece } => {
                found.push(piece_id(&piece));
            },
        }
        assert(found@ =~= before + link_files(seg.links@[n as int]));
    }
    sort_and_dedup(found)
}

/// Keys that put the lower number first.
pub open spec fn id_keys(ids: Seq<FileId>) -> Seq<(u64, u64)> {
    Seq::new(ids.len(), |i: int| (ids[i].0 as u64, 0))
}

/// The files, each once, in the order of their numbers.
fn sort_and_dedup(ids: Vec<FileId>) -> (sorted: Vec<FileId>)
    ensures
        forall|i: int, j: int| 0 <= i < j < sorted@.len() ==> (#[trigger] sorted@[i]).0 < (
        #[trigger] sorted@[j]).0,
        forall|id: FileId| sorted@.contains(id) <==> ids@.contains(id),
{
    broadcast use vstd::seq_lib::group_to_multiset_ensures;

    let ghost all = ids@;
    let mut keys: Vec<(u64, u64)> = Vec::new();
    for i in 0..ids.len()
        invariant
            ids@ == all,
            keys@ == id_keys(all).take(i as int),
    {
        keys.push((ids[i].0 as u64, 0));
        assert(keys@ =~= id_keys(all).take(i + 1));
    }
    assert(keys@ =~= id_keys(all));
    proof {
        assert(ids@.len() == ids.len());
        sorting_keeps_items(all, keys@);
        lemma_sorted_ids(all, keys@);
    }
    let ordered: Vec<FileId> = sort_items(ids, &keys);
    let mut sorted: Vec<FileId> = Vec::new();
    for i in 0..ordered.len()
        invariant
            forall|a: int, b: int|
                0 <= a < b < ordered@.len() ==> (#[trigger] ordered@[a]).0 <= (
                #[trigger] ordered@[b]).0,
            forall|a: int, b: int|
                0 <= a < b < sorted@.len() ==> (#[trigger] sorted@[a]).0 < (
                #[trigger] sorted@[b]).0,
            forall|a: int| 0 <= a < sorted@.len() ==> ordered@.contains(#[trigger] sorted@[a]),
            forall|a: int| 0 <= a < i ==> sorted@.contains(#[trigger] ordered@[a]),
            i > 0 ==> sorted@.len() > 0 && sorted@.last() == ordered@[i - 1],
            i == 0 ==> sorted@.len() == 0,
    {
        let id: FileId = ordered[i];
        let ghost before = sorted@;
        if sorted.len() == 0 || sorted[sorted.len() - 1].0 != id.0 {
            sorted.push(id);
            proof {
                assert forall|a: int| 0 <= a < i + 1 implies sorted@.contains(
                    #[trigger] ordered@[a],
                ) by {
                    if a < i {
                        assert(before.contains(ordered@[a]));
                        let k = choose|k: int| 0 <= k < before.len() && before[k] == ordered@[a];
                        assert(sorted@[k] == ordered@[a]);
                    } else {
                        assert(sorted@[before.len() as int] == ordered@[a]);
                    }
                }
                assert forall|a: int, b: int| 0 <= a < b < sorted@.len() implies (
                #[trigger] sorted@[a]).0 < (#[trigger] sorted@[b]).0 by {
                    if b == before.len() {
                        assert(before.last() == ordered@[i - 1]);
                        assert(ordered@[i - 1].0 <= ordered@[i as int].0);
                        if a < before.len() - 1 {
                            assert(before[a].0 < before[before.len() - 1].0);
                        }
                    }
                }
            }
        } else {
            assert(sorted@[sorted@.len() - 1] == ordered@[i as int]);
        }
    }
    proof {
        assert forall|id: FileId| sorted@.contains(id) <==> all.contains(id) by {
            assert(ordered@.contains(id) <==> all.contains(id)) by {
                assert(ordered@.to_multiset().count(id) == all.to_multiset().count(id));
            }
            if sorted@.contains(id) {
                let a = choose|a: int| 0 <= a < sorted@.len() && sorted@[a] == id;
                assert(ordered@.contains(sorted@[a]));
            }
            if ordered@.contains(id) {
                let a = choose|a: int| 0 <= a < ordered@.len() && ordered@[a] == id;
                assert(sorted@.contains(ordered@[a]));
            }
        }
    }
    sorted
}

proof fn lemma_sorted_ids(ids: Seq<FileId>, keys: Seq<(u64, u64)>)
    requires
        keys == id_keys(ids),
        ids.len() <= usize::MAX,
    ensures
        ({
            let ordered = crate::sorting::picked(ids, crate::sorting::sorted_positions(keys));
            forall|a: int, b: int|
                0 <= a < b < ordered.len() ==> (#[trigger] ordered[a]).0 <= (
                #[trigger] ordered[b]).0
        }),
{
    crate::sorting::sorted_positions_are_all(keys);
    crate::sorting::key_order_is_total(keys);
    let leq = crate::sorting::key_order(keys);
    crate::sorting::all_positions(keys.len()).lemma_sort_by_ensures(leq);
    let order = crate::sorting::sorted_positions(keys);
    let ordered = crate::sorting::picked(ids, order);
    assert forall|a: int, b: int| 0 <= a < b < ordered.len() implies (#[trigger] ordered[a]).0 <= (
    #[trigger] ordered[b]).0 by {
        assert(leq(order[a], order[b]));
    }
}

/// Where the object of segment `index` is built.
pub open spec fn segment_key_text(archive_key: Seq<char>, index: nat) -> Seq<char> {
    "seg-temps/"@ + archive_key + "/"@ + padded_text(index, 8)
}

/// Where the object of segment `index` is built.
pub fn segment_key(archive_key: &str, index: usize) -> (key: String)
    ensures
        key@ == segment_key_text(archive_key@, index as nat),
{
    let mut key: String = String::from_str("seg-temps/");
    key.append(archive_key);
    key.append("/");
    key.append(padded_decimal(index as u64, 8).as_str());
    key
}

/// Where link `i` of `n` puts its object: the last at the segment's key, the others beside
/// it.
pub open spec fn link_key_text(seg_key: Seq<char>, i: int, n: int) -> Seq<char> {
    if i == n - 1 {
        seg_key
    } else {
        seg_key + ".l"@ + decimal_text(i as nat)
    }
}

/// Where link `i` of `n` puts its object.
pub fn link_key(seg_key: &str, i: usize, n: usize) -> (key: String)
    requires
        i < n,
    ensures
        key@ == link_key_text(seg_key@, i as int, n as int),
{
    let mut key: String = String::from_str(seg_key);
    if i != n - 1 {
        key.append(".l");
        key.append(decimal(i as u64).as_str());
    }
    key
}

/// The part of the stitching upload that a segment becomes.
pub fn stitch_part_number(index: usize) -> (number: i32)
    requires
        index < i32::MAX,
    ensures
        number == index + 1,
{
    index as i32 + 1
}

/// The part of the archive that a segment becomes, and the object that it is copied from.
pub open spec fn stitched(bucket: Seq<char>, archive_key: Seq<char>, index: nat) -> (
    int,
    Seq<char>,
) {
    (index + 1int, bucket + "/"@ + segment_key_text(archive_key, index))
}

/// The copies that stitch the segments together: each segment's object, as the part of its
/// place.
pub fn stitch_copies(plan: &ChainPlan, bucket: &str, archive_key: &str) -> (copies: Vec<
    CopyRequest,
>)
    requires
        forall|k: int|
            0 <= k < plan.segments@.len() ==> (#[trigger] plan.segments@[k]).index < i32::MAX,
    ensures
        copies@.len() == plan.segments@.len(),
        forall|k: int|
            0 <= k < copies@.len() ==> {
                let index = plan.segments@[k].index;
                &&& (#[trigger] copies@[k]).part_number == index + 1
                &&& copies@[k].source@ == bucket@ + "/"@ + segment_key_text(
                    archive_key@,
                    index as nat,
                )
                &&& copies@[k].range is None
                &&& (copies@[k].part_number as int, copies@[k].source@) == stitched(
                    bucket@,
                    archive_key@,
                    index as nat,
                )
            },
{
    let mut copies: Vec<CopyRequest> = Vec::new();
    for k in 0..plan.segments.len()
        invariant
            forall|k: int|
                0 <= k < plan.segments@.len() ==> (#[trigger] plan.segments@[k]).index < i32::MAX,
            copies@.len() == k,
            forall|j: int|
                0 <= j < copies@.len() ==> {
                    let index = plan.segments@[j].index;
                    &&& (#[trigger] copies@[j]).part_number == index + 1
                    &&& copies@[j].source@ == bucket@ + "/"@ + segment_key_text(
                        archive_key@,
                        index as nat,
                    )
                    &&& copies@[j].range is None
                    &&& (copies@[j].part_number as int, copies@[j].source@) == stitched(
                        bucket@,
                        archive_key@,
                        index as nat,
                    )
                },
    {
        let index: usize = plan.segments[k].index;
        let key: String = segment_key(archive_key, index);
        copies.push(
            CopyRequest {
                part_number: stitch_part_number(index) as u32,
                source: copy_source(bucket, key.as_str()),
                range: None,
            },
        );
    }
    copies
}

/// What an entry's records say of it, given the checksums that have come.
pub fn meta_of(e: &Entry, crcs: &CrcStore) -> (meta: Result<EntryMeta, ChainError>)
    ensures
        match meta {
            Ok(m) => {
                &&& crcs.map@.contains_key(e.id.0)
                &&& m.name == e.name
                &&& m.size == e.size
                &&& m.crc == crcs.map@[e.id.0]
                &&& m.local_header_offset == e.local_header_offset
            },
            Err(err) => {
                &&& !crcs.map@.contains_key(e.id.0)
                &&& err is BadCrc
                &&& err->BadCrc_0@ == e.name@
            },
        },
{
    match crcs.get(e.id) {
        Some(crc) => Ok(
            EntryMeta {
                name: e.name.clone(),
                size: e.size,
                crc,
                local_header_offset: e.local_header_offset,
            },
        ),
        None => Err(ChainError::BadCrc(e.name.clone())),
    }
}

/// The directory records of the first `n` entries, or the name of the first whose checksum
/// is missing.
pub open spec fn chain_records(
    order: Seq<FileId>,
    entries: Map<u32, Entry>,
    crcs: Map<u32, u32>,
    n: int,
) -> Result<Seq<u8>, Seq<char>>
    decreases n,
{
    if n <= 0 {
        Ok(Seq::empty())
    } else {
        match chain_records(order, entries, crcs, n - 1) {
            Err(name) => Err(name),
            Ok(before) => {
                let e = entries[order[n - 1].0];
                if crcs.contains_key(e.id.0) {
                    Ok(
                        before + central_dir_entry_bytes(
                            encode_utf8(e.name@),
                            e.size,
                            crcs[e.id.0],
                            e.local_header_offset,
                        ),
                    )
                } else {
                    Err(e.name@)
                }
            },
        }
    }
}

/// Length of the directory records of the first `n` entries.
pub open spec fn chain_records_span(
    order: Seq<FileId>,
    entries: Map<u32, Entry>,
    n: int,
) -> nat
    decreases n,
{
    if n <= 0 {
        0
    } else {
        let e = entries[order[n - 1].0];
        chain_records_span(order, entries, n - 1) + central_dir_entry_span(
            encode_utf8(e.name@),
            e.local_header_offset,
        )
    }
}

proof fn lemma_records_error(
    order: Seq<FileId>,
    entries: Map<u32, Entry>,
    crcs: Map<u32, u32>,
    i: int,
    n: int,
)
    requires
        0 <= i <= n,
        chain_records(order, entries, crcs, i) is Err,
    ensures
        chain_records(order, entries, crcs, n) == chain_records(order, entries, crcs, i),
    decreases n - i,
{
    if i < n {
        lemma_records_error(order, entries, crcs, i, n - 1);
    }
}

proof fn lemma_records_span_monotonic(
    order: Seq<FileId>,
    entries: Map<u32, Entry>,
    i: int,
    n: int,
)
    requires
        i <= n,
    ensures
        chain_records_span(order, entries, i) <= chain_records_span(order, entries, n),
    decreases n - i,
{
    if i < n {
        lemma_records_span_monotonic(order, entries, i, n - 1);
    }
}

/// The central directory and the end records of a planned archive.
pub fn build_central_directory(plan: &ChainPlan, crcs: &CrcStore) -> (result: Result<
    Vec<u8>,
    ChainError,
>)
    requires
        forall|i: int|
            0 <= i < plan.order@.len() ==> #[trigger] plan.entries@.contains_key(plan.order@[i].0)
                && plan.entries@[plan.order@[i].0].size <= U32_MAX,
        plan.cd_offset + chain_records_span(plan.order@, plan.entries@, plan.order@.len() as int) <= u64::MAX,
    ensures
        match chain_records(plan.order@, plan.entries@, crcs.map@, plan.order@.len() as int) {
            Ok(records) => {
                &&& result is Ok
                &&& result->Ok_0@ == records + end_records_bytes(
                    plan.order@.len() as u64,
                    plan.cd_offset,
                    records.len() as u64,
                )
                &&& records.len() == chain_records_span(plan.order@, plan.entries@, plan.order@.len() as int)
            },
            Err(name) => {
                &&& result is Err
                &&& result->Err_0 is BadCrc
                &&& result->Err_0->BadCrc_0@ == name
            },
        },
{
    broadcast use vstd::std_specs::hash::group_hash_axioms;

    let mut out: Vec<u8> = Vec::new();
    let mut cd_size: u64 = 0;
    for i in 0..plan.order.len()
        invariant
            forall|i: int|
                0 <= i < plan.order@.len() ==> #[trigger] plan.entries@.contains_key(plan.order@[i].0)
                    && plan.entries@[plan.order@[i].0].size <= U32_MAX,
            plan.cd_offset + chain_records_span(plan.order@, plan.entries@, plan.order@.len() as int) <= u64::MAX,
            chain_records(plan.order@, plan.entries@, crcs.map@, i as int) == Ok::<Seq<u8>, Seq<char>>(out@),
            out@.len() == chain_records_span(plan.order@, plan.entries@, i as int),
            cd_size == out@.len(),
    {
        assert(plan.entries@.contains_key(plan.order@[i as int].0));
        let e: &Entry = plan.entries.get(&plan.order[i].0).unwrap();
        proof {
            lemma_records_span_monotonic(plan.order@, plan.entries@, i + 1, plan.order@.len() as int);
            if !crcs.map@.contains_key(e.id.0) {
                lemma_records_error(
                    plan.order@,
                    plan.entries@,
                    crcs.map@,
                    i + 1,
                    plan.order@.len() as int,
                );
            }
        }
        let meta: EntryMeta = match meta_of(e, crcs) {
            Ok(meta) => meta,
            Err(err) => {
                return Err(err);
            },
        };
        let mut record: Vec<u8> = central_dir_entry(&meta);
        proof {
            central_dir_entry_length(
                encode_utf8(e.name@),
                e.size,
                meta.crc,
                e.local_header_offset,
            );
        }
        cd_size = cd_size + record.len() as u64;
        out.append(&mut record);
    }
    let mut end: Vec<u8> = end_records(plan.order.len() as u64, plan.cd_offset, cd_size);
    out.append(&mut end);
    Ok(out)
}

/// The checksum that S3 answered for a file.
pub fn crc_of_answer(id: FileId, answer: Option<String>) -> (crc: Result<u32, ChainError>)
    ensures
        match answered_crc(answer) {
            Some(value) => crc == Ok::<u32, ChainError>(value),
            None => {
                &&& crc is Err
                &&& crc->Err_0 is BadCrc
                &&& crc->Err_0->BadCrc_0@ == id_text(id)
            },
        },
{
    let crc: Option<u32> = match answer {
        Some(text) => decode_s3_crc32(text.as_str()),
        None => None,
    };
    match crc {
        Some(value) => Ok(value),
        None => Err(ChainError::BadCrc(id_debug(id))),
    }
}

/// One part of a link's upload.
#[derive(Debug)]
pub enum LinkPart {
    /// The bytes, and behind them what is fetched of an object.
    Upload { bytes: Vec<u8>, then: Option<FetchRequest> },
    /// A copy of an object, or of a range of it.
    Copy { source: String, range: Option<ByteRange> },
}

/// `LinkPart` with its texts and bytes as sequences.
#[verifier::ext_equal]
pub enum LinkPartModel {
    Upload { bytes: Seq<u8>, then: Option<(Seq<char>, ByteRange)> },
    Copy { source: Seq<char>, range: Option<ByteRange> },
}

/// `part` is what `model` says.
pub open spec fn part_agrees(part: LinkPart, model: LinkPartModel) -> bool {
    match model {
        LinkPartModel::Upload { bytes, then } => {
            &&& part is Upload
            &&& part->bytes@ == bytes
            &&& match then {
                Some(fetch) => {
                    &&& part->then is Some
                    &&& part->then->Some_0.key@ == fetch.0
                    &&& part->then->Some_0.range == Some(fetch.1)
                },
                None => part->then is None,
            }
        },
        LinkPartModel::Copy { source, range } => {
            &&& part is Copy
            &&& part->source@ == source
            &&& part->range == range
        },
    }
}

/// How S3 names the object of an entry in a copy.
pub open spec fn entry_source(bucket: Seq<char>, files_prefix: Seq<char>, e: Entry) -> Seq<char> {
    bucket + "/"@ + key_text(files_prefix, e.name@)
}

/// An entry's local header, given its checksum.
pub open spec fn entry_header(e: Entry, crc: u32) -> Seq<u8> {
    local_header_bytes(encode_utf8(e.name@), e.size, crc)
}

/// The part that a piece becomes, or the name of the entry whose checksum is missing.
pub open spec fn piece_part(
    entries: Map<u32, Entry>,
    crcs: Map<u32, u32>,
    bucket: Seq<char>,
    files_prefix: Seq<char>,
    piece: Piece,
) -> Result<LinkPartModel, Seq<char>> {
    let e = entries[piece_file(piece).0];
    match piece {
        Piece::Header(_) => if crcs.contains_key(e.id.0) {
            Ok(LinkPartModel::Upload { bytes: entry_header(e, crcs[e.id.0]), then: None })
        } else {
            Err(e.name@)
        },
        Piece::Body(_) => Ok(
            LinkPartModel::Copy { source: entry_source(bucket, files_prefix, e), range: None },
        ),
    }
}

/// The parts of a link's upload, or the name of the entry whose checksum is missing. `prev`
/// is the key of the object that the link before it made.
pub open spec fn link_part_models(
    entries: Map<u32, Entry>,
    crcs: Map<u32, u32>,
    bucket: Seq<char>,
    files_prefix: Seq<char>,
    link: Link,
    prev: Seq<char>,
) -> Result<Seq<LinkPartModel>, Seq<char>> {
    match link {
        Link::Bootstrap { anchor, steal_len } => {
            let e = entries[anchor.0];
            if crcs.contains_key(e.id.0) {
                Ok(
                    seq![
                        LinkPartModel::Upload {
                            bytes: entry_header(e, crcs[e.id.0]),
                            then: Some(
                                (
                                    key_text(files_prefix, e.name@),
                                    ByteRange { first: 0, last: (steal_len - 1) as u64 },
                                ),
                            ),
                        },
                        LinkPartModel::Copy {
                            source: entry_source(bucket, files_prefix, e),
                            range: Some(
                                ByteRange { first: steal_len, last: (e.size - 1) as u64 },
                            ),
                        },
                    ],
                )
            } else {
                Err(e.name@)
            }
        },
        Link::AnchorOnly { anchor } => Ok(
            seq![
                LinkPartModel::Copy {
                    source: entry_source(bucket, files_prefix, entries[anchor.0]),
                    range: None,
                },
            ],
        ),
        Link::AnchorThenAppend { anchor, piece } => match piece_part(
            entries,
            crcs,
            bucket,
            files_prefix,
            piece,
        ) {
            Ok(last) => Ok(
                seq![
                    LinkPartModel::Copy {
                        source: entry_source(bucket, files_prefix, entries[anchor.0]),
                        range: None,
                    },
                    last,
                ],
            ),
            Err(name) => Err(name),
        },
        Link::ForwardThenAppend { piece } => match piece_part(
            entries,
            crcs,
            bucket,
            files_prefix,
            piece,
        ) {
            Ok(last) => Ok(
                seq![LinkPartModel::Copy { source: bucket + "/"@ + prev, range: None }, last],
            ),
            Err(name) => Err(name),
        },
    }
}

/// The entries that a link speaks of are there, those whose headers it writes fit the
/// format, and what it reads and copies of its big is not empty.
pub open spec fn link_buildable(entries: Map<u32, Entry>, link: Link) -> bool {
    &&& forall|i: int|
        0 <= i < link_files(link).len() ==> entries.contains_key((#[trigger] link_files(link)[i]).0)
    &&& match link {
        Link::Bootstrap { anchor, steal_len } => {
            &&& 0 < steal_len
            &&& 0 < entries[anchor.0].size <= U32_MAX
        },
        Link::AnchorOnly { .. } => true,
        Link::AnchorThenAppend { piece, .. } => piece_buildable(entries, piece),
        Link::ForwardThenAppend { piece } => piece_buildable(entries, piece),
    }
}

/// The entry of a piece is there and, where its header is written, fits the format.
pub open spec fn piece_buildable(entries: Map<u32, Entry>, piece: Piece) -> bool {
    &&& entries.contains_key(piece_file(piece).0)
    &&& piece is Header ==> entries[piece_file(piece).0].size <= U32_MAX
}

/// A copy of an entry's whole object.
fn whole_copy(entries: &HashMap<u32, Entry>, bucket: &str, files_prefix: &str, id: FileId) -> (part:
    LinkPart)
    requires
        entries@.contains_key(id.0),
    ensures
        part_agrees(
            part,
            (LinkPartModel::Copy {
                source: entry_source(bucket@, files_prefix@, entries@[id.0]),
                range: None,
            }),
        ),
{
    broadcast use vstd::std_specs::hash::group_hash_axioms;

    let e: &Entry = entries.get(&id.0).unwrap();
    let key: String = object_key(files_prefix, e.name.as_str());
    LinkPart::Copy { source: copy_source(bucket, key.as_str()), range: None }
}

/// The part that a piece becomes: its header to upload, or its content to copy.
pub fn build_piece_part(
    entries: &HashMap<u32, Entry>,
    crcs: &CrcStore,
    bucket: &str,
    files_prefix: &str,
    piece: &Piece,
) -> (part: Result<LinkPart, ChainError>)
    requires
        piece_buildable(entries@, *piece),
    ensures
        match piece_part(entries@, crcs.map@, bucket@, files_prefix@, *piece) {
            Ok(model) => part is Ok && part_agrees(part->Ok_0, model),
            Err(name) => {
                &&& part is Err
                &&& part->Err_0 is BadCrc
                &&& part->Err_0->BadCrc_0@ == name
            },
        },
{
    broadcast use vstd::std_specs::hash::group_hash_axioms;

    match piece {
        Piece::Header(id) => {
            let e: &Entry = entries.get(&id.0).unwrap();
            match meta_of(e, crcs) {
                Ok(meta) => Ok(LinkPart::Upload { bytes: local_header(&meta), then: None }),
                Err(err) => Err(err),
            }
        },
        Piece::Body(id) => Ok(whole_copy(entries, bucket, files_prefix, *id)),
    }
}

/// `parts` are what `models` say, one by one.
pub open spec fn parts_agree(parts: Seq<LinkPart>, models: Seq<LinkPartModel>) -> bool {
    &&& parts.len() == models.len()
    &&& forall|i: int| 0 <= i < parts.len() ==> part_agrees(#[trigger] parts[i], models[i])
}

/// The parts of a link's upload. `prev` is the key of the object that the link before it
/// made.
pub fn build_one_link(
    entries: &HashMap<u32, Entry>,
    crcs: &CrcStore,
    bucket: &str,
    files_prefix: &str,
    link: &Link,
    prev: Option<&str>,
) -> (parts: Result<Vec<LinkPart>, ChainError>)
    requires
        link_buildable(entries@, *link),
        *link is ForwardThenAppend ==> prev is Some,
    ensures
        match link_part_models(
            entries@,
            crcs.map@,
            bucket@,
            files_prefix@,
            *link,
            prev->Some_0@,
        ) {
            Ok(models) => parts is Ok && parts_agree(parts->Ok_0@, models),
            Err(name) => {
                &&& parts is Err
                &&& parts->Err_0 is BadCrc
                &&& parts->Err_0->BadCrc_0@ == name
            },
        },
{
    broadcast use vstd::std_specs::hash::group_hash_axioms;

    let mut parts: Vec<LinkPart> = Vec::new();
    match link {
        Link::Bootstrap { anchor, steal_len } => {
            assert(entries@.contains_key(link_files(*link)[0].0));
            let e: &Entry = entries.get(&anchor.0).unwrap();
            let meta: EntryMeta = match meta_of(e, crcs) {
                Ok(meta) => meta,
                Err(err) => {
                    return Err(err);
                },
            };
            let key: String = object_key(files_prefix, e.name.as_str());
            let source: String = copy_source(bucket, key.as_str());
            parts.push(
                LinkPart::Upload {
                    bytes: local_header(&meta),
                    then: Some(
                        FetchRequest { key, range: Some(ByteRange { first: 0, last: *steal_len - 1 }) },
                    ),
                },
            );
            parts.push(
                LinkPart::Copy {
                    source,
                    range: Some(ByteRange { first: *steal_len, last: e.size - 1 }),
                },
            );
        },
        Link::AnchorOnly { anchor } => {
            assert(entries@.contains_key(link_files(*link)[0].0));
            parts.push(whole_copy(entries, bucket, files_prefix, *anchor));
        },
        Link::AnchorThenAppend { anchor, piece } => {
            assert(entries@.contains_key(link_files(*link)[0].0));
            parts.push(whole_copy(entries, bucket, files_prefix, *anchor));
            match build_piece_part(entries, crcs, bucket, files_prefix, piece) {
                Ok(part) => {
                    parts.push(part);
                },
                Err(err) => {
                    return Err(err);
                },
            }
        },
        Link::ForwardThenAppend { piece } => {
            let source: String = copy_source(bucket, prev.unwrap());
            parts.push(LinkPart::Copy { source, range: None });
            match build_piece_part(entries, crcs, bucket, files_prefix, piece) {
                Ok(part) => {
                    parts.push(part);
                },
                Err(err) => {
                    return Err(err);
                },
            }
        },
    }
    Ok(parts)
}

/// One upload of a segment's chain.
#[derive(Debug)]
pub struct LinkUpload {
    /// Where the object goes.
    pub out_key: String,
    pub parts: Vec<LinkPart>,
}

/// The upload of link `i` of a segment: it takes up the object of the link before it, and
/// the last link makes the segment's object.
pub fn segment_step(
    entries: &HashMap<u32, Entry>,
    crcs: &CrcStore,
    bucket: &str,
    files_prefix: &str,
    seg: &Segment,
    seg_key: &str,
    i: usize,
) -> (upload: Result<LinkUpload, ChainError>)
    requires
        i < seg.links@.len(),
        link_buildable(entries@, seg.links@[i as int]),
        seg.links@[i as int] is ForwardThenAppend ==> i > 0,
    ensures
        match link_part_models(
            entries@,
            crcs.map@,
            bucket@,
            files_prefix@,
            seg.links@[i as int],
            link_key_text(seg_key@, i - 1, seg.links@.len() as int),
        ) {
            Ok(models) => {
                &&& upload is Ok
                &&& upload->Ok_0.out_key@ == link_key_text(
                    seg_key@,
                    i as int,
                    seg.links@.len() as int,
                )
                &&& parts_agree(upload->Ok_0.parts@, models)
            },
            Err(name) => {
                &&& upload is Err
                &&& upload->Err_0 is BadCrc
                &&& upload->Err_0->BadCrc_0@ == name
            },
        },
{
    let n: usize = seg.links.len();
    let link: &Link = &seg.links[i];
    let built: Result<Vec<LinkPart>, ChainError> = if i > 0 {
        let prev: String = link_key(seg_key, i - 1, n);
        build_one_link(entries, crcs, bucket, files_prefix, link, Some(prev.as_str()))
    } else {
        build_one_link(entries, crcs, bucket, files_prefix, link, None)
    };
    match built {
        Ok(parts) => Ok(LinkUpload { out_key: link_key(seg_key, i, n), parts }),
        Err(err) => Err(err),
    }
}

/// The entries are those of the files.
pub open spec fn entries_of_files(entries: Map<u32, Entry>, files: Seq<SourceFile>) -> bool {
    forall|i: int|
        #![trigger files[i]]
        0 <= i < files.len() ==> {
            let e = entries[files[i].id.0];
            &&& entries.contains_key(files[i].id.0)
            &&& e.id == files[i].id
            &&& e.name@ == files[i].name@
            &&& e.size == files[i].size
        }
}

/// S3 holds each file's content under its key.
pub open spec fn stored(
    objects: spec_fn(Seq<char>) -> Seq<u8>,
    files: Seq<SourceFile>,
    contents: Contents,
    bucket: Seq<char>,
    files_prefix: Seq<char>,
) -> bool {
    forall|i: int|
        #![trigger files[i]]
        0 <= i < files.len() ==> objects(bucket + "/"@ + key_text(files_prefix, files[i].name@))
            == (contents.body)(files[i].id)
}

/// The bytes of a range of an object.
pub open spec fn ranged(object: Seq<u8>, range: ByteRange) -> Seq<u8> {
    object.subrange(range.first as int, range.last + 1)
}

/// The bytes of a part, where `objects` are what S3 holds.
pub open spec fn part_bytes(
    objects: spec_fn(Seq<char>) -> Seq<u8>,
    bucket: Seq<char>,
    part: LinkPartModel,
) -> Seq<u8> {
    match part {
        LinkPartModel::Upload { bytes, then } => match then {
            Some(fetch) => bytes + ranged(objects(bucket + "/"@ + fetch.0), fetch.1),
            None => bytes,
        },
        LinkPartModel::Copy { source, range } => match range {
            Some(range) => ranged(objects(source), range),
            None => objects(source),
        },
    }
}

/// The bytes of the first `n` parts.
pub open spec fn upload_bytes(
    objects: spec_fn(Seq<char>) -> Seq<u8>,
    bucket: Seq<char>,
    parts: Seq<LinkPartModel>,
    n: nat,
) -> Seq<u8>
    decreases n,
{
    if n == 0 {
        Seq::empty()
    } else {
        upload_bytes(objects, bucket, parts, (n - 1) as nat) + part_bytes(
            objects,
            bucket,
            parts[n - 1],
        )
    }
}

/// The files that a link speaks of are among `files`, and it takes no more of its big than
/// there is.
pub open spec fn link_listed(files: Seq<SourceFile>, link: Link) -> bool {
    &&& forall|i: int|
        0 <= i < link_files(link).len() ==> exists|k: int|
            0 <= k < files.len() && #[trigger] files[k].id == #[trigger] link_files(link)[i]
    &&& link matches Link::Bootstrap { anchor, steal_len } ==> 0 < steal_len <= file_of(
        files,
        anchor,
    ).size
}

proof fn lemma_piece_part(
    files: Seq<SourceFile>,
    contents: Contents,
    entries: Map<u32, Entry>,
    crcs: Map<u32, u32>,
    objects: spec_fn(Seq<char>) -> Seq<u8>,
    bucket: Seq<char>,
    files_prefix: Seq<char>,
    piece: Piece,
    k: int,
)
    requires
        distinct_ids(files),
        entries_of_files(entries, files),
        stored(objects, files, contents, bucket, files_prefix),
        0 <= k < files.len(),
        files[k].id == piece_file(piece),
        crcs.contains_key(piece_file(piece).0),
        crcs[piece_file(piece).0] == (contents.crc)(piece_file(piece)),
    ensures
        ({
            let part = piece_part(entries, crcs, bucket, files_prefix, piece);
            &&& part is Ok
            &&& part_bytes(objects, bucket, part->Ok_0) == piece_bytes(files, contents, piece)
        }),
{
    lemma_file_of(files, k);
}

/// The upload of a link makes the object that the plan foresees: what S3 puts together from
/// its parts is the planned first part, then the planned last part.
pub proof fn link_uploads_make_the_planned_object(
    files: Seq<SourceFile>,
    contents: Contents,
    entries: Map<u32, Entry>,
    crcs: Map<u32, u32>,
    objects: spec_fn(Seq<char>) -> Seq<u8>,
    bucket: Seq<char>,
    files_prefix: Seq<char>,
    link: Link,
    prev: Seq<char>,
)
    requires
        distinct_ids(files),
        contents_match(files, contents),
        entries_of_files(entries, files),
        stored(objects, files, contents, bucket, files_prefix),
        link_listed(files, link),
        forall|i: int|
            0 <= i < link_files(link).len() ==> crcs.contains_key(
                (#[trigger] link_files(link)[i]).0,
            ) && crcs[link_files(link)[i].0] == (contents.crc)(link_files(link)[i]),
    ensures
        ({
            let parts = link_part_models(entries, crcs, bucket, files_prefix, link, prev);
            let before = objects(bucket + "/"@ + prev);
            &&& parts is Ok
            &&& upload_bytes(objects, bucket, parts->Ok_0, parts->Ok_0.len()) == first_part(
                files,
                contents,
                before,
                link,
            ) + last_part(files, contents, link)
        }),
{
    reveal_with_fuel(upload_bytes, 3);
    let ids = link_files(link);
    let first = choose|k: int| 0 <= k < files.len() && #[trigger] files[k].id == ids[0];
    assert(files[first].id == ids[0]) by {
        assert(link_files(link)[0] == ids[0]);
    }
    lemma_file_of(files, first);
    let parts = link_part_models(entries, crcs, bucket, files_prefix, link, prev);
    match link {
        Link::Bootstrap { anchor, steal_len } => {
            let body = (contents.body)(anchor);
            assert((contents.body)(files[first].id).len() == files[first].size);
            assert(body.subrange(0, steal_len as int) =~= body.take(steal_len as int));
            assert(body.subrange(steal_len as int, body.len() as int) =~= body.skip(
                steal_len as int,
            ));
        },
        Link::AnchorOnly { .. } => {},
        Link::AnchorThenAppend { anchor, piece } => {
            let second = choose|k: int| 0 <= k < files.len() && #[trigger] files[k].id == ids[1];
            assert(files[second].id == ids[1]) by {
                assert(link_files(link)[1] == ids[1]);
            }
            lemma_piece_part(
                files,
                contents,
                entries,
                crcs,
                objects,
                bucket,
                files_prefix,
                piece,
                second,
            );
        },
        Link::ForwardThenAppend { piece } => {
            lemma_piece_part(
                files,
                contents,
                entries,
                crcs,
                objects,
                bucket,
                files_prefix,
                piece,
                first,
            );
        },
    }
    let before = objects(bucket + "/"@ + prev);
    assert(upload_bytes(objects, bucket, parts->Ok_0, parts->Ok_0.len()) =~= first_part(
        files,
        contents,
        before,
        link,
    ) + last_part(files, contents, link));
}

/// The directory of a planned archive is as long as the plan says.
pub proof fn directory_has_the_planned_length(plan: ChainPlan, files: Seq<SourceFile>)
    requires
        is_chain_plan(plan, files),
    ensures
        chain_records_span(plan.order@, plan.entries@, plan.order@.len() as int) == plan.cd_size,
{
    let bigs = bigs_of(files);
    let order = chain_order(bigs, chain_smalls_of(files), bigs.len());
    lemma_records_are_planned(plan, order, order.len() as int);
}

proof fn lemma_records_are_planned(plan: ChainPlan, order: Seq<SourceFile>, n: int)
    requires
        0 <= n <= order.len(),
        plan.order@ == Seq::new(order.len(), |i: int| order[i].id),
        chain_entries_of(plan.entries@, order, order.len() as int),
    ensures
        chain_records_span(plan.order@, plan.entries@, n) == directory_span(order, n),
    decreases n,
{
    if n > 0 {
        lemma_records_are_planned(plan, order, n - 1);
        assert(plan.entries@.contains_key(order[n - 1].id.0));
    }
}

/// No two segments of an archive share a key, and no two links of a segment do.
pub proof fn keys_do_not_collide(
    archive_key: Seq<char>,
    a: nat,
    b: nat,
    seg_key: Seq<char>,
    i: int,
    j: int,
    n: int,
)
    requires
        a != b,
        0 <= i < j < n,
    ensures
        segment_key_text(archive_key, a) != segment_key_text(archive_key, b),
        link_key_text(seg_key, i, n) != link_key_text(seg_key, j, n),
        link_key_text(seg_key, n - 1, n) == seg_key,
{
    let head = "seg-temps/"@ + archive_key + "/"@;
    let x = head + crate::text::padded_text(a, 8);
    let y = head + crate::text::padded_text(b, 8);
    assert(x.skip(head.len() as int) =~= crate::text::padded_text(a, 8));
    assert(y.skip(head.len() as int) =~= crate::text::padded_text(b, 8));
    crate::text::padding_keeps_the_number(a, 8);
    crate::text::padding_keeps_the_number(b, 8);
    reveal_strlit(".l");
    let stem = seg_key + ".l"@;
    assert(link_key_text(seg_key, i, n).skip(stem.len() as int) =~= decimal_text(i as nat));
    if j < n - 1 {
        assert(link_key_text(seg_key, j, n).skip(stem.len() as int) =~= decimal_text(j as nat));
        crate::text::decimal_is_read_back(i as nat);
        crate::text::decimal_is_read_back(j as nat);
    } else {
        assert(link_key_text(seg_key, i, n).len() >= stem.len());
    }
}

/// The segments are stitched in their order, the first as part one, each from its own object.
pub proof fn segments_are_stitched_in_order(
    bucket: Seq<char>,
    archive_key: Seq<char>,
    a: nat,
    b: nat,
)
    requires
        a < b,
    ensures
        stitched(bucket, archive_key, 0).0 == 1,
        stitched(bucket, archive_key, a + 1).0 == stitched(bucket, archive_key, a).0 + 1,
        stitched(bucket, archive_key, a).0 < stitched(bucket, archive_key, b).0,
        stitched(bucket, archive_key, a).1 != stitched(bucket, archive_key, b).1,
{
    keys_do_not_collide(archive_key, a, b, archive_key, 0, 1, 2);
    let head = bucket + "/"@;
    let x = head + segment_key_text(archive_key, a);
    let y = head + segment_key_text(archive_key, b);
    assert(x.skip(head.len() as int) =~= segment_key_text(archive_key, a));
    assert(y.skip(head.len() as int) =~= segment_key_text(archive_key, b));
}

/// A link can be built exactly where the checksum of the header that it uploads, if it
/// uploads one, is known; the error names that entry.
pub proof fn links_need_their_checksum(
    entries: Map<u32, Entry>,
    crcs: Map<u32, u32>,
    bucket: Seq<char>,
    files_prefix: Seq<char>,
    link: Link,
    prev: Seq<char>,
    id: FileId,
)
    requires
        entries[id.0].id == id,
    ensures
        ({
            let built = link_part_models(entries, crcs, bucket, files_prefix, link, prev);
            let header = Piece::Header(id);
            let heads = match link {
                Link::Bootstrap { anchor, .. } => anchor == id,
                Link::AnchorOnly { .. } => false,
                Link::AnchorThenAppend { piece, .. } => piece == header,
                Link::ForwardThenAppend { piece } => piece == header,
            };
            let copies = match link {
                Link::Bootstrap { .. } => false,
                Link::AnchorOnly { .. } => true,
                Link::AnchorThenAppend { piece, .. } => piece is Body,
                Link::ForwardThenAppend { piece } => piece is Body,
            };
            &&& heads ==> (built is Ok <==> crcs.contains_key(id.0))
            &&& heads && built is Err ==> built->Err_0 == entries[id.0].name@
            &&& copies ==> built is Ok
        }),
{
}

} // verus!
