//! Chains that are built in layers of copies.
//!
//! All local headers are put into one object, the header blob, so that a header can be
//! copied as a range of it. A chain is a big, possibly a small with its header, and possibly
//! the header of the next chain's big. It is built in up to three layers, each of which
//! copies the one before and appends one piece. Layers of one depth of all chains make a
//! wave.

use crate::assemble::{
    archive_basename, basename_of, copy_source, entry_meta, key_text, object_key, planned_header,
    planned_record, AssembleError, CopyRequest,
};
use crate::byte_range::ByteRange;
use crate::plan::{Entry, FileId, PartSpec};
use crate::text::{decimal, decimal_text};
use crate::zip_format::{local_header, EntryMeta, U32_MAX};
use std::collections::HashMap;
use vstd::prelude::*;
use vstd::string::StringExecFns;

verus! {

/// Where a header stands in the header blob.
#[derive(Debug, Clone, Copy, PartialEq, Eq, Structural)]
pub struct HeaderRange {
    pub offset: u64,
    pub len: u64,
}

impl HeaderRange {
    /// Where the header ends.
    pub fn end(&self) -> (end: u64)
        requires
            self.offset + self.len <= u64::MAX,
        ensures
            end == self.offset + self.len,
    {
        self.offset + self.len
    }
}

/// Where each file's header stands in the header blob, by the number of the file.
#[derive(Debug)]
pub struct HeaderBlob {
    pub bytes_len: u64,
    pub ranges: HashMap<u32, HeaderRange>,
}

/// What an entry's header says: a checksum that is not known yet is written as 0.
pub open spec fn is_header_meta(meta: EntryMeta, e: Entry) -> bool {
    &&& meta.name == e.name
    &&& meta.size == e.size
    &&& meta.crc == (match e.crc {
        Some(crc) => crc,
        None => 0u32,
    })
    &&& meta.local_header_offset == e.local_header_offset
}

/// What the headers of all entries say, in the order of the archive.
pub fn header_metas(order: &Vec<FileId>, entries: &HashMap<u32, Entry>) -> (metas: Vec<
    (FileId, EntryMeta),
>)
    requires
        forall|i: int| 0 <= i < order@.len() ==> #[trigger] entries@.contains_key(order@[i].0),
    ensures
        metas@.len() == order@.len(),
        forall|i: int|
            0 <= i < metas@.len() ==> {
                &&& (#[trigger] metas@[i]).0 == order@[i]
                &&& is_header_meta(metas@[i].1, entries@[order@[i].0])
            },
{
    broadcast use vstd::std_specs::hash::group_hash_axioms;

    let mut metas: Vec<(FileId, EntryMeta)> = Vec::new();
    for i in 0..order.len()
        invariant
            forall|i: int|
                0 <= i < order@.len() ==> #[trigger] entries@.contains_key(order@[i].0),
            metas@.len() == i,
            forall|j: int|
                0 <= j < metas@.len() ==> {
                    &&& (#[trigger] metas@[j]).0 == order@[j]
                    &&& is_header_meta(metas@[j].1, entries@[order@[j].0])
                },
    {
        assert(entries@.contains_key(order@[i as int].0));
        let e: &Entry = entries.get(&order[i].0).unwrap();
        let crc: u32 = match e.crc {
            Some(crc) => crc,
            None => 0,
        };
        metas.push((order[i], entry_meta(e, crc)));
    }
    metas
}

/// The headers of the first `n` entries, one behind the other.
pub open spec fn joined_headers(metas: Seq<(FileId, EntryMeta)>, n: nat) -> Seq<u8>
    decreases n,
{
    if n == 0 {
        Seq::empty()
    } else {
        joined_headers(metas, (n - 1) as nat) + metas[n - 1].1.local_header_spec()
    }
}

/// Where the header of the `i`-th entry stands.
pub open spec fn header_range(metas: Seq<(FileId, EntryMeta)>, i: int) -> HeaderRange {
    HeaderRange {
        offset: joined_headers(metas, i as nat).len() as u64,
        len: metas[i].1.local_header_spec().len() as u64,
    }
}

/// The ranges of the first `n` entries; of two for one file the later one counts.
pub open spec fn header_ranges(metas: Seq<(FileId, EntryMeta)>, n: nat) -> Map<u32, HeaderRange>
    decreases n,
{
    if n == 0 {
        Map::empty()
    } else {
        header_ranges(metas, (n - 1) as nat).insert(
            metas[n - 1].0.0,
            header_range(metas, n - 1),
        )
    }
}

proof fn lemma_joined_headers(metas: Seq<(FileId, EntryMeta)>, i: nat, n: nat)
    requires
        i <= n,
    ensures
        joined_headers(metas, i).len() <= joined_headers(metas, n).len(),
        joined_headers(metas, i).is_prefix_of(joined_headers(metas, n)),
    decreases n - i,
{
    if i < n {
        lemma_joined_headers(metas, i, (n - 1) as nat);
    }
}

/// Puts all headers into one object and notes where each stands.
pub fn build_header_blob(metas: &Vec<(FileId, EntryMeta)>) -> (result: (Vec<u8>, HeaderBlob))
    requires
        forall|i: int| 0 <= i < metas@.len() ==> (#[trigger] metas@[i]).1.size <= U32_MAX,
        joined_headers(metas@, metas@.len()).len() <= u64::MAX,
    ensures
        result.0@ == joined_headers(metas@, metas@.len()),
        result.1.bytes_len == result.0@.len(),
        result.1.ranges@ == header_ranges(metas@, metas@.len()),
{
    broadcast use vstd::std_specs::hash::group_hash_axioms;

    let mut bytes: Vec<u8> = Vec::new();
    let mut ranges: HashMap<u32, HeaderRange> = HashMap::new();
    for i in 0..metas.len()
        invariant
            forall|i: int| 0 <= i < metas@.len() ==> (#[trigger] metas@[i]).1.size <= U32_MAX,
            joined_headers(metas@, metas@.len()).len() <= u64::MAX,
            bytes@ == joined_headers(metas@, i as nat),
            ranges@ == header_ranges(metas@, i as nat),
    {
        proof {
            assert(metas@[i as int].1.size <= U32_MAX);
            lemma_joined_headers(metas@, (i + 1) as nat, metas@.len());
        }
        let mut header: Vec<u8> = local_header(&metas[i].1);
        let range: HeaderRange = HeaderRange {
            offset: bytes.len() as u64,
            len: header.len() as u64,
        };
        bytes.append(&mut header);
        ranges.insert(metas[i].0.0, range);
    }
    let blob: HeaderBlob = HeaderBlob { bytes_len: bytes.len() as u64, ranges };
    (bytes, blob)
}

/// Each header stands in the blob where its range says.
pub proof fn headers_stand_at_their_ranges(metas: Seq<(FileId, EntryMeta)>, i: int)
    requires
        0 <= i < metas.len(),
        joined_headers(metas, metas.len()).len() <= u64::MAX,
    ensures
        ({
            let r = header_range(metas, i);
            &&& r.offset + r.len <= joined_headers(metas, metas.len()).len()
            &&& joined_headers(metas, metas.len()).subrange(r.offset as int, r.offset + r.len)
                == metas[i].1.local_header_spec()
        }),
{
    lemma_joined_headers(metas, (i + 1) as nat, metas.len());
    let all = joined_headers(metas, metas.len());
    let head = joined_headers(metas, (i + 1) as nat);
    let r = header_range(metas, i);
    assert(head == joined_headers(metas, i as nat) + metas[i].1.local_header_spec());
    assert(all.subrange(r.offset as int, r.offset + r.len) =~= head.subrange(
        r.offset as int,
        r.offset + r.len,
    ));
    assert(head.subrange(r.offset as int, r.offset + r.len)
        =~= metas[i].1.local_header_spec());
}

/// A chain: a big, its small, and the header that follows them.
#[derive(Debug, Clone, Copy, PartialEq, Eq, Structural)]
pub struct LayeredChain {
    pub big: FileId,
    pub small: Option<FileId>,
    pub next_big_header: Option<FileId>,
    /// The part of the archive that the chain becomes.
    pub final_merge_part_number: u32,
}

/// A source of one part: a whole object, or a range of one.
#[derive(Debug, Clone)]
pub struct CopyPart {
    pub source: String,
    pub range: Option<ByteRange>,
}

/// One layer: the object that it makes, and the parts that make it up.
#[derive(Debug)]
pub struct LayerSpec {
    pub key: String,
    pub parts: Vec<CopyPart>,
}

/// `CopyPart` over mathematical values.
#[verifier::ext_equal]
pub struct CopyModel {
    pub source: Seq<char>,
    pub range: Option<ByteRange>,
}

/// `LayerSpec` over mathematical values.
#[verifier::ext_equal]
pub struct LayerModel {
    pub key: Seq<char>,
    pub parts: Seq<CopyModel>,
}

impl View for CopyPart {
    type V = CopyModel;

    open spec fn view(&self) -> CopyModel {
        CopyModel { source: self.source@, range: self.range }
    }
}

impl View for LayerSpec {
    type V = LayerModel;

    open spec fn view(&self) -> LayerModel {
        LayerModel {
            key: self.key@,
            parts: Seq::new(self.parts@.len(), |i: int| self.parts@[i]@),
        }
    }
}

/// The layers over mathematical values.
pub open spec fn layer_models(layers: Seq<LayerSpec>) -> Seq<LayerModel> {
    Seq::new(layers.len(), |i: int| layers[i]@)
}

impl CopyPart {
    /// A whole object.
    pub fn whole(source: String) -> (part: CopyPart)
        ensures
            part@ == whole_part(source@),
    {
        CopyPart { source, range: None }
    }

    /// A range of an object.
    pub fn range(source: String, r: HeaderRange) -> (part: CopyPart)
        requires
            r.len > 0,
            r.offset + r.len <= u64::MAX,
        ensures
            part@ == header_part(source@, r),
    {
        CopyPart { source, range: Some(ByteRange { first: r.offset, last: r.end() - 1 }) }
    }
}

/// A whole object.
pub open spec fn whole_part(source: Seq<char>) -> CopyModel {
    CopyModel { source, range: None }
}

/// A header out of the header blob.
pub open spec fn header_part(source: Seq<char>, r: HeaderRange) -> CopyModel {
    CopyModel {
        source,
        range: Some(ByteRange { first: r.offset, last: (r.offset + r.len - 1) as u64 }),
    }
}

/// How S3 names an object in a copy.
pub open spec fn source_of(bucket: Seq<char>, key: Seq<char>) -> Seq<char> {
    bucket + "/"@ + key
}

/// Where a chain is built from.
pub struct ChainSite {
    pub bucket: Seq<char>,
    pub files_prefix: Seq<char>,
    pub chain_key: Seq<char>,
    pub h_key: Seq<char>,
}

/// The name of a file's object in a copy.
pub open spec fn file_source(site: ChainSite, e: Entry) -> Seq<char> {
    source_of(site.bucket, key_text(site.files_prefix, e.name@))
}

/// The first layer: the big, and the header of the small.
pub open spec fn first_layer(
    site: ChainSite,
    ranges: Map<u32, HeaderRange>,
    entries: Map<u32, Entry>,
    chain: LayeredChain,
) -> LayerModel {
    let big = whole_part(file_source(site, entries[chain.big.0]));
    LayerModel {
        key: site.chain_key + ".l1"@,
        parts: match chain.small {
            Some(s) => seq![big, header_part(source_of(site.bucket, site.h_key), ranges[s.0])],
            None => seq![big],
        },
    }
}

/// The second layer: the first, and the small.
pub open spec fn second_layer(
    site: ChainSite,
    entries: Map<u32, Entry>,
    small: FileId,
) -> LayerModel {
    LayerModel {
        key: site.chain_key + ".l2"@,
        parts: seq![
            whole_part(source_of(site.bucket, site.chain_key + ".l1"@)),
            whole_part(file_source(site, entries[small.0])),
        ],
    }
}

/// The third layer: the layer before, and the header of the next big.
pub open spec fn third_layer(
    site: ChainSite,
    ranges: Map<u32, HeaderRange>,
    paired: bool,
    next: FileId,
) -> LayerModel {
    let before = if paired {
        site.chain_key + ".l2"@
    } else {
        site.chain_key + ".l1"@
    };
    LayerModel {
        key: site.chain_key + ".l3"@,
        parts: seq![
            whole_part(source_of(site.bucket, before)),
            header_part(source_of(site.bucket, site.h_key), ranges[next.0]),
        ],
    }
}

/// The layers of a chain.
pub open spec fn chain_layers(
    site: ChainSite,
    ranges: Map<u32, HeaderRange>,
    entries: Map<u32, Entry>,
    chain: LayeredChain,
) -> Seq<LayerModel> {
    let one = seq![first_layer(site, ranges, entries, chain)];
    let two = match chain.small {
        Some(s) => one.push(second_layer(site, entries, s)),
        None => one,
    };
    match chain.next_big_header {
        Some(next) => two.push(third_layer(site, ranges, chain.small is Some, next)),
        None => two,
    }
}

/// Everything that the chain speaks of is there.
pub open spec fn chain_known(
    ranges: Map<u32, HeaderRange>,
    entries: Map<u32, Entry>,
    chain: LayeredChain,
) -> bool {
    &&& entries.contains_key(chain.big.0)
    &&& chain.small matches Some(s) ==> entries.contains_key(s.0) && range_known(ranges, s)
    &&& chain.next_big_header matches Some(next) ==> range_known(ranges, next)
}

/// The file's header is in the blob.
pub open spec fn range_known(ranges: Map<u32, HeaderRange>, id: FileId) -> bool {
    ranges.contains_key(id.0) && ranges[id.0].len > 0 && ranges[id.0].offset + ranges[id.0].len
        <= u64::MAX
}

/// The layers of a chain. The last one is the finished chain.
pub fn build_layer_specs(
    bucket: &str,
    files_prefix: &str,
    chain_key: &str,
    h_key: &str,
    h_blob: &HeaderBlob,
    entries: &HashMap<u32, Entry>,
    chain: &LayeredChain,
) -> (layers: Vec<LayerSpec>)
    requires
        chain_known(h_blob.ranges@, entries@, *chain),
    ensures
        layer_models(layers@) == chain_layers(
            (ChainSite {
                bucket: bucket@,
                files_prefix: files_prefix@,
                chain_key: chain_key@,
                h_key: h_key@,
            }),
            h_blob.ranges@,
            entries@,
            *chain,
        ),
{
    broadcast use vstd::std_specs::hash::group_hash_axioms;

    let ghost site = ChainSite {
        bucket: bucket@,
        files_prefix: files_prefix@,
        chain_key: chain_key@,
        h_key: h_key@,
    };
    let h_source: String = copy_source(bucket, h_key);
    let big: &Entry = entries.get(&chain.big.0).unwrap();
    let big_key: String = object_key(files_prefix, big.name.as_str());
    let mut l1_key: String = String::from_str(chain_key);
    l1_key.append(".l1");
    let mut l1_parts: Vec<CopyPart> = Vec::new();
    l1_parts.push(CopyPart::whole(copy_source(bucket, big_key.as_str())));
    if let Some(s) = chain.small {
        let r: &HeaderRange = h_blob.ranges.get(&s.0).unwrap();
        l1_parts.push(CopyPart::range(h_source.clone(), *r));
    }
    let mut prev_key: String = l1_key.clone();
    let mut layers: Vec<LayerSpec> = Vec::new();
    layers.push(LayerSpec { key: l1_key, parts: l1_parts });
    proof {
        assert(layers@[0]@.parts =~= first_layer(site, h_blob.ranges@, entries@, *chain).parts);
        assert(layer_models(layers@) =~= seq![
            first_layer(site, h_blob.ranges@, entries@, *chain),
        ]);
    }
    if let Some(s) = chain.small {
        let ghost before = layer_models(layers@);
        let small: &Entry = entries.get(&s.0).unwrap();
        let small_key: String = object_key(files_prefix, small.name.as_str());
        let mut l2_key: String = String::from_str(chain_key);
        l2_key.append(".l2");
        let mut parts: Vec<CopyPart> = Vec::new();
        parts.push(CopyPart::whole(copy_source(bucket, prev_key.as_str())));
        parts.push(CopyPart::whole(copy_source(bucket, small_key.as_str())));
        prev_key = l2_key.clone();
        let layer: LayerSpec = LayerSpec { key: l2_key, parts };
        proof {
            assert(layer@.parts =~= second_layer(site, entries@, s).parts);
            assert(layer_models(layers@.push(layer)) =~= before.push(layer@));
        }
        layers.push(layer);
    }
    if let Some(next) = chain.next_big_header {
        let ghost before = layer_models(layers@);
        let r: &HeaderRange = h_blob.ranges.get(&next.0).unwrap();
        let mut l3_key: String = String::from_str(chain_key);
        l3_key.append(".l3");
        let mut parts: Vec<CopyPart> = Vec::new();
        parts.push(CopyPart::whole(copy_source(bucket, prev_key.as_str())));
        parts.push(CopyPart::range(h_source, *r));
        let layer: LayerSpec = LayerSpec { key: l3_key, parts };
        proof {
            assert(layer@.parts =~= third_layer(
                site,
                h_blob.ranges@,
                chain.small is Some,
                next,
            ).parts);
            assert(layer_models(layers@.push(layer)) =~= before.push(layer@));
        }
        layers.push(layer);
    }
    layers
}

/// The copies that make up a layer's object, numbered from 1 on.
pub fn layer_requests(parts: &Vec<CopyPart>) -> (requests: Vec<CopyRequest>)
    requires
        parts@.len() < u32::MAX,
    ensures
        requests@.len() == parts@.len(),
        forall|i: int|
            0 <= i < requests@.len() ==> {
                &&& (#[trigger] requests@[i]).part_number == i + 1
                &&& requests@[i].source == parts@[i].source
                &&& requests@[i].range == parts@[i].range
            },
{
    let mut requests: Vec<CopyRequest> = Vec::new();
    for i in 0..parts.len()
        invariant
            parts@.len() < u32::MAX,
            requests@.len() == i,
            forall|j: int|
                0 <= j < requests@.len() ==> {
                    &&& (#[trigger] requests@[j]).part_number == j + 1
                    &&& requests@[j].source == parts@[j].source
                    &&& requests@[j].range == parts@[j].range
                },
    {
        requests.push(
            CopyRequest {
                part_number: i as u32 + 1,
                source: parts[i].source.clone(),
                range: parts[i].range,
            },
        );
    }
    requests
}

/// The bytes of a part, where `store` gives the bytes of every object by its name in a copy.
pub open spec fn copied_bytes(store: spec_fn(Seq<char>) -> Seq<u8>, part: CopyModel) -> Seq<u8> {
    match part.range {
        None => store(part.source),
        Some(r) => store(part.source).subrange(r.first as int, r.last as int + 1),
    }
}

/// The bytes of a layer's object.
pub open spec fn layer_bytes(
    store: spec_fn(Seq<char>) -> Seq<u8>,
    parts: Seq<CopyModel>,
) -> Seq<u8>
    decreases parts.len(),
{
    if parts.len() == 0 {
        Seq::empty()
    } else {
        layer_bytes(store, parts.drop_last()) + copied_bytes(store, parts.last())
    }
}

/// Every layer has been built: its object is made of its parts.
pub open spec fn layers_built(
    store: spec_fn(Seq<char>) -> Seq<u8>,
    bucket: Seq<char>,
    layers: Seq<LayerModel>,
) -> bool {
    forall|i: int|
        0 <= i < layers.len() ==> store(source_of(bucket, (#[trigger] layers[i]).key))
            == layer_bytes(store, layers[i].parts)
}

proof fn lemma_two_parts(store: spec_fn(Seq<char>) -> Seq<u8>, a: CopyModel, b: CopyModel)
    ensures
        layer_bytes(store, seq![a]) == copied_bytes(store, a),
        layer_bytes(store, seq![a, b]) == copied_bytes(store, a) + copied_bytes(store, b),
{
    reveal_with_fuel(layer_bytes, 3);
    assert(seq![a].drop_last() =~= Seq::empty());
    assert(seq![a, b].drop_last() =~= seq![a]);
    assert(Seq::<u8>::empty() + copied_bytes(store, a) =~= copied_bytes(store, a));
}

/// A finished chain is its big, the header and the content of its small, and the header of
/// the next big.
pub proof fn layers_make_the_chain(
    store: spec_fn(Seq<char>) -> Seq<u8>,
    site: ChainSite,
    ranges: Map<u32, HeaderRange>,
    entries: Map<u32, Entry>,
    chain: LayeredChain,
)
    requires
        layers_built(store, site.bucket, chain_layers(site, ranges, entries, chain)),
    ensures
        ({
            let layers = chain_layers(site, ranges, entries, chain);
            let blob = source_of(site.bucket, site.h_key);
            let big = store(file_source(site, entries[chain.big.0]));
            let with_small = match chain.small {
                Some(s) => big + copied_bytes(store, header_part(blob, ranges[s.0])) + store(
                    file_source(site, entries[s.0]),
                ),
                None => big,
            };
            let whole = match chain.next_big_header {
                Some(next) => with_small + copied_bytes(store, header_part(blob, ranges[next.0])),
                None => with_small,
            };
            &&& 1 <= layers.len() <= 3
            &&& store(source_of(site.bucket, layers.last().key)) == whole
        }),
{
    let layers = chain_layers(site, ranges, entries, chain);
    let blob = source_of(site.bucket, site.h_key);
    let big = whole_part(file_source(site, entries[chain.big.0]));
    assert(store(source_of(site.bucket, layers[0].key)) == layer_bytes(store, layers[0].parts));
    lemma_two_parts(store, big, big);
    if let Some(s) = chain.small {
        lemma_two_parts(store, big, header_part(blob, ranges[s.0]));
        lemma_two_parts(
            store,
            whole_part(source_of(site.bucket, site.chain_key + ".l1"@)),
            whole_part(file_source(site, entries[s.0])),
        );
        assert(store(source_of(site.bucket, layers[1].key)) == layer_bytes(
            store,
            layers[1].parts,
        ));
    }
    if let Some(next) = chain.next_big_header {
        let before = if chain.small is Some {
            site.chain_key + ".l2"@
        } else {
            site.chain_key + ".l1"@
        };
        lemma_two_parts(
            store,
            whole_part(source_of(site.bucket, before)),
            header_part(blob, ranges[next.0]),
        );
        let last = layers.len() - 1;
        assert(store(source_of(site.bucket, layers[last].key)) == layer_bytes(
            store,
            layers[last].parts,
        ));
    }
}

/// Where the object of chain `i` of an archive is built.
pub open spec fn chain_key_text(archive_key: Seq<char>, i: nat) -> Seq<char> {
    "archives/.tmp-chains/"@ + basename_of(archive_key) + "-"@ + decimal_text(i)
}

/// Where the object of chain `i` of an archive is built.
pub fn chain_key(archive_key: &str, i: usize) -> (key: String)
    ensures
        key@ == chain_key_text(archive_key@, i as nat),
{
    let mut key: String = String::from_str("archives/.tmp-chains/");
    key.append(archive_basename(archive_key).as_str());
    key.append("-");
    key.append(decimal(i as u64).as_str());
    key
}

/// Where the header blob of an archive is stored.
pub fn header_blob_key(archive_key: &str) -> (key: String)
    ensures
        key@ == "archives/.tmp-chains/"@ + basename_of(archive_key@) + "-H"@,
{
    let mut key: String = String::from_str("archives/.tmp-chains/");
    key.append(archive_basename(archive_key).as_str());
    key.append("-H");
    key
}

/// A chain of the archive: the first is streamed, the others are built in layers.
#[derive(Debug)]
pub enum ArchiveChain {
    FirstStream { parts: Vec<PartSpec>, final_merge_part_number: u32 },
    Layered(LayeredChain),
}

/// The first chain has to be the streamed one.
pub fn check_first_chain(chains: &Vec<ArchiveChain>) -> (result: Result<(), AssembleError>)
    requires
        chains@.len() > 0,
    ensures
        match result {
            Ok(_) => chains@[0] is FirstStream,
            Err(e) => {
                &&& chains@[0] is Layered
                &&& e is BadCrc
                &&& e->BadCrc_0@ == "first chain must be FirstStream"@
            },
        },
{
    match &chains[0] {
        ArchiveChain::FirstStream { .. } => Ok(()),
        ArchiveChain::Layered(_) => Err(
            AssembleError::BadCrc(String::from_str("first chain must be FirstStream")),
        ),
    }
}

/// The number of the part that holds the directory: behind those of the chains.
pub fn directory_part_number(chains: &Vec<ArchiveChain>) -> (number: i32)
    requires
        chains@.len() < i32::MAX,
    ensures
        number == chains@.len() + 1,
{
    chains.len() as i32 + 1
}

/// A chain with its layers, and the part of the archive that it becomes.
#[derive(Debug)]
pub struct ChainBuild {
    pub part_number: u32,
    pub layers: Vec<LayerSpec>,
}

/// The layers of all chains behind the first, among the first `n`.
pub open spec fn builds_among(
    bucket: Seq<char>,
    files_prefix: Seq<char>,
    archive_key: Seq<char>,
    ranges: Map<u32, HeaderRange>,
    entries: Map<u32, Entry>,
    chains: Seq<ArchiveChain>,
    n: nat,
) -> Seq<(u32, Seq<LayerModel>)>
    decreases n,
{
    if n <= 1 {
        Seq::empty()
    } else {
        let before = builds_among(
            bucket,
            files_prefix,
            archive_key,
            ranges,
            entries,
            chains,
            (n - 1) as nat,
        );
        match chains[n - 1] {
            ArchiveChain::Layered(chain) => before.push(
                (
                    chain.final_merge_part_number,
                    chain_layers(
                        ChainSite {
                            bucket,
                            files_prefix,
                            chain_key: chain_key_text(archive_key, (n - 1) as nat),
                            h_key: "archives/.tmp-chains/"@ + basename_of(archive_key) + "-H"@,
                        },
                        ranges,
                        entries,
                        chain,
                    ),
                ),
            ),
            ArchiveChain::FirstStream { .. } => before,
        }
    }
}

/// The builds over mathematical values.
pub open spec fn build_models(builds: Seq<ChainBuild>) -> Seq<(u32, Seq<LayerModel>)> {
    Seq::new(builds.len(), |i: int| (builds[i].part_number, layer_models(builds[i].layers@)))
}

/// The layers of all chains behind the first.
pub fn layered_builds(
    bucket: &str,
    files_prefix: &str,
    archive_key: &str,
    h_blob: &HeaderBlob,
    entries: &HashMap<u32, Entry>,
    chains: &Vec<ArchiveChain>,
) -> (builds: Vec<ChainBuild>)
    requires
        forall|i: int|
            1 <= i < chains@.len() ==> (#[trigger] chains@[i] matches ArchiveChain::Layered(chain)
                ==> chain_known(h_blob.ranges@, entries@, chain)),
    ensures
        build_models(builds@) == builds_among(
            bucket@,
            files_prefix@,
            archive_key@,
            h_blob.ranges@,
            entries@,
            chains@,
            chains@.len(),
        ),
{
    let h_key: String = header_blob_key(archive_key);
    let mut builds: Vec<ChainBuild> = Vec::new();
    assert(build_models(builds@) =~= Seq::empty());
    if chains.len() == 0 {
        return builds;
    }
    for i in 1..chains.len()
        invariant
            1 <= i,
            h_key@ == "archives/.tmp-chains/"@ + basename_of(archive_key@) + "-H"@,
            forall|i: int|
                1 <= i < chains@.len() ==> (#[trigger] chains@[i] matches ArchiveChain::Layered(
                    chain,
                ) ==> chain_known(h_blob.ranges@, entries@, chain)),
            build_models(builds@) == builds_among(
                bucket@,
                files_prefix@,
                archive_key@,
                h_blob.ranges@,
                entries@,
                chains@,
                i as nat,
            ),
    {
        if let ArchiveChain::Layered(chain) = &chains[i] {
            assert(chains@[i as int] == ArchiveChain::Layered(*chain));
            let key: String = chain_key(archive_key, i);
            let layers: Vec<LayerSpec> = build_layer_specs(
                bucket,
                files_prefix,
                key.as_str(),
                h_key.as_str(),
                h_blob,
                entries,
                chain,
            );
            let ghost before = builds@;
            let build: ChainBuild = ChainBuild {
                part_number: chain.final_merge_part_number,
                layers,
            };
            assert(build_models(before.push(build)) =~= build_models(before).push(
                (build.part_number, layer_models(build.layers@)),
            ));
            builds.push(build);
        }
    }
    builds
}

/// How many waves there are: as many as the tallest chain has layers.
pub open spec fn wave_count(builds: Seq<ChainBuild>, n: nat) -> nat
    decreases n,
{
    if n == 0 {
        0
    } else {
        let before = wave_count(builds, (n - 1) as nat);
        if builds[n - 1].layers@.len() > before {
            builds[n - 1].layers@.len()
        } else {
            before
        }
    }
}

/// How many waves there are.
pub fn max_layers(builds: &Vec<ChainBuild>) -> (count: usize)
    ensures
        count == wave_count(builds@, builds@.len()),
{
    let mut count: usize = 0;
    for i in 0..builds.len()
        invariant
            count == wave_count(builds@, i as nat),
    {
        if builds[i].layers.len() > count {
            count = builds[i].layers.len();
        }
    }
    count
}

/// The chains, among the first `n`, that have a layer at this depth.
pub open spec fn chains_at_depth(builds: Seq<ChainBuild>, depth: int, n: nat) -> Seq<int>
    decreases n,
{
    if n == 0 {
        Seq::empty()
    } else if depth < builds[n - 1].layers@.len() {
        chains_at_depth(builds, depth, (n - 1) as nat).push(n - 1)
    } else {
        chains_at_depth(builds, depth, (n - 1) as nat)
    }
}

/// The wave at a depth: for each chain that is tall enough, by its place among the builds.
pub fn layer_wave(builds: &Vec<ChainBuild>, depth: usize) -> (wave: Vec<usize>)
    ensures
        Seq::new(wave@.len(), |i: int| wave@[i] as int) == chains_at_depth(
            builds@,
            depth as int,
            builds@.len(),
        ),
{
    let mut wave: Vec<usize> = Vec::new();
    assert(Seq::new(wave@.len(), |i: int| wave@[i] as int) =~= Seq::empty());
    for n in 0..builds.len()
        invariant
            Seq::new(wave@.len(), |i: int| wave@[i] as int) == chains_at_depth(
                builds@,
                depth as int,
                n as nat,
            ),
    {
        if depth < builds[n].layers.len() {
            let ghost before = wave@;
            wave.push(n);
            assert(Seq::new(wave@.len(), |i: int| wave@[i] as int) =~= Seq::new(
                before.len(),
                |i: int| before[i] as int,
            ).push(n as int));
        }
    }
    wave
}

/// The copies that make the finished chains parts of the archive.
pub fn merge_copies(builds: &Vec<ChainBuild>, bucket: &str) -> (merges: Vec<(u32, String)>)
    requires
        forall|i: int| 0 <= i < builds@.len() ==> (#[trigger] builds@[i]).layers@.len() > 0,
    ensures
        merges@.len() == builds@.len(),
        forall|i: int|
            0 <= i < merges@.len() ==> (#[trigger] merges@[i]).0 == builds@[i].part_number
                && merges@[i].1@ == source_of(bucket@, builds@[i].layers@.last().key@),
{
    let mut merges: Vec<(u32, String)> = Vec::new();
    for i in 0..builds.len()
        invariant
            forall|i: int| 0 <= i < builds@.len() ==> (#[trigger] builds@[i]).layers@.len() > 0,
            merges@.len() == i,
            forall|j: int|
                0 <= j < i ==> (#[trigger] merges@[j]).0 == builds@[j].part_number && merges@[j].1@
                    == source_of(bucket@, builds@[j].layers@.last().key@),
    {
        let build: &ChainBuild = &builds[i];
        assert(builds@[i as int].layers@.len() > 0);
        let last: &LayerSpec = &build.layers[build.layers.len() - 1];
        merges.push((build.part_number, copy_source(bucket, last.key.as_str())));
    }
    merges
}

/// In the wave at a depth every chain that has a layer there is built, once, and no other.
pub proof fn waves_build_every_layer(builds: Seq<ChainBuild>, depth: int, n: nat, i: int)
    requires
        n <= builds.len(),
    ensures
        chains_at_depth(builds, depth, n).contains(i) <==> 0 <= i < n && depth
            < builds[i].layers@.len(),
        forall|a: int, b: int|
            0 <= a < b < chains_at_depth(builds, depth, n).len() ==> #[trigger] chains_at_depth(
                builds,
                depth,
                n,
            )[a] < #[trigger] chains_at_depth(builds, depth, n)[b],
        forall|a: int|
            0 <= a < chains_at_depth(builds, depth, n).len() ==> 0 <= #[trigger] chains_at_depth(
                builds,
                depth,
                n,
            )[a] < n,
    decreases n,
{
    if n > 0 {
        let m = (n - 1) as nat;
        waves_build_every_layer(builds, depth, m, i);
        let before = chains_at_depth(builds, depth, m);
        let all = chains_at_depth(builds, depth, n);
        if before.contains(i) {
            let at = choose|at: int| 0 <= at < before.len() && before[at] == i;
            assert(all[at] == i);
        }
        if depth < builds[n - 1].layers@.len() {
            assert(all[before.len() as int] == n - 1);
        }
        if all.contains(i) && !before.contains(i) {
            let at = choose|at: int| 0 <= at < all.len() && all[at] == i;
            assert(at == before.len());
        }
    }
}

/// There are as many waves as the tallest chain has layers, and no more.
pub proof fn waves_reach_the_tallest_chain(builds: Seq<ChainBuild>, n: nat)
    requires
        n <= builds.len(),
    ensures
        forall|i: int| 0 <= i < n ==> (#[trigger] builds[i]).layers@.len() <= wave_count(builds, n),
        wave_count(builds, n) > 0 ==> exists|i: int|
            0 <= i < n && (#[trigger] builds[i]).layers@.len() == wave_count(builds, n),
    decreases n,
{
    if n > 0 {
        waves_reach_the_tallest_chain(builds, (n - 1) as nat);
        let before = wave_count(builds, (n - 1) as nat);
        if builds[n - 1].layers@.len() > before {
            assert(builds[n - 1].layers@.len() == wave_count(builds, n));
        } else if before > 0 {
            let i = choose|i: int|
                0 <= i < n - 1 && (#[trigger] builds[i]).layers@.len() == before;
            assert(builds[i].layers@.len() == wave_count(builds, n));
        }
    }
}

/// Where all chains but the first are layered, each of them is built, at its own part of the
/// archive, under a key of its own.
pub proof fn every_layered_chain_is_built(
    bucket: Seq<char>,
    files_prefix: Seq<char>,
    archive_key: Seq<char>,
    ranges: Map<u32, HeaderRange>,
    entries: Map<u32, Entry>,
    chains: Seq<ArchiveChain>,
    n: nat,
)
    requires
        0 < n <= chains.len(),
        forall|i: int| 1 <= i < chains.len() ==> (#[trigger] chains[i]) is Layered,
    ensures
        ({
            let builds = builds_among(
                bucket,
                files_prefix,
                archive_key,
                ranges,
                entries,
                chains,
                n,
            );
            &&& builds.len() == n - 1
            &&& forall|i: int|
                0 <= i < n - 1 ==> (#[trigger] builds[i]).0 == chains[i
                    + 1]->Layered_0.final_merge_part_number && builds[i].1.len() > 0
        }),
    decreases n,
{
    if n > 1 {
        every_layered_chain_is_built(
            bucket,
            files_prefix,
            archive_key,
            ranges,
            entries,
            chains,
            (n - 1) as nat,
        );
        assert(chains[n - 1] is Layered);
    }
}

/// Whatever chains there are, those behind the first that are layered are built, each once,
/// in their order and at their own part of the archive.
pub proof fn layered_chains_are_built_in_order(
    bucket: Seq<char>,
    files_prefix: Seq<char>,
    archive_key: Seq<char>,
    ranges: Map<u32, HeaderRange>,
    entries: Map<u32, Entry>,
    chains: Seq<ArchiveChain>,
    n: nat,
)
    requires
        0 < n <= chains.len(),
    ensures
        builds_among(
            bucket,
            files_prefix,
            archive_key,
            ranges,
            entries,
            chains,
            n,
        ).map_values(|b: (u32, Seq<LayerModel>)| b.0) == chains.subrange(1, n as int).filter(
            |c: ArchiveChain| c is Layered,
        ).map_values(|c: ArchiveChain| c->Layered_0.final_merge_part_number),
    decreases n,
{
    reveal(Seq::filter);
    let number = |b: (u32, Seq<LayerModel>)| b.0;
    let part = |c: ArchiveChain| c->Layered_0.final_merge_part_number;
    let layered = |c: ArchiveChain| c is Layered;
    let now = builds_among(bucket, files_prefix, archive_key, ranges, entries, chains, n);
    let seen = chains.subrange(1, n as int);
    if n > 1 {
        let m = (n - 1) as nat;
        let before = builds_among(bucket, files_prefix, archive_key, ranges, entries, chains, m);
        layered_chains_are_built_in_order(
            bucket,
            files_prefix,
            archive_key,
            ranges,
            entries,
            chains,
            m,
        );
        assert(seen.drop_last() =~= chains.subrange(1, m as int));
        let kept = seen.drop_last().filter(layered);
        if chains[n - 1] is Layered {
            assert(seen.filter(layered) == kept.push(chains[n - 1]));
            assert(now.map_values(number) =~= before.map_values(number).push(now.last().0));
            assert(kept.push(chains[n - 1]).map_values(part) =~= kept.map_values(part).push(
                part(chains[n - 1]),
            ));
        }
    } else {
        assert(now.map_values(number) =~= seen.filter(layered).map_values(part));
    }
}

/// No two chains of an archive share a key.
pub proof fn chain_keys_do_not_collide(archive_key: Seq<char>, a: nat, b: nat)
    requires
        a != b,
    ensures
        chain_key_text(archive_key, a) != chain_key_text(archive_key, b),
{
    let head = "archives/.tmp-chains/"@ + basename_of(archive_key) + "-"@;
    assert(chain_key_text(archive_key, a).skip(head.len() as int) =~= decimal_text(a));
    assert(chain_key_text(archive_key, b).skip(head.len() as int) =~= decimal_text(b));
    crate::text::decimal_is_read_back(a);
    crate::text::decimal_is_read_back(b);
}

/// The header that is made for an entry whose checksum is known is the one that was planned
/// for it.
pub proof fn made_headers_are_the_planned_ones(meta: EntryMeta, e: Entry)
    requires
        is_header_meta(meta, e),
        e.crc is Some,
    ensures
        meta.local_header_spec() == planned_header(e),
        meta.central_dir_entry_spec() == planned_record(e),
        meta.crc == e.crc->Some_0,
{
}

} // verus!
