//! Planning of the archive as chains of copies.
//!
//! Every content reaches the archive by a copy inside S3, but for one read at the very
//! start. Each big anchors a segment and takes its share of the smalls, dealt round. A
//! segment is an object of its own that grows link by link: each link copies what is there
//! and appends one piece. The segments are then stitched together and the directory is
//! put behind them. The local header of a segment's big ends the object of the segment
//! before it, so that only the first segment starts with a header.

use crate::plan::{
    bigs_of, contents_match, distinct_ids, drawn_from, entry_bytes, file_of, header_bytes,
    largest_first, lemma_bigs_and_smalls,
    lemma_distinct_permuted, lemma_file_of, lemma_has_big, lemma_positions,
    lemma_positions_cover, lemma_run_span_is_total, lemma_run_span_monotonic,
    lemma_sorted_positions, lemma_total_span_permuted, pick, pick_bigs, picks_in_range, positions, run_span, smallest_first,
    total_span, Contents, FileId, SourceFile,
    PART_FLOOR,
};
use crate::sorting::{key_order, key_order_is_total, lemma_picked_permuted, picked, sort_picks};
use crate::text::{decimal, decimal_text};
use crate::zip_format::{
    central_dir_entry_len, central_dir_entry_span, entry_total_len, local_header_len,
    local_header_length, END_RECORDS_LEN,
};
use std::collections::HashMap;
use vstd::prelude::*;
use vstd::seq_lib::{group_to_multiset_ensures, lemma_multiset_commutative};
use vstd::string::StringExecFns;

verus! {

/// One entry of the archive, its checksum open until it is known.
#[derive(Debug, Clone)]
pub struct Entry {
    pub id: FileId,
    pub name: String,
    pub size: u64,
    /// Where the entry's local header starts in the stitched archive.
    pub local_header_offset: u64,
    pub crc: Option<u32>,
}

/// What one link appends to a segment's object, as its last part.
#[derive(Debug, Clone, Copy, PartialEq, Eq, Structural)]
pub enum Piece {
    /// A local header: a small's, or that of the next segment's big.
    Header(FileId),
    /// A content, copied from its object.
    Body(FileId),
}

/// One upload in the chain of a segment: a first part that reaches the floor, and a last
/// part that need not.
#[derive(Debug, Clone, Copy, PartialEq, Eq, Structural)]
pub enum Link {
    /// The first link of the first segment: the header and the first `steal_len` bytes of
    /// the big are uploaded, the rest of the big is copied.
    Bootstrap { anchor: FileId, steal_len: u64 },
    /// The only link of a segment with nothing to append: the big is copied.
    AnchorOnly { anchor: FileId },
    /// The first link of a later segment: the big is copied, a piece appended.
    AnchorThenAppend { anchor: FileId, piece: Piece },
    /// Any further link: what is there is copied forward, a piece appended.
    ForwardThenAppend { piece: Piece },
}

/// One segment: a big and its share of the smalls.
#[derive(Debug, Clone)]
pub struct Segment {
    /// The big that brings the segment over the floor.
    pub anchor: FileId,
    /// The segment's place in the archive.
    pub index: usize,
    /// The links that build the segment's object.
    pub links: Vec<Link>,
    /// Length of the finished object.
    pub object_len: u64,
}

/// The plan of the archive.
#[derive(Debug, Clone)]
pub struct ChainPlan {
    /// The entries in the order in which they stand in the archive.
    pub order: Vec<FileId>,
    /// Each entry, by the number of its file.
    pub entries: HashMap<u32, Entry>,
    /// The segments in the order in which they are stitched.
    pub segments: Vec<Segment>,
    /// Where the central directory starts.
    pub cd_offset: u64,
    /// Length of the central directory.
    pub cd_size: u64,
    /// The entries whose checksum has to be asked for: all of them.
    pub crc_heads: Vec<FileId>,
    pub stats: ChainStats,
}

/// What the planner decided, in numbers.
#[derive(Debug, Clone, Copy, PartialEq, Eq, Structural)]
pub struct ChainStats {
    pub entries: usize,
    pub segments: usize,
    pub bigs: usize,
    pub smalls: usize,
    /// Links over all segments.
    pub links: usize,
    /// Links of the longest chain.
    pub max_chain_depth: usize,
}

/// Why no plan can be made.
#[derive(Debug, Clone, Copy, PartialEq, Eq, Structural)]
pub enum PlanError {
    /// There is no big to bring a segment over the floor.
    NoBigs { smalls: usize },
}

impl PlanError {
    /// The error in words.
    pub open spec fn text(&self) -> Seq<char> {
        match *self {
            PlanError::NoBigs { smalls } => "no big (>=5 MiB) object to anchor segments; "@
                + decimal_text(smalls as nat) + " smalls cannot be placed"@,
        }
    }

    /// The error in words.
    pub fn message(&self) -> (text: String)
        ensures
            text@ == self.text(),
    {
        match self {
            PlanError::NoBigs { smalls } => {
                let mut text: String = String::from_str(
                    "no big (>=5 MiB) object to anchor segments; ",
                );
                text.append(decimal(*smalls as u64).as_str());
                text.append(" smalls cannot be placed");
                text
            },
        }
    }
}

/// `Segment` with its links as a sequence.
#[verifier::ext_equal]
pub struct SegmentModel {
    pub anchor: FileId,
    pub index: int,
    pub links: Seq<Link>,
    pub object_len: int,
}

impl View for Segment {
    type V = SegmentModel;

    open spec fn view(&self) -> SegmentModel {
        SegmentModel {
            anchor: self.anchor,
            index: self.index as int,
            links: self.links@,
            object_len: self.object_len as int,
        }
    }
}

/// The segments of a plan, each with its links as a sequence.
pub open spec fn segment_models(segments: Seq<Segment>) -> Seq<SegmentModel> {
    Seq::new(segments.len(), |i: int| segments[i]@)
}

/// Keys that put the lower identity first.
pub open spec fn by_identity(files: Seq<SourceFile>) -> Seq<(u64, u64)> {
    Seq::new(files.len(), |i: int| (files[i].id.0 as u64, 0))
}

/// The smalls, by identity.
pub open spec fn chain_smalls_of(files: Seq<SourceFile>) -> Seq<SourceFile> {
    picked(files, positions(files, false, files.len()).sort_by(key_order(by_identity(files))))
}

/// What segment `k` of `n` gets of the first `m` smalls when they are dealt round.
pub open spec fn dealt(smalls: Seq<SourceFile>, n: nat, k: int, m: nat) -> Seq<SourceFile>
    decreases m,
{
    if m == 0 {
        Seq::empty()
    } else if (m - 1) % (n as int) == k {
        dealt(smalls, n, k, (m - 1) as nat).push(smalls[m - 1])
    } else {
        dealt(smalls, n, k, (m - 1) as nat)
    }
}

/// The smalls of segment `k`.
pub open spec fn segment_smalls(
    bigs: Seq<SourceFile>,
    smalls: Seq<SourceFile>,
    k: int,
) -> Seq<SourceFile> {
    dealt(smalls, bigs.len(), k, smalls.len())
}

/// The header and the content of each of the smalls.
pub open spec fn small_pieces(smalls: Seq<SourceFile>) -> Seq<Piece>
    decreases smalls.len(),
{
    if smalls.len() == 0 {
        Seq::empty()
    } else {
        small_pieces(smalls.drop_last()).push(Piece::Header(smalls.last().id)).push(
            Piece::Body(smalls.last().id),
        )
    }
}

/// The pieces that segment `k` appends to its big: its smalls, then the header of the next
/// segment's big.
pub open spec fn segment_pieces(
    bigs: Seq<SourceFile>,
    smalls: Seq<SourceFile>,
    k: int,
) -> Seq<Piece> {
    let own = small_pieces(segment_smalls(bigs, smalls, k));
    if k + 1 < bigs.len() {
        own.push(Piece::Header(bigs[k + 1].id))
    } else {
        own
    }
}

/// Links that append the pieces one by one.
pub open spec fn append_links(pieces: Seq<Piece>) -> Seq<Link> {
    Seq::new(pieces.len(), |i: int| Link::ForwardThenAppend { piece: pieces[i] })
}

/// How much of the first big is read, so that with its header it makes up a part.
pub open spec fn bootstrap_len(big: SourceFile) -> u64 {
    if big.header_span() >= PART_FLOOR {
        0
    } else {
        (PART_FLOOR - big.header_span()) as u64
    }
}

/// The links of segment `k`.
pub open spec fn segment_links(
    bigs: Seq<SourceFile>,
    smalls: Seq<SourceFile>,
    k: int,
) -> Seq<Link> {
    let anchor = bigs[k].id;
    let pieces = segment_pieces(bigs, smalls, k);
    if k == 0 {
        seq![Link::Bootstrap { anchor, steal_len: bootstrap_len(bigs[0]) }] + append_links(pieces)
    } else if pieces.len() == 0 {
        seq![Link::AnchorOnly { anchor }]
    } else {
        seq![Link::AnchorThenAppend { anchor, piece: pieces[0] }] + append_links(pieces.drop_first())
    }
}

/// Length of the object of segment `k`: its big, for the first segment with its header, the
/// entries of its smalls, and the header of the next segment's big.
pub open spec fn segment_len(bigs: Seq<SourceFile>, smalls: Seq<SourceFile>, k: int) -> nat {
    let own = segment_smalls(bigs, smalls, k);
    (if k == 0 {
        bigs[k].header_span()
    } else {
        0nat
    }) + bigs[k].size as nat + total_span(own) + (if k + 1 < bigs.len() {
        bigs[k + 1].header_span()
    } else {
        0nat
    })
}

/// Segment `k`.
pub open spec fn segment_model(
    bigs: Seq<SourceFile>,
    smalls: Seq<SourceFile>,
    k: int,
) -> SegmentModel {
    SegmentModel {
        anchor: bigs[k].id,
        index: k,
        links: segment_links(bigs, smalls, k),
        object_len: segment_len(bigs, smalls, k) as int,
    }
}

/// The entries of the first `k` segments in the order in which they stand: each big, then
/// its smalls.
pub open spec fn chain_order(
    bigs: Seq<SourceFile>,
    smalls: Seq<SourceFile>,
    k: nat,
) -> Seq<SourceFile>
    decreases k,
{
    if k == 0 {
        Seq::empty()
    } else {
        chain_order(bigs, smalls, (k - 1) as nat).push(bigs[k - 1]) + segment_smalls(
            bigs,
            smalls,
            k - 1,
        )
    }
}

/// The entry of the `i`-th file, its checksum still open.
pub open spec fn chain_entry(order: Seq<SourceFile>, i: int) -> Entry {
    Entry {
        id: order[i].id,
        name: order[i].name,
        size: order[i].size,
        local_header_offset: run_span(order, 0, i) as u64,
        crc: None,
    }
}

/// `entries` holds the entry of each of the first `n` files, and nothing else.
pub open spec fn chain_entries_of(
    entries: Map<u32, Entry>,
    order: Seq<SourceFile>,
    n: int,
) -> bool {
    &&& forall|i: int|
        0 <= i < n ==> #[trigger] entries.contains_key(order[i].id.0) && entries[order[i].id.0]
            == chain_entry(order, i)
    &&& forall|id: u32| #[trigger]
        entries.contains_key(id) ==> exists|i: int| 0 <= i < n && #[trigger] order[i].id.0 == id
}

/// Length of the central directory records of the first `n` entries.
pub open spec fn directory_span(order: Seq<SourceFile>, n: int) -> nat
    decreases n,
{
    if n <= 0 {
        0
    } else {
        directory_span(order, n - 1) + central_dir_entry_span(
            order[n - 1].name_bytes(),
            run_span(order, 0, n - 1) as u64,
        )
    }
}

/// Links over the first `k` segments.
pub open spec fn links_total(bigs: Seq<SourceFile>, smalls: Seq<SourceFile>, k: nat) -> nat
    decreases k,
{
    if k == 0 {
        0
    } else {
        links_total(bigs, smalls, (k - 1) as nat) + segment_links(bigs, smalls, k - 1).len()
    }
}

/// Links of the longest chain among the first `k` segments.
pub open spec fn deepest_chain(bigs: Seq<SourceFile>, smalls: Seq<SourceFile>, k: nat) -> nat
    decreases k,
{
    if k == 0 {
        0
    } else {
        let before = deepest_chain(bigs, smalls, (k - 1) as nat);
        let own = segment_links(bigs, smalls, k - 1).len();
        if own > before {
            own
        } else {
            before
        }
    }
}

/// `plan` is the chain plan of the archive that holds `files`.
pub open spec fn is_chain_plan(plan: ChainPlan, files: Seq<SourceFile>) -> bool {
    let bigs = bigs_of(files);
    let smalls = chain_smalls_of(files);
    let order = chain_order(bigs, smalls, bigs.len());
    &&& plan.order@ == Seq::new(order.len(), |i: int| order[i].id)
    &&& chain_entries_of(plan.entries@, order, order.len() as int)
    &&& segment_models(plan.segments@) == Seq::new(
        bigs.len(),
        |k: int| segment_model(bigs, smalls, k),
    )
    &&& plan.cd_offset == total_span(files)
    &&& plan.cd_size == directory_span(order, order.len() as int)
    &&& plan.crc_heads@ == plan.order@
    &&& plan.stats.entries == order.len()
    &&& plan.stats.segments == bigs.len()
    &&& plan.stats.bigs == bigs.len()
    &&& plan.stats.smalls == smalls.len()
    &&& plan.stats.links == links_total(bigs, smalls, bigs.len())
    &&& plan.stats.max_chain_depth == deepest_chain(bigs, smalls, bigs.len())
}

/// `result` is what comes of planning `files`: a plan where there is a big, else the error
/// with the number of smalls.
pub open spec fn is_chain_outcome(
    result: Result<ChainPlan, PlanError>,
    files: Seq<SourceFile>,
) -> bool {
    match result {
        Ok(plan) => (exists|i: int| 0 <= i < files.len() && #[trigger] files[i].is_big())
            && is_chain_plan(plan, files),
        Err(PlanError::NoBigs { smalls }) => (forall|i: int|
            0 <= i < files.len() ==> !#[trigger] files[i].is_big()) && smalls == files.len(),
    }
}

/// The files that the planner takes: their identities differ, and where there is a big,
/// every offset and the directory's length fit 64 bits, and the links can be counted.
pub open spec fn chain_plannable(files: Seq<SourceFile>) -> bool {
    let bigs = bigs_of(files);
    let order = chain_order(bigs, chain_smalls_of(files), bigs.len());
    &&& distinct_ids(files)
    &&& bigs.len() > 0 ==> {
        &&& total_span(files) <= u64::MAX
        &&& directory_span(order, order.len() as int) <= u64::MAX
        &&& 2 * files.len() <= usize::MAX
    }
}

impl ChainPlan {
    /// How many segments the archive has.
    pub fn segment_count(&self) -> (count: usize)
        ensures
            count == self.segments@.len(),
    {
        self.segments.len()
    }

    /// Length of the archive: the entries, the central directory and the end records.
    pub fn archive_len(&self) -> (len: u64)
        requires
            self.cd_offset + self.cd_size + END_RECORDS_LEN <= u64::MAX,
        ensures
            len == self.cd_offset + self.cd_size + END_RECORDS_LEN,
    {
        self.cd_offset + self.cd_size + 56 + 20 + 22
    }
}

/// What the first `k` of `n` segments get of the first `m` smalls.
spec fn dealt_to(smalls: Seq<SourceFile>, n: nat, k: nat, m: nat) -> Seq<SourceFile>
    decreases k,
{
    if k == 0 {
        Seq::empty()
    } else {
        dealt_to(smalls, n, (k - 1) as nat, m) + dealt(smalls, n, k - 1, m)
    }
}

proof fn lemma_dealt_step(smalls: Seq<SourceFile>, n: nat, k: nat, m: nat)
    requires
        0 < m,
        k <= n,
        0 < n,
    ensures
        dealt_to(smalls, n, k, m).to_multiset() == (if (m - 1) % (n as int) < k {
            dealt_to(smalls, n, k, (m - 1) as nat).to_multiset().insert(smalls[m - 1])
        } else {
            dealt_to(smalls, n, k, (m - 1) as nat).to_multiset()
        }),
    decreases k,
{
    broadcast use group_to_multiset_ensures;

    let l = (m - 1) as nat;
    if k > 0 {
        let j = (k - 1) as nat;
        lemma_dealt_step(smalls, n, j, m);
        lemma_multiset_commutative(dealt_to(smalls, n, j, m), dealt(smalls, n, j as int, m));
        lemma_multiset_commutative(dealt_to(smalls, n, j, l), dealt(smalls, n, j as int, l));
        let small = smalls[m - 1];
        let got = dealt_to(smalls, n, k, m).to_multiset();
        let want = if l as int % (n as int) < k {
            dealt_to(smalls, n, k, l).to_multiset().insert(small)
        } else {
            dealt_to(smalls, n, k, l).to_multiset()
        };
        assert(got =~= want);
    } else {
        assert(0 <= l as int % (n as int)) by {
            vstd::arithmetic::div_mod::lemma_mod_bound(l as int, n as int);
        }
    }
}

proof fn lemma_dealt_all(smalls: Seq<SourceFile>, n: nat, m: nat)
    requires
        0 < n,
        m <= smalls.len(),
    ensures
        dealt_to(smalls, n, n, m).to_multiset() == smalls.take(m as int).to_multiset(),
    decreases m,
{
    broadcast use group_to_multiset_ensures;

    if m == 0 {
        lemma_dealt_none(smalls, n, n);
        assert(smalls.take(0) =~= Seq::empty());
    } else {
        lemma_dealt_all(smalls, n, (m - 1) as nat);
        lemma_dealt_step(smalls, n, n, m);
        vstd::arithmetic::div_mod::lemma_mod_bound(m - 1, n as int);
        assert(smalls.take(m as int) =~= smalls.take(m - 1).push(smalls[m - 1]));
    }
}

proof fn lemma_dealt_none(smalls: Seq<SourceFile>, n: nat, k: nat)
    ensures
        dealt_to(smalls, n, k, 0) =~= Seq::<SourceFile>::empty(),
    decreases k,
{
    if k > 0 {
        lemma_dealt_none(smalls, n, (k - 1) as nat);
    }
}

proof fn lemma_chain_order_files(bigs: Seq<SourceFile>, smalls: Seq<SourceFile>, k: nat)
    requires
        k <= bigs.len(),
    ensures
        chain_order(bigs, smalls, k).to_multiset() == bigs.take(k as int).to_multiset().add(
            dealt_to(smalls, bigs.len(), k, smalls.len()).to_multiset(),
        ),
    decreases k,
{
    broadcast use group_to_multiset_ensures;

    let n = bigs.len();
    let m = smalls.len();
    if k == 0 {
        assert(bigs.take(0) =~= Seq::empty());
        assert(chain_order(bigs, smalls, k).to_multiset() =~= bigs.take(
            k as int,
        ).to_multiset().add(dealt_to(smalls, n, k, m).to_multiset()));
    } else {
        let j = (k - 1) as nat;
        lemma_chain_order_files(bigs, smalls, j);
        let before = chain_order(bigs, smalls, j);
        let own = segment_smalls(bigs, smalls, j as int);
        lemma_multiset_commutative(before.push(bigs[j as int]), own);
        lemma_multiset_commutative(dealt_to(smalls, n, j, m), own);
        assert(bigs.take(k as int) =~= bigs.take(j as int).push(bigs[j as int]));
        let got = chain_order(bigs, smalls, k).to_multiset();
        let want = bigs.take(k as int).to_multiset().add(dealt_to(smalls, n, k, m).to_multiset());
        assert(got =~= want);
    }
}

/// The smalls by identity are the smalls.
pub(crate) proof fn lemma_chain_smalls(files: Seq<SourceFile>)
    requires
        files.len() <= usize::MAX,
    ensures
        bigs_of(files).len() + chain_smalls_of(files).len() == files.len(),
        bigs_of(files).to_multiset().add(chain_smalls_of(files).to_multiset())
            == files.to_multiset(),
{
    broadcast use group_to_multiset_ensures;

    let picks = positions(files, false, files.len());
    let chain_leq = key_order(by_identity(files));
    let single_leq = key_order(smallest_first(files));
    key_order_is_total(by_identity(files));
    key_order_is_total(smallest_first(files));
    picks.lemma_sort_by_ensures(chain_leq);
    picks.lemma_sort_by_ensures(single_leq);
    lemma_picked_permuted(files, picks.sort_by(chain_leq), picks.sort_by(single_leq));
    lemma_bigs_and_smalls(files);
    assert(picks.sort_by(chain_leq).to_multiset().len() == picks.len());
    assert(picks.sort_by(single_leq).to_multiset().len() == picks.len());
}

/// The chain plan places every file exactly once.
pub proof fn every_file_is_chained_once(files: Seq<SourceFile>)
    requires
        files.len() <= usize::MAX,
        bigs_of(files).len() > 0,
    ensures
        chain_order(bigs_of(files), chain_smalls_of(files), bigs_of(files).len()).to_multiset()
            == files.to_multiset(),
{
    let bigs = bigs_of(files);
    let smalls = chain_smalls_of(files);
    lemma_chain_smalls(files);
    lemma_chain_order_files(bigs, smalls, bigs.len());
    lemma_dealt_all(smalls, bigs.len(), smalls.len());
    assert(bigs.take(bigs.len() as int) =~= bigs);
    assert(smalls.take(smalls.len() as int) =~= smalls);
}

proof fn lemma_total_span_concat(a: Seq<SourceFile>, b: Seq<SourceFile>)
    ensures
        total_span(a + b) == total_span(a) + total_span(b),
    decreases b.len(),
{
    if b.len() == 0 {
        assert(a + b =~= a);
    } else {
        lemma_total_span_concat(a, b.drop_last());
        assert((a + b).drop_last() =~= a + b.drop_last());
    }
}

/// Length of the objects of the first `k` segments.
pub open spec fn objects_len(bigs: Seq<SourceFile>, smalls: Seq<SourceFile>, k: nat) -> nat
    decreases k,
{
    if k == 0 {
        0
    } else {
        objects_len(bigs, smalls, (k - 1) as nat) + segment_len(bigs, smalls, k - 1)
    }
}

proof fn lemma_order_span(bigs: Seq<SourceFile>, smalls: Seq<SourceFile>, k: nat)
    requires
        0 < k <= bigs.len(),
    ensures
        total_span(chain_order(bigs, smalls, k)) == total_span(
            chain_order(bigs, smalls, (k - 1) as nat),
        ) + bigs[k - 1].span() + total_span(segment_smalls(bigs, smalls, k - 1)),
{
    let before = chain_order(bigs, smalls, (k - 1) as nat);
    lemma_total_span_concat(before.push(bigs[k - 1]), segment_smalls(bigs, smalls, k - 1));
    assert(before.push(bigs[k - 1]).drop_last() =~= before);
}

proof fn lemma_objects_len(bigs: Seq<SourceFile>, smalls: Seq<SourceFile>, k: nat)
    requires
        k <= bigs.len(),
    ensures
        objects_len(bigs, smalls, k) == total_span(chain_order(bigs, smalls, k)) + (if 0 < k
            < bigs.len() {
            bigs[k as int].header_span()
        } else {
            0nat
        }),
    decreases k,
{
    if k > 0 {
        lemma_objects_len(bigs, smalls, (k - 1) as nat);
        lemma_order_span(bigs, smalls, k);
    }
}

/// The objects of the segments tile the archive up to its directory, and each can be a part
/// of the stitching upload.
pub proof fn segments_tile_the_archive(files: Seq<SourceFile>)
    requires
        files.len() <= usize::MAX,
        bigs_of(files).len() > 0,
    ensures
        ({
            let bigs = bigs_of(files);
            let smalls = chain_smalls_of(files);
            &&& objects_len(bigs, smalls, bigs.len()) == total_span(files)
            &&& forall|k: int|
                0 <= k < bigs.len() ==> #[trigger] segment_len(bigs, smalls, k) >= PART_FLOOR
        }),
{
    let bigs = bigs_of(files);
    let smalls = chain_smalls_of(files);
    lemma_bigs_and_smalls(files);
    every_file_is_chained_once(files);
    lemma_total_span_permuted(chain_order(bigs, smalls, bigs.len()), files);
    lemma_objects_len(bigs, smalls, bigs.len());
    assert forall|k: int| 0 <= k < bigs.len() implies #[trigger] segment_len(bigs, smalls, k)
        >= PART_FLOOR by {
        assert(bigs[k].is_big());
    }
}

proof fn lemma_small_pieces_len(smalls: Seq<SourceFile>)
    ensures
        small_pieces(smalls).len() == 2 * smalls.len(),
    decreases smalls.len(),
{
    if smalls.len() > 0 {
        lemma_small_pieces_len(smalls.drop_last());
    }
}

proof fn lemma_links_bound(bigs: Seq<SourceFile>, smalls: Seq<SourceFile>, k: nat)
    requires
        k <= bigs.len(),
    ensures
        links_total(bigs, smalls, k) <= k + 2 * dealt_to(smalls, bigs.len(), k, smalls.len()).len()
            + (if k > 0 && bigs.len() > 1 {
            1nat
        } else {
            0nat
        }),
        deepest_chain(bigs, smalls, k) <= links_total(bigs, smalls, k),
    decreases k,
{
    if k > 0 {
        lemma_links_bound(bigs, smalls, (k - 1) as nat);
        lemma_small_pieces_len(segment_smalls(bigs, smalls, k - 1));
    }
}

proof fn lemma_chain_counts(files: Seq<SourceFile>, k: nat)
    requires
        files.len() <= usize::MAX,
        k <= bigs_of(files).len(),
    ensures
        links_total(bigs_of(files), chain_smalls_of(files), k) <= 2 * files.len(),
        deepest_chain(bigs_of(files), chain_smalls_of(files), k) <= 2 * files.len(),
    decreases bigs_of(files).len() - k,
{
    broadcast use group_to_multiset_ensures;

    let bigs = bigs_of(files);
    let smalls = chain_smalls_of(files);
    if k < bigs.len() {
        lemma_chain_counts(files, k + 1);
    } else if k > 0 {
        lemma_chain_smalls(files);
        lemma_links_bound(bigs, smalls, k);
        lemma_dealt_all(smalls, bigs.len(), smalls.len());
        assert(smalls.take(smalls.len() as int) =~= smalls);
        let dealt_out = dealt_to(smalls, bigs.len(), k, smalls.len());
        assert(dealt_out.to_multiset().len() == dealt_out.len());
        assert(smalls.to_multiset().len() == smalls.len());
    }
}

/// The smalls' positions, by identity.
fn pick_by_identity(files: &Vec<SourceFile>, picks: Vec<usize>) -> (smalls: Vec<usize>)
    requires
        picks@ == positions(files@, false, files@.len()),
    ensures
        picks_in_range(smalls@, files@),
        picked(files@, smalls@) == chain_smalls_of(files@),
{
    let mut keys: Vec<(u64, u64)> = Vec::new();
    for i in 0..files.len()
        invariant
            keys@ == by_identity(files@).take(i as int),
    {
        keys.push((files[i].id.0 as u64, 0));
        assert(keys@ =~= by_identity(files@).take(i + 1));
    }
    proof {
        assert(keys@ =~= by_identity(files@));
        lemma_positions(files@, false, files@.len());
        key_order_is_total(keys@);
        picks@.lemma_sort_by_ensures(key_order(keys@));
        lemma_sorted_positions(files@, false, picks@.sort_by(key_order(keys@)));
    }
    sort_picks(&keys, picks)
}

/// Deals the smalls round to `n` segments.
fn deal(files: &Vec<SourceFile>, smalls: &Vec<usize>, n: usize) -> (buckets: Vec<Vec<usize>>)
    requires
        0 < n,
        picks_in_range(smalls@, files@),
    ensures
        buckets@.len() == n,
        forall|k: int|
            0 <= k < n ==> picks_in_range(#[trigger] buckets@[k]@, files@) && picked(
                files@,
                buckets@[k]@,
            ) == dealt(picked(files@, smalls@), n as nat, k, smalls@.len()),
{
    let ghost small_files = picked(files@, smalls@);
    let mut buckets: Vec<Vec<usize>> = Vec::new();
    for k in 0..n
        invariant
            buckets@.len() == k,
            forall|j: int| 0 <= j < k ==> #[trigger] buckets@[j]@ == Seq::<usize>::empty(),
    {
        buckets.push(Vec::new());
    }
    proof {
        assert forall|k: int| 0 <= k < n implies picks_in_range(#[trigger] buckets@[k]@, files@)
            && picked(files@, buckets@[k]@) == dealt(small_files, n as nat, k, 0) by {
            assert(picked(files@, buckets@[k]@) =~= Seq::empty());
        }
    }
    for m in 0..smalls.len()
        invariant
            0 < n,
            picks_in_range(smalls@, files@),
            small_files == picked(files@, smalls@),
            buckets@.len() == n,
            forall|k: int|
                0 <= k < n ==> picks_in_range(#[trigger] buckets@[k]@, files@) && picked(
                    files@,
                    buckets@[k]@,
                ) == dealt(small_files, n as nat, k, m as nat),
    {
        let ghost before = buckets@;
        let turn: usize = m % n;
        let small: usize = smalls[m];
        buckets[turn].push(small);
        proof {
            assert forall|k: int| 0 <= k < n implies picks_in_range(
                #[trigger] buckets@[k]@,
                files@,
            ) && picked(files@, buckets@[k]@) == dealt(
                small_files,
                n as nat,
                k,
                (m + 1) as nat,
            ) by {
                assert(picks_in_range(before[k]@, files@));
                if k == turn {
                    assert(buckets@[k]@ == before[k]@.push(small));
                    assert(picked(files@, buckets@[k]@) =~= picked(files@, before[k]@).push(
                        files@[small as int],
                    ));
                } else {
                    assert(buckets@[k]@ == before[k]@);
                }
            }
        }
    }
    buckets
}

/// The pieces that a segment appends to its big.
fn pieces_of(files: &Vec<SourceFile>, bucket: &Vec<usize>, next_big: Option<usize>) -> (pieces: Vec<
    Piece,
>)
    requires
        picks_in_range(bucket@, files@),
        next_big matches Some(next) ==> next < files@.len(),
    ensures
        pieces@ == (match next_big {
            Some(next) => small_pieces(picked(files@, bucket@)).push(
                Piece::Header(files@[next as int].id),
            ),
            None => small_pieces(picked(files@, bucket@)),
        }),
{
    let ghost own = picked(files@, bucket@);
    let mut pieces: Vec<Piece> = Vec::new();
    assert(own.take(0) =~= Seq::empty());
    for i in 0..bucket.len()
        invariant
            picks_in_range(bucket@, files@),
            own == picked(files@, bucket@),
            pieces@ == small_pieces(own.take(i as int)),
    {
        let id: FileId = files[bucket[i]].id;
        pieces.push(Piece::Header(id));
        pieces.push(Piece::Body(id));
        assert(own.take(i + 1).drop_last() =~= own.take(i as int));
    }
    assert(own.take(own.len() as int) =~= own);
    if let Some(next) = next_big {
        pieces.push(Piece::Header(files[next].id));
    }
    pieces
}

/// The links that build a segment's object.
fn links_of(files: &Vec<SourceFile>, anchor: usize, first: bool, pieces: &Vec<Piece>) -> (links: Vec<
    Link,
>)
    requires
        anchor < files@.len(),
        files@[anchor as int].header_span() <= u64::MAX,
    ensures
        links@ == (if first {
            seq![
                Link::Bootstrap {
                    anchor: files@[anchor as int].id,
                    steal_len: bootstrap_len(files@[anchor as int]),
                },
            ] + append_links(pieces@)
        } else if pieces@.len() == 0 {
            seq![Link::AnchorOnly { anchor: files@[anchor as int].id }]
        } else {
            seq![Link::AnchorThenAppend { anchor: files@[anchor as int].id, piece: pieces@[0] }]
                + append_links(pieces@.drop_first())
        }),
{
    let id: FileId = files[anchor].id;
    let mut links: Vec<Link> = Vec::new();
    let mut from: usize = 0;
    if first {
        let header: u64 = local_header_len(files[anchor].name.as_str());
        let steal_len: u64 = if header >= PART_FLOOR {
            0
        } else {
            PART_FLOOR - header
        };
        links.push(Link::Bootstrap { anchor: id, steal_len });
    } else if pieces.len() == 0 {
        links.push(Link::AnchorOnly { anchor: id });
    } else {
        links.push(Link::AnchorThenAppend { anchor: id, piece: pieces[0] });
        from = 1;
    }
    let ghost head = links@;
    let ghost rest = pieces@.skip(from as int);
    assert(links@ =~= head + append_links(rest.take(0)));
    for i in from..pieces.len()
        invariant
            from <= i,
            rest == pieces@.skip(from as int),
            from <= pieces@.len(),
            links@ == head + append_links(rest.take(i - from)),
    {
        links.push(Link::ForwardThenAppend { piece: pieces[i] });
        assert(append_links(rest.take(i + 1 - from)) =~= append_links(rest.take(i - from)).push(
            Link::ForwardThenAppend { piece: rest[i - from] },
        ));
        assert(links@ =~= head + append_links(rest.take(i + 1 - from)));
    }
    proof {
        assert(rest.take(rest.len() as int) =~= rest);
        if first {
            assert(rest =~= pieces@);
        } else if pieces@.len() == 0 {
            assert(links@ =~= head);
        } else {
            assert(rest =~= pieces@.drop_first());
        }
    }
    links
}

proof fn lemma_total_span_take(files: Seq<SourceFile>, i: int)
    requires
        0 <= i <= files.len(),
    ensures
        total_span(files.take(i)) <= total_span(files),
{
    lemma_total_span_concat(files.take(i), files.skip(i));
    assert(files.take(i) + files.skip(i) =~= files);
}

/// Sum of the lengths of the entries at the given positions.
fn sum_spans(files: &Vec<SourceFile>, bucket: &Vec<usize>) -> (sum: u64)
    requires
        picks_in_range(bucket@, files@),
        total_span(picked(files@, bucket@)) <= u64::MAX,
    ensures
        sum == total_span(picked(files@, bucket@)),
{
    let ghost own = picked(files@, bucket@);
    let mut sum: u64 = 0;
    for i in 0..bucket.len()
        invariant
            picks_in_range(bucket@, files@),
            own == picked(files@, bucket@),
            total_span(own) <= u64::MAX,
            sum == total_span(own.take(i as int)),
    {
        let file: &SourceFile = &files[bucket[i]];
        proof {
            lemma_total_span_take(own, i + 1);
            assert(own.take(i + 1).drop_last() =~= own.take(i as int));
        }
        sum = sum + entry_total_len(file.name.as_str(), file.size);
    }
    assert(own.take(own.len() as int) =~= own);
    sum
}

proof fn lemma_directory_span_monotonic(order: Seq<SourceFile>, i: int, j: int)
    requires
        i <= j,
    ensures
        directory_span(order, i) <= directory_span(order, j),
    decreases j - i,
{
    if i < j {
        lemma_directory_span_monotonic(order, i, j - 1);
    }
}

/// The entries at the given positions, with their offsets, and the length of the directory.
fn entries_in_order(files: &Vec<SourceFile>, order: &Vec<usize>) -> (result: (
    HashMap<u32, Entry>,
    u64,
))
    requires
        picks_in_range(order@, files@),
        distinct_ids(picked(files@, order@)),
        total_span(picked(files@, order@)) <= u64::MAX,
        directory_span(picked(files@, order@), order@.len() as int) <= u64::MAX,
    ensures
        chain_entries_of(result.0@, picked(files@, order@), order@.len() as int),
        result.1 == directory_span(picked(files@, order@), order@.len() as int),
{
    broadcast use vstd::std_specs::hash::group_hash_axioms;

    let ghost all = picked(files@, order@);
    let mut entries: HashMap<u32, Entry> = HashMap::new();
    let mut offset: u64 = 0;
    let mut cd_size: u64 = 0;
    proof {
        lemma_run_span_is_total(all);
    }
    for i in 0..order.len()
        invariant
            all == picked(files@, order@),
            picks_in_range(order@, files@),
            distinct_ids(all),
            run_span(all, 0, all.len() as int) <= u64::MAX,
            directory_span(all, all.len() as int) <= u64::MAX,
            offset == run_span(all, 0, i as int),
            cd_size == directory_span(all, i as int),
            chain_entries_of(entries@, all, i as int),
    {
        let file: &SourceFile = &files[order[i]];
        let ghost before = entries@;
        proof {
            lemma_run_span_monotonic(all, 0, i + 1, all.len() as int);
            lemma_directory_span_monotonic(all, i + 1, all.len() as int);
            assert(all[i as int] == file);
        }
        cd_size = cd_size + central_dir_entry_len(file.name.as_str(), offset);
        entries.insert(
            file.id.0,
            Entry {
                id: file.id,
                name: file.name.clone(),
                size: file.size,
                local_header_offset: offset,
                crc: None,
            },
        );
        offset = offset + entry_total_len(file.name.as_str(), file.size);
        proof {
            assert forall|t: int| 0 <= t < i + 1 implies #[trigger] entries@.contains_key(
                all[t].id.0,
            ) && entries@[all[t].id.0] == chain_entry(all, t) by {
                if t < i {
                    assert(all[t].id != all[i as int].id);
                    assert(before.contains_key(all[t].id.0));
                }
            }
            assert forall|id: u32| #[trigger] entries@.contains_key(id) implies exists|t: int|
                0 <= t < i + 1 && #[trigger] all[t].id.0 == id by {
                if id == file.id.0 {
                    assert(all[i as int].id.0 == id);
                } else {
                    assert(before.contains_key(id));
                }
            }
        }
    }
    (entries, cd_size)
}

/// The identities at the given positions.
fn ids_in_order(files: &Vec<SourceFile>, order: &Vec<usize>) -> (ids: Vec<FileId>)
    requires
        picks_in_range(order@, files@),
    ensures
        ids@ == Seq::new(order@.len(), |i: int| picked(files@, order@)[i].id),
{
    let mut ids: Vec<FileId> = Vec::new();
    for i in 0..order.len()
        invariant
            picks_in_range(order@, files@),
            ids@ == Seq::new(i as nat, |t: int| picked(files@, order@)[t].id),
    {
        ids.push(files[order[i]].id);
        assert(ids@ =~= Seq::new((i + 1) as nat, |t: int| picked(files@, order@)[t].id));
    }
    ids
}

proof fn lemma_span_bounds(files: Seq<SourceFile>, k: nat)
    requires
        files.len() <= usize::MAX,
        0 < k <= bigs_of(files).len(),
    ensures
        ({
            let bigs = bigs_of(files);
            let smalls = chain_smalls_of(files);
            &&& total_span(chain_order(bigs, smalls, k)) <= total_span(files)
            &&& bigs[k - 1].span() + total_span(segment_smalls(bigs, smalls, k - 1)) <= total_span(
                files,
            )
            &&& segment_len(bigs, smalls, k - 1) <= total_span(files)
        }),
    decreases bigs_of(files).len() - k,
{
    let bigs = bigs_of(files);
    let smalls = chain_smalls_of(files);
    lemma_order_span(bigs, smalls, k);
    lemma_objects_len(bigs, smalls, k);
    lemma_objects_len(bigs, smalls, (k - 1) as nat);
    if k < bigs.len() {
        lemma_span_bounds(files, k + 1);
        lemma_order_span(bigs, smalls, k + 1);
    } else {
        every_file_is_chained_once(files);
        lemma_total_span_permuted(chain_order(bigs, smalls, k), files);
    }
}

/// Plans the archive as chains of copies. Without a big there is no plan.
pub fn plan_segment_chain(files: Vec<SourceFile>) -> (result: Result<ChainPlan, PlanError>)
    requires
        chain_plannable(files@),
    ensures
        is_chain_outcome(result, files@),
{
    let big_picks: Vec<usize> = pick(&files, true);
    let small_picks: Vec<usize> = pick(&files, false);
    proof {
        assert(files@.len() == files.len());
        lemma_has_big(files@, files@.len());
        lemma_positions_cover(files@, files@.len());
        lemma_chain_smalls(files@);
        lemma_bigs_and_smalls(files@);
        key_order_is_total(largest_first(files@));
        big_picks@.lemma_sort_by_ensures(key_order(largest_first(files@)));
        lemma_same_len(big_picks@, big_picks@.sort_by(key_order(largest_first(files@))));
    }
    if big_picks.len() == 0 {
        return Err(PlanError::NoBigs { smalls: small_picks.len() });
    }
    let bigs: Vec<usize> = pick_bigs(&files, big_picks);
    let smalls: Vec<usize> = pick_by_identity(&files, small_picks);
    let ghost big_files = bigs_of(files@);
    let ghost small_files = chain_smalls_of(files@);
    let n: usize = bigs.len();
    let buckets: Vec<Vec<usize>> = deal(&files, &smalls, n);
    let mut order: Vec<usize> = Vec::new();
    let mut segments: Vec<Segment> = Vec::new();
    let mut links_sum: usize = 0;
    let mut deepest: usize = 0;
    let mut cd_offset: u64 = 0;
    assert(picked(files@, order@) =~= chain_order(big_files, small_files, 0));
    for k in 0..n
        invariant
            files@.len() <= usize::MAX,
            n == bigs@.len(),
            n == big_files.len(),
            big_files == bigs_of(files@),
            small_files == chain_smalls_of(files@),
            big_files == picked(files@, bigs@),
            picks_in_range(bigs@, files@),
            buckets@.len() == n,
            forall|k: int|
                0 <= k < n ==> picks_in_range(#[trigger] buckets@[k]@, files@) && picked(
                    files@,
                    buckets@[k]@,
                ) == segment_smalls(big_files, small_files, k),
            total_span(files@) <= u64::MAX,
            2 * files@.len() <= usize::MAX,
            picks_in_range(order@, files@),
            picked(files@, order@) == chain_order(big_files, small_files, k as nat),
            cd_offset == total_span(chain_order(big_files, small_files, k as nat)),
            segments@.len() == k,
            forall|j: int|
                0 <= j < k ==> #[trigger] segments@[j]@ == segment_model(
                    big_files,
                    small_files,
                    j,
                ),
            links_sum == links_total(big_files, small_files, k as nat),
            deepest == deepest_chain(big_files, small_files, k as nat),
    {
        let bucket: &Vec<usize> = &buckets[k];
        let anchor: usize = bigs[k];
        let big: &SourceFile = &files[anchor];
        let ghost own = segment_smalls(big_files, small_files, k as int);
        proof {
            lemma_span_bounds(files@, (k + 1) as nat);
            lemma_order_span(big_files, small_files, (k + 1) as nat);
            lemma_chain_counts(files@, (k + 1) as nat);
            assert(picks_in_range(buckets@[k as int]@, files@));
            assert(picked(files@, bucket@) == own);
            assert(big_files[k as int] == big);
            if k + 1 < n {
                assert(big_files[k + 1] == files@[bigs@[k + 1] as int]);
            }
        }
        let next_big: Option<usize> = if k + 1 < n {
            Some(bigs[k + 1])
        } else {
            None
        };
        let header: u64 = local_header_len(big.name.as_str());
        let small_span: u64 = sum_spans(&files, bucket);
        let next_header: u64 = match next_big {
            Some(next) => local_header_len(files[next].name.as_str()),
            None => 0,
        };
        let object_len: u64 = (if k == 0 {
            header
        } else {
            0
        }) + big.size + small_span + next_header;
        let pieces: Vec<Piece> = pieces_of(&files, bucket, next_big);
        let links: Vec<Link> = links_of(&files, anchor, k == 0, &pieces);
        links_sum = links_sum + links.len();
        if links.len() > deepest {
            deepest = links.len();
        }
        segments.push(Segment { anchor: big.id, index: k, links, object_len });
        cd_offset = cd_offset + header + big.size + small_span;
        let ghost before = order@;
        order.push(anchor);
        let mut own_picks: Vec<usize> = bucket.clone();
        assert(own_picks@ =~= bucket@);
        order.append(&mut own_picks);
        proof {
            assert(picked(files@, order@) =~= picked(files@, before).push(*big) + own);
            assert(segments@[k as int]@ =~= segment_model(big_files, small_files, k as int));
        }
    }
    let ghost all = chain_order(big_files, small_files, big_files.len());
    proof {
        every_file_is_chained_once(files@);
        lemma_distinct_permuted(files@, all);
        lemma_total_span_permuted(all, files@);
        lemma_run_span_is_total(all);
        assert(segment_models(segments@) =~= Seq::new(
            big_files.len(),
            |k: int| segment_model(big_files, small_files, k),
        ));
    }
    let (entries, cd_size): (HashMap<u32, Entry>, u64) = entries_in_order(&files, &order);
    let ids: Vec<FileId> = ids_in_order(&files, &order);
    let crc_heads: Vec<FileId> = ids_in_order(&files, &order);
    let stats: ChainStats = ChainStats {
        entries: order.len(),
        segments: n,
        bigs: n,
        smalls: smalls.len(),
        links: links_sum,
        max_chain_depth: deepest,
    };
    proof {
        assert(ids@ =~= Seq::new(all.len(), |i: int| all[i].id));
        assert(crc_heads@ =~= ids@);
        assert(small_files.len() == smalls@.len());
    }
    Ok(ChainPlan { order: ids, entries, segments, cd_offset, cd_size, crc_heads, stats })
}

proof fn lemma_same_len(a: Seq<usize>, b: Seq<usize>)
    requires
        a.to_multiset() == b.to_multiset(),
    ensures
        a.len() == b.len(),
{
    broadcast use group_to_multiset_ensures;

    assert(a.to_multiset().len() == a.len());
    assert(b.to_multiset().len() == b.len());
}

/// The bytes of a piece.
pub open spec fn piece_bytes(
    files: Seq<SourceFile>,
    contents: Contents,
    piece: Piece,
) -> Seq<u8> {
    match piece {
        Piece::Header(id) => header_bytes(file_of(files, id), contents),
        Piece::Body(id) => (contents.body)(id),
    }
}

/// The first part of a link's upload, where `prev` is the object that the link before it
/// made.
pub open spec fn first_part(
    files: Seq<SourceFile>,
    contents: Contents,
    prev: Seq<u8>,
    link: Link,
) -> Seq<u8> {
    match link {
        Link::Bootstrap { anchor, steal_len } => header_bytes(file_of(files, anchor), contents) + (
        contents.body)(anchor).take(steal_len as int),
        Link::AnchorOnly { anchor } => (contents.body)(anchor),
        Link::AnchorThenAppend { anchor, .. } => (contents.body)(anchor),
        Link::ForwardThenAppend { .. } => prev,
    }
}

/// The last part of a link's upload.
pub open spec fn last_part(files: Seq<SourceFile>, contents: Contents, link: Link) -> Seq<u8> {
    match link {
        Link::Bootstrap { anchor, steal_len } => (contents.body)(anchor).skip(steal_len as int),
        Link::AnchorOnly { .. } => Seq::empty(),
        Link::AnchorThenAppend { piece, .. } => piece_bytes(files, contents, piece),
        Link::ForwardThenAppend { piece } => piece_bytes(files, contents, piece),
    }
}

/// The object that a chain of links makes.
pub open spec fn object_bytes(
    files: Seq<SourceFile>,
    contents: Contents,
    links: Seq<Link>,
) -> Seq<u8>
    decreases links.len(),
{
    if links.len() == 0 {
        Seq::empty()
    } else {
        first_part(
            files,
            contents,
            object_bytes(files, contents, links.drop_last()),
            links.last(),
        ) + last_part(files, contents, links.last())
    }
}

/// The objects of the first `k` segments, stitched together.
pub open spec fn stitched_bytes(
    files: Seq<SourceFile>,
    contents: Contents,
    bigs: Seq<SourceFile>,
    smalls: Seq<SourceFile>,
    k: nat,
) -> Seq<u8>
    decreases k,
{
    if k == 0 {
        Seq::empty()
    } else {
        stitched_bytes(files, contents, bigs, smalls, (k - 1) as nat) + object_bytes(
            files,
            contents,
            segment_links(bigs, smalls, k - 1),
        )
    }
}

/// The entries of the files, one behind the other.
pub open spec fn entries_bytes(order: Seq<SourceFile>, contents: Contents) -> Seq<u8>
    decreases order.len(),
{
    if order.len() == 0 {
        Seq::empty()
    } else {
        entries_bytes(order.drop_last(), contents) + entry_bytes(order.last(), contents)
    }
}

spec fn pieces_bytes(files: Seq<SourceFile>, contents: Contents, pieces: Seq<Piece>) -> Seq<u8>
    decreases pieces.len(),
{
    if pieces.len() == 0 {
        Seq::empty()
    } else {
        pieces_bytes(files, contents, pieces.drop_last()) + piece_bytes(
            files,
            contents,
            pieces.last(),
        )
    }
}

proof fn lemma_entries_bytes_concat(a: Seq<SourceFile>, b: Seq<SourceFile>, contents: Contents)
    ensures
        entries_bytes(a + b, contents) == entries_bytes(a, contents) + entries_bytes(b, contents),
    decreases b.len(),
{
    if b.len() == 0 {
        assert(a + b =~= a);
        assert(entries_bytes(a, contents) + Seq::<u8>::empty() =~= entries_bytes(a, contents));
    } else {
        lemma_entries_bytes_concat(a, b.drop_last(), contents);
        assert((a + b).drop_last() =~= a + b.drop_last());
        assert(entries_bytes(a + b, contents) =~= entries_bytes(a, contents) + entries_bytes(
            b,
            contents,
        ));
    }
}

proof fn lemma_entries_bytes_len(order: Seq<SourceFile>, contents: Contents)
    requires
        contents_match(order, contents),
    ensures
        entries_bytes(order, contents).len() == total_span(order),
    decreases order.len(),
{
    if order.len() > 0 {
        let f = order.last();
        assert(order[order.len() - 1] == f);
        assert((contents.body)(order[order.len() - 1].id).len() == f.size);
        let rest = order.drop_last();
        assert forall|i: int| 0 <= i < rest.len() implies #[trigger] (contents.body)(
            rest[i].id,
        ).len() == rest[i].size by {
            assert((contents.body)(order[i].id).len() == order[i].size);
        }
        lemma_entries_bytes_len(rest, contents);
        local_header_length(f.name_bytes(), f.size, (contents.crc)(f.id));
    }
}

proof fn lemma_small_pieces_bytes(
    files: Seq<SourceFile>,
    contents: Contents,
    smalls: Seq<SourceFile>,
)
    requires
        distinct_ids(files),
        drawn_from(smalls, files),
    ensures
        pieces_bytes(files, contents, small_pieces(smalls)) == entries_bytes(smalls, contents),
    decreases smalls.len(),
{
    if smalls.len() > 0 {
        let rest = smalls.drop_last();
        let f = smalls.last();
        assert forall|i: int| 0 <= i < rest.len() implies #[trigger] files.contains(rest[i]) by {
            assert(files.contains(smalls[i]));
        }
        lemma_small_pieces_bytes(files, contents, rest);
        assert(files.contains(smalls[smalls.len() - 1]));
        let p = choose|p: int| 0 <= p < files.len() && files[p] == f;
        lemma_file_of(files, p);
        let headed = small_pieces(rest).push(Piece::Header(f.id));
        let whole = headed.push(Piece::Body(f.id));
        assert(headed.drop_last() =~= small_pieces(rest));
        assert(whole.drop_last() =~= headed);
        assert(pieces_bytes(files, contents, headed) == pieces_bytes(
            files,
            contents,
            small_pieces(rest),
        ) + header_bytes(f, contents));
        assert(pieces_bytes(files, contents, whole) == pieces_bytes(files, contents, headed) + (
        contents.body)(f.id));
        assert(pieces_bytes(files, contents, whole) =~= entries_bytes(rest, contents)
            + entry_bytes(f, contents));
    }
}

/// Appending link by link appends the pieces, and every part that is not the last of its
/// upload reaches the floor.
proof fn lemma_appended_bytes(
    files: Seq<SourceFile>,
    contents: Contents,
    head: Seq<Link>,
    pieces: Seq<Piece>,
)
    requires
        object_bytes(files, contents, head).len() >= PART_FLOOR,
    ensures
        object_bytes(files, contents, head + append_links(pieces)) == object_bytes(
            files,
            contents,
            head,
        ) + pieces_bytes(files, contents, pieces),
        forall|i: int|
            head.len() <= i < head.len() + pieces.len() ==> object_bytes(
                files,
                contents,
                #[trigger] (head + append_links(pieces)).take(i),
            ).len() >= PART_FLOOR,
    decreases pieces.len(),
{
    let links = head + append_links(pieces);
    if pieces.len() == 0 {
        assert(links =~= head);
        assert(object_bytes(files, contents, head) + Seq::<u8>::empty() =~= object_bytes(
            files,
            contents,
            head,
        ));
    } else {
        let rest = pieces.drop_last();
        lemma_appended_bytes(files, contents, head, rest);
        let shorter = head + append_links(rest);
        assert(links.drop_last() =~= shorter);
        assert(object_bytes(files, contents, links) =~= object_bytes(files, contents, head)
            + pieces_bytes(files, contents, pieces));
        assert forall|i: int| head.len() <= i < head.len() + pieces.len() implies object_bytes(
            files,
            contents,
            #[trigger] links.take(i),
        ).len() >= PART_FLOOR by {
            if i < head.len() + rest.len() {
                assert(links.take(i) =~= shorter.take(i));
                assert(object_bytes(files, contents, shorter.take(i)).len() >= PART_FLOOR);
            } else {
                assert(links.take(i) =~= shorter);
            }
        }
    }
}

/// The object of segment `k`: its big, for the first segment with its header, the entries
/// of its smalls, and the header of the next segment's big. Every part of its chain that is
/// not the last of its upload reaches the floor.
proof fn lemma_segment_bytes(
    files: Seq<SourceFile>,
    contents: Contents,
    bigs: Seq<SourceFile>,
    smalls: Seq<SourceFile>,
    k: int,
)
    requires
        distinct_ids(files),
        contents_match(files, contents),
        drawn_from(bigs, files),
        drawn_from(segment_smalls(bigs, smalls, k), files),
        forall|i: int| 0 <= i < bigs.len() ==> #[trigger] bigs[i].is_big(),
        0 <= k < bigs.len(),
    ensures
        object_bytes(files, contents, segment_links(bigs, smalls, k)) == (if k == 0 {
            header_bytes(bigs[0], contents)
        } else {
            Seq::<u8>::empty()
        }) + (contents.body)(bigs[k].id) + entries_bytes(segment_smalls(bigs, smalls, k), contents)
            + (if k + 1 < bigs.len() {
            header_bytes(bigs[k + 1], contents)
        } else {
            Seq::<u8>::empty()
        }),
        forall|i: int|
            0 <= i < segment_links(bigs, smalls, k).len() ==> first_part(
                files,
                contents,
                object_bytes(files, contents, #[trigger] segment_links(bigs, smalls, k).take(i)),
                segment_links(bigs, smalls, k)[i],
            ).len() >= PART_FLOOR,
{
    let own = segment_smalls(bigs, smalls, k);
    let pieces = segment_pieces(bigs, smalls, k);
    let links = segment_links(bigs, smalls, k);
    let big = bigs[k];
    let body = (contents.body)(big.id);
    let header = header_bytes(big, contents);
    lemma_small_pieces_bytes(files, contents, own);
    assert(files.contains(bigs[k]));
    let p = choose|p: int| 0 <= p < files.len() && files[p] == big;
    lemma_file_of(files, p);
    assert((contents.body)(files[p].id).len() == big.size);
    assert(bigs[k].is_big());
    local_header_length(big.name_bytes(), big.size, (contents.crc)(big.id));
    let own_bytes = entries_bytes(own, contents);
    let tail = if k + 1 < bigs.len() {
        header_bytes(bigs[k + 1], contents)
    } else {
        Seq::<u8>::empty()
    };
    assert(pieces_bytes(files, contents, pieces) =~= own_bytes + tail) by {
        if k + 1 < bigs.len() {
            assert(files.contains(bigs[k + 1]));
            let q = choose|q: int| 0 <= q < files.len() && files[q] == bigs[k + 1];
            lemma_file_of(files, q);
            assert(pieces.drop_last() =~= small_pieces(own));
        }
    }
    if k == 0 {
        let steal = bootstrap_len(big);
        let head = seq![Link::Bootstrap { anchor: big.id, steal_len: steal }];
        assert(head.drop_last() =~= Seq::empty());
        assert(object_bytes(files, contents, head) == header + body.take(steal as int) + body.skip(
            steal as int,
        ));
        assert(body.take(steal as int) + body.skip(steal as int) =~= body);
        assert(object_bytes(files, contents, head) =~= header + body);
        lemma_appended_bytes(files, contents, head, pieces);
        assert(links == head + append_links(pieces));
        assert(object_bytes(files, contents, links) =~= header + body + own_bytes + tail);
        assert forall|i: int| 0 <= i < links.len() implies first_part(
            files,
            contents,
            object_bytes(files, contents, #[trigger] links.take(i)),
            links[i],
        ).len() >= PART_FLOOR by {
            if i >= 1 {
                assert(links[i] is ForwardThenAppend);
            }
        }
    } else if pieces.len() == 0 {
        assert(links.drop_last() =~= Seq::empty());
        assert(own_bytes + tail =~= Seq::<u8>::empty());
        assert(own_bytes.len() + tail.len() == 0);
        assert(object_bytes(files, contents, links) =~= body);
        assert(object_bytes(files, contents, links) =~= Seq::<u8>::empty() + body + own_bytes
            + tail);
    } else {
        let head = seq![Link::AnchorThenAppend { anchor: big.id, piece: pieces[0] }];
        assert(head.drop_last() =~= Seq::empty());
        let first_piece = piece_bytes(files, contents, pieces[0]);
        assert(object_bytes(files, contents, head) == body + first_piece);
        lemma_appended_bytes(files, contents, head, pieces.drop_first());
        lemma_pieces_bytes_first(files, contents, pieces);
        assert(links == head + append_links(pieces.drop_first()));
        let rest_bytes = pieces_bytes(files, contents, pieces.drop_first());
        assert(object_bytes(files, contents, links) == (body + first_piece) + rest_bytes);
        assert((body + first_piece) + rest_bytes =~= body + (first_piece + rest_bytes));
        assert(first_piece + rest_bytes == own_bytes + tail);
        assert(body + (own_bytes + tail) =~= Seq::<u8>::empty() + body + own_bytes + tail);
        assert forall|i: int| 0 <= i < links.len() implies first_part(
            files,
            contents,
            object_bytes(files, contents, #[trigger] links.take(i)),
            links[i],
        ).len() >= PART_FLOOR by {
            if i >= 1 {
                assert(links[i] is ForwardThenAppend);
            }
        }
    }
}

proof fn lemma_pieces_bytes_first(files: Seq<SourceFile>, contents: Contents, pieces: Seq<Piece>)
    requires
        pieces.len() > 0,
    ensures
        pieces_bytes(files, contents, pieces) == piece_bytes(files, contents, pieces[0])
            + pieces_bytes(files, contents, pieces.drop_first()),
    decreases pieces.len(),
{
    if pieces.len() == 1 {
        assert(pieces.drop_last() =~= Seq::empty());
        assert(pieces.drop_first() =~= Seq::empty());
        assert(pieces_bytes(files, contents, pieces) =~= piece_bytes(files, contents, pieces[0])
            + pieces_bytes(files, contents, pieces.drop_first()));
    } else {
        lemma_pieces_bytes_first(files, contents, pieces.drop_last());
        assert(pieces.drop_last().drop_first() =~= pieces.drop_first().drop_last());
        assert(pieces_bytes(files, contents, pieces) =~= piece_bytes(files, contents, pieces[0])
            + pieces_bytes(files, contents, pieces.drop_first()));
    }
}

proof fn lemma_dealt_drawn(
    smalls: Seq<SourceFile>,
    files: Seq<SourceFile>,
    n: nat,
    k: int,
    m: nat,
)
    requires
        drawn_from(smalls, files),
        m <= smalls.len(),
    ensures
        drawn_from(dealt(smalls, n, k, m), files),
    decreases m,
{
    if m > 0 {
        lemma_dealt_drawn(smalls, files, n, k, (m - 1) as nat);
        assert(files.contains(smalls[m - 1]));
    }
}

proof fn lemma_stitched_bytes(
    files: Seq<SourceFile>,
    contents: Contents,
    bigs: Seq<SourceFile>,
    smalls: Seq<SourceFile>,
    k: nat,
)
    requires
        distinct_ids(files),
        contents_match(files, contents),
        drawn_from(bigs, files),
        drawn_from(smalls, files),
        forall|i: int| 0 <= i < bigs.len() ==> #[trigger] bigs[i].is_big(),
        k <= bigs.len(),
    ensures
        stitched_bytes(files, contents, bigs, smalls, k) == entries_bytes(
            chain_order(bigs, smalls, k),
            contents,
        ) + (if 0 < k < bigs.len() {
            header_bytes(bigs[k as int], contents)
        } else {
            Seq::<u8>::empty()
        }),
    decreases k,
{
    if k == 0 {
        assert(stitched_bytes(files, contents, bigs, smalls, k) =~= entries_bytes(
            chain_order(bigs, smalls, k),
            contents,
        ) + Seq::<u8>::empty());
    } else {
        let j = (k - 1) as nat;
        lemma_stitched_bytes(files, contents, bigs, smalls, j);
        let own = segment_smalls(bigs, smalls, j as int);
        lemma_dealt_drawn(smalls, files, bigs.len(), j as int, smalls.len());
        lemma_segment_bytes(files, contents, bigs, smalls, j as int);
        let before = chain_order(bigs, smalls, j);
        lemma_entries_bytes_concat(before.push(bigs[j as int]), own, contents);
        assert(before.push(bigs[j as int]).drop_last() =~= before);
        assert(entries_bytes(before.push(bigs[j as int]), contents) == entries_bytes(
            before,
            contents,
        ) + entry_bytes(bigs[j as int], contents));
        let tail = if 0 < k < bigs.len() {
            header_bytes(bigs[k as int], contents)
        } else {
            Seq::<u8>::empty()
        };
        assert(stitched_bytes(files, contents, bigs, smalls, k) =~= entries_bytes(
            chain_order(bigs, smalls, k),
            contents,
        ) + tail);
    }
}

/// The segments' objects, stitched together in their order, are the entries in theirs, each
/// a local header followed by the whole content. In every upload of every chain, the part
/// that is not the last reaches S3's floor.
pub proof fn chains_make_the_archive(files: Seq<SourceFile>, contents: Contents)
    requires
        files.len() <= usize::MAX,
        distinct_ids(files),
        contents_match(files, contents),
        bigs_of(files).len() > 0,
    ensures
        ({
            let bigs = bigs_of(files);
            let smalls = chain_smalls_of(files);
            &&& stitched_bytes(files, contents, bigs, smalls, bigs.len()) == entries_bytes(
                chain_order(bigs, smalls, bigs.len()),
                contents,
            )
            &&& forall|k: int, i: int|
                0 <= k < bigs.len() && 0 <= i < segment_links(bigs, smalls, k).len()
                    ==> first_part(
                    files,
                    contents,
                    object_bytes(
                        files,
                        contents,
                        #[trigger] segment_links(bigs, smalls, k).take(i),
                    ),
                    segment_links(bigs, smalls, k)[i],
                ).len() >= PART_FLOOR
        }),
{
    broadcast use group_to_multiset_ensures;

    let bigs = bigs_of(files);
    let smalls = chain_smalls_of(files);
    lemma_bigs_and_smalls(files);
    lemma_chain_smalls(files);
    let all = bigs.to_multiset().add(smalls.to_multiset());
    assert forall|i: int| 0 <= i < bigs.len() implies #[trigger] files.contains(bigs[i]) by {
        assert(bigs.contains(bigs[i]));
        assert(bigs.to_multiset().count(bigs[i]) > 0);
        assert(all.count(bigs[i]) > 0);
    }
    assert forall|i: int| 0 <= i < smalls.len() implies #[trigger] files.contains(smalls[i]) by {
        assert(smalls.contains(smalls[i]));
        assert(smalls.to_multiset().count(smalls[i]) > 0);
        assert(all.count(smalls[i]) > 0);
    }
    lemma_stitched_bytes(files, contents, bigs, smalls, bigs.len());
    let order_bytes = entries_bytes(chain_order(bigs, smalls, bigs.len()), contents);
    assert(order_bytes + Seq::<u8>::empty() =~= order_bytes);
    assert forall|k: int, i: int|
        0 <= k < bigs.len() && 0 <= i < segment_links(bigs, smalls, k).len() implies first_part(
        files,
        contents,
        object_bytes(files, contents, #[trigger] segment_links(bigs, smalls, k).take(i)),
        segment_links(bigs, smalls, k)[i],
    ).len() >= PART_FLOOR by {
        lemma_dealt_drawn(smalls, files, bigs.len(), k, smalls.len());
        lemma_segment_bytes(files, contents, bigs, smalls, k);
    }
}

/// A segment's object is as long as the plan says.
pub proof fn objects_have_the_planned_length(
    files: Seq<SourceFile>,
    contents: Contents,
    bigs: Seq<SourceFile>,
    smalls: Seq<SourceFile>,
    k: int,
)
    requires
        distinct_ids(files),
        contents_match(files, contents),
        drawn_from(bigs, files),
        drawn_from(smalls, files),
        forall|i: int| 0 <= i < bigs.len() ==> #[trigger] bigs[i].is_big(),
        0 <= k < bigs.len(),
    ensures
        object_bytes(files, contents, segment_links(bigs, smalls, k)).len() == segment_len(
            bigs,
            smalls,
            k,
        ),
{
    let own = segment_smalls(bigs, smalls, k);
    lemma_dealt_drawn(smalls, files, bigs.len(), k, smalls.len());
    lemma_segment_bytes(files, contents, bigs, smalls, k);
    assert forall|i: int| 0 <= i < own.len() implies #[trigger] (contents.body)(own[i].id).len()
        == own[i].size by {
        assert(files.contains(own[i]));
        let p = choose|p: int| 0 <= p < files.len() && files[p] == own[i];
        assert((contents.body)(files[p].id).len() == files[p].size);
    }
    lemma_entries_bytes_len(own, contents);
    let big = bigs[k];
    assert(files.contains(bigs[k]));
    let p = choose|p: int| 0 <= p < files.len() && files[p] == big;
    assert((contents.body)(files[p].id).len() == big.size);
    local_header_length(big.name_bytes(), big.size, (contents.crc)(big.id));
    if k + 1 < bigs.len() {
        let next = bigs[k + 1];
        local_header_length(next.name_bytes(), next.size, (contents.crc)(next.id));
    }
}

/// Only the very first link reads a content: the first link of the first segment is a
/// bootstrap, and no other link is one.
pub proof fn one_bootstrap(bigs: Seq<SourceFile>, smalls: Seq<SourceFile>, k: int, i: int)
    requires
        0 <= k < bigs.len(),
        0 <= i < segment_links(bigs, smalls, k).len(),
    ensures
        segment_links(bigs, smalls, k)[i] is Bootstrap <==> k == 0 && i == 0,
{
}

/// The last segment ends with the content of its last entry: it carries no header but those
/// of its own smalls.
pub proof fn last_segment_has_own_pieces(bigs: Seq<SourceFile>, smalls: Seq<SourceFile>)
    requires
        bigs.len() > 0,
    ensures
        segment_pieces(bigs, smalls, bigs.len() - 1) == small_pieces(
            segment_smalls(bigs, smalls, bigs.len() - 1),
        ),
{
}

/// The first part of the archive is exactly 5 MiB: the header of the first big and as much of
/// its content as is missing; the big has that much.
pub proof fn bootstrap_fills_a_part(big: SourceFile)
    requires
        big.size >= 5 * 1024 * 1024,
        0 < big.header_span() < 5 * 1024 * 1024,
    ensures
        big.header_span() + bootstrap_len(big) == 5 * 1024 * 1024,
        0 < bootstrap_len(big) < big.size,
{
}

} // verus!
