//! Planning of the archive as one multipart upload.
//!
//! From the sizes in the listing alone the planner fixes the order of the entries, the
//! parts with their numbers, and every offset. A file of at least `PART_FLOOR` bytes is a
//! big: its content is copied inside S3 as a part of its own. The others are smalls: they
//! are streamed, batched so that each part but the last reaches the floor. A big's local
//! header ends the stream part before it, and where a batch falls short, the first bytes
//! of the big are streamed after the header and the copy starts behind them.

use crate::sorting::{
    key_order, key_order_is_total, lemma_picked_permuted, lemma_weight_sum_permuted, picked,
    sort_picks, weight_sum,
};
use crate::zip_format::{
    entry_span, entry_total_len, local_header_bytes, local_header_len, local_header_length,
    local_header_span,
};
use std::collections::HashMap;
use vstd::prelude::*;
use vstd::seq_lib::group_to_multiset_ensures;
use vstd::utf8::encode_utf8;

verus! {

/// S3's lower limit for every part of a multipart upload but the last (5 MiB).
pub const PART_FLOOR: u64 = 5_242_880;

/// The least total size for which parts are worth copying.
pub const VIABILITY_MIN_TOTAL: u64 = 4 * PART_FLOOR;

/// Identity of a file, whatever its place in a collection.
#[derive(Debug, Clone, Copy, PartialEq, Eq, Hash, Structural)]
pub struct FileId(pub u32);

/// An object of the listing: all that the planner knows of a file.
#[derive(Debug, Clone)]
pub struct SourceFile {
    pub id: FileId,
    pub key: String,
    /// Name of the entry in the archive: the key without its prefix.
    pub name: String,
    pub size: u64,
}

/// One entry of the archive. The planner fixes everything but the checksum, which is
/// filled in once it is known.
#[derive(Debug, Clone)]
pub struct Entry {
    pub id: FileId,
    pub name: String,
    pub size: u64,
    pub local_header_offset: u64,
    pub crc: Option<u32>,
    /// Whether the content is streamed, its header with it, and not copied inside S3.
    pub streamed: bool,
}

/// A piece of a stream part.
#[derive(Debug, Clone, Copy, PartialEq, Eq, Structural)]
pub enum Segment {
    /// A whole entry: local header and content.
    StreamedFile { id: FileId },
    /// The local header of a file whose content is copied.
    CopiedFileHeader { id: FileId },
    /// The first `len` bytes of a big's content, right after its header.
    StreamedBigPrefix { id: FileId, len: u64 },
    /// The central directory and the end records: the last segment of the last part.
    CentralDirectory,
}

/// One part of the upload.
#[derive(Debug, Clone)]
pub enum PartSpec {
    /// A big's content from byte `copy_from` to its end, copied inside S3.
    Copy { part_number: u32, id: FileId, copy_from: u64 },
    /// Bytes that are put together and uploaded.
    Stream { part_number: u32, segments: Vec<Segment> },
}

/// The plan of the upload. The parts stand in the order of their numbers.
#[derive(Debug, Clone)]
pub struct SinglePlan {
    /// The entries in the order in which they stand in the archive.
    pub order: Vec<FileId>,
    /// Each entry, by the number of its file.
    pub entries: HashMap<u32, Entry>,
    pub parts: Vec<PartSpec>,
    /// The bigs whose content is copied.
    pub copyable: Vec<FileId>,
    pub stats: PlanStats,
}

/// What the planner decided, in numbers.
#[derive(Debug, Clone, Copy, PartialEq, Eq, Structural)]
pub struct PlanStats {
    pub entries: usize,
    pub parts: usize,
    /// Parts copied inside S3.
    pub copy_parts: usize,
    /// Parts streamed.
    pub stream_parts: usize,
    /// Bigs streamed whole.
    pub folded_bigs: usize,
    /// Bigs copied behind a streamed prefix.
    pub stolen_bigs: usize,
    pub bigs: usize,
    pub smalls: usize,
}

/// Whether the archive is built from copied parts, or streamed as a whole.
#[derive(Debug, Clone)]
pub enum SingleRouting {
    SingleMpu(SinglePlan),
    Fallback,
}

impl SourceFile {
    /// The entry's name as it stands in the archive.
    pub open spec fn name_bytes(&self) -> Seq<u8> {
        encode_utf8(self.name@)
    }

    /// Length of the entry's local header.
    pub open spec fn header_span(&self) -> nat {
        local_header_span(self.name_bytes())
    }

    /// Length of the entry: local header and content.
    pub open spec fn span(&self) -> nat {
        entry_span(self.name_bytes(), self.size)
    }

    /// Whether the content is large enough to be a part of its own.
    pub open spec fn is_big(&self) -> bool {
        self.size >= PART_FLOOR
    }
}

/// `PartSpec` with its segments as a sequence.
#[verifier::ext_equal]
pub enum PartModel {
    Copy { part_number: u32, id: FileId, copy_from: u64 },
    Stream { part_number: u32, segments: Seq<Segment> },
}

impl View for PartSpec {
    type V = PartModel;

    open spec fn view(&self) -> PartModel {
        match *self {
            PartSpec::Copy { part_number, id, copy_from } => PartModel::Copy {
                part_number,
                id,
                copy_from,
            },
            PartSpec::Stream { part_number, segments } => PartModel::Stream {
                part_number,
                segments: segments@,
            },
        }
    }
}

/// The parts of a plan, each with its segments as a sequence.
pub open spec fn part_models(parts: Seq<PartSpec>) -> Seq<PartModel> {
    Seq::new(parts.len(), |i: int| parts[i]@)
}

/// No two files share an identity.
pub open spec fn distinct_ids(files: Seq<SourceFile>) -> bool {
    forall|i: int, j: int|
        0 <= i < files.len() && 0 <= j < files.len() && #[trigger] files[i].id
            == #[trigger] files[j].id ==> i == j
}

/// Sum of the files' sizes.
pub open spec fn total_size(files: Seq<SourceFile>) -> nat
    decreases files.len(),
{
    if files.len() == 0 {
        0
    } else {
        total_size(files.drop_last()) + files.last().size as nat
    }
}

/// Sum of the lengths of the files' entries.
pub open spec fn total_span(files: Seq<SourceFile>) -> nat
    decreases files.len(),
{
    if files.len() == 0 {
        0
    } else {
        total_span(files.drop_last()) + files.last().span()
    }
}

/// The positions of the bigs, or of the smalls, among the first `n` files.
pub open spec fn positions(files: Seq<SourceFile>, big: bool, n: nat) -> Seq<usize>
    decreases n,
{
    if n == 0 {
        Seq::empty()
    } else if files[n - 1].is_big() == big {
        positions(files, big, (n - 1) as nat).push((n - 1) as usize)
    } else {
        positions(files, big, (n - 1) as nat)
    }
}

/// Keys that put the largest file first, and of two equal sizes the lower identity.
pub open spec fn largest_first(files: Seq<SourceFile>) -> Seq<(u64, u64)> {
    Seq::new(files.len(), |i: int| ((u64::MAX - files[i].size) as u64, files[i].id.0 as u64))
}

/// Keys that put the smallest file first, and of two equal sizes the lower identity.
pub open spec fn smallest_first(files: Seq<SourceFile>) -> Seq<(u64, u64)> {
    Seq::new(files.len(), |i: int| (files[i].size, files[i].id.0 as u64))
}

/// The bigs, largest first: a big that must be streamed whole is then one of the smallest.
pub open spec fn bigs_of(files: Seq<SourceFile>) -> Seq<SourceFile> {
    picked(files, positions(files, true, files.len()).sort_by(key_order(largest_first(files))))
}

/// The smalls, smallest first: they then meet the bigs that can spare the most.
pub open spec fn smalls_of(files: Seq<SourceFile>) -> Seq<SourceFile> {
    picked(files, positions(files, false, files.len()).sort_by(key_order(smallest_first(files))))
}

/// Whether the archive can be built from copied parts at all, and is large enough for it.
pub open spec fn viable(files: Seq<SourceFile>) -> bool {
    &&& exists|i: int| 0 <= i < files.len() && #[trigger] files[i].is_big()
    &&& total_size(files) >= VIABILITY_MIN_TOTAL
}

/// Length of the entries of the files from `i` up to `j`.
pub open spec fn run_span(files: Seq<SourceFile>, i: int, j: int) -> nat
    decreases j - i,
{
    if j <= i {
        0
    } else {
        run_span(files, i, j - 1) + files[j - 1].span()
    }
}

/// Length of a stream part that holds the smalls from `i` up to `j` and the big's header.
pub open spec fn chaperone_span(
    big: SourceFile,
    smalls: Seq<SourceFile>,
    i: int,
    j: int,
) -> nat {
    run_span(smalls, i, j) + big.header_span()
}

/// What a big can spare of its content and still be copied as a part.
pub open spec fn max_steal(big: SourceFile) -> int {
    big.size - PART_FLOOR
}

/// Whether the smalls from `i` up to `j` are the batch that goes before the big: the part
/// reaches the floor, or the big can spare what is missing and a small that was at hand
/// has been used first, or no small is left.
pub open spec fn batch_suffices(
    big: SourceFile,
    smalls: Seq<SourceFile>,
    i: int,
    j: int,
) -> bool {
    ||| chaperone_span(big, smalls, i, j) >= PART_FLOOR
    ||| PART_FLOOR - chaperone_span(big, smalls, i, j) <= max_steal(big) && j > i
    ||| j >= smalls.len()
}

/// The end of the batch that starts at small `i`, of which the smalls up to `j` are taken:
/// the first position at which the batch suffices.
pub open spec fn batch_end(big: SourceFile, smalls: Seq<SourceFile>, i: int, j: int) -> int
    decreases smalls.len() - j,
{
    if batch_suffices(big, smalls, i, j) {
        j
    } else {
        batch_end(big, smalls, i, j + 1)
    }
}

/// How much of the big's content is streamed to lift the part over the floor.
pub open spec fn stolen_prefix(big: SourceFile, smalls: Seq<SourceFile>, i: int, j: int) -> int {
    let span = chaperone_span(big, smalls, i, j);
    if span >= PART_FLOOR {
        0
    } else if PART_FLOOR - span <= max_steal(big) {
        PART_FLOOR - span
    } else {
        max_steal(big)
    }
}

/// The smalls from `i` up to `j`, streamed.
pub open spec fn streamed_run(smalls: Seq<SourceFile>, i: int, j: int) -> Seq<Segment> {
    Seq::new((j - i) as nat, |t: int| Segment::StreamedFile { id: smalls[i + t].id })
}

/// The plan after some of the bigs.
#[verifier::ext_equal]
pub struct Layout {
    /// The entries placed so far, each with whether its content is streamed.
    pub placed: Seq<(SourceFile, bool)>,
    pub parts: Seq<PartModel>,
    /// How many smalls have been placed.
    pub taken: int,
    /// The bigs that are copied.
    pub copyable: Seq<FileId>,
    /// How many bigs are streamed whole.
    pub folded: nat,
    /// How many bigs are copied behind a streamed prefix.
    pub stolen: nat,
}

/// The smalls from `i` up to `j` as placed entries.
pub open spec fn placed_run(smalls: Seq<SourceFile>, i: int, j: int) -> Seq<(SourceFile, bool)> {
    Seq::new((j - i) as nat, |t: int| (smalls[i + t], true))
}

/// The number of the part that comes next.
pub open spec fn next_number(parts: Seq<PartModel>) -> u32 {
    (parts.len() + 1) as u32
}

/// The stream part before a copied big, and the copied part.
pub open spec fn copied_big_parts(
    big: SourceFile,
    smalls: Seq<SourceFile>,
    i: int,
    j: int,
    number: nat,
) -> Seq<PartModel> {
    let k = stolen_prefix(big, smalls, i, j);
    let header = streamed_run(smalls, i, j).push(Segment::CopiedFileHeader { id: big.id });
    seq![
        PartModel::Stream {
            part_number: number as u32,
            segments: if k > 0 {
                header.push(Segment::StreamedBigPrefix { id: big.id, len: k as u64 })
            } else {
                header
            },
        },
        PartModel::Copy { part_number: (number + 1) as u32, id: big.id, copy_from: k as u64 },
    ]
}

/// The stream part that holds a whole big.
pub open spec fn folded_big_parts(
    big: SourceFile,
    smalls: Seq<SourceFile>,
    i: int,
    j: int,
    number: nat,
) -> Seq<PartModel> {
    seq![
        PartModel::Stream {
            part_number: number as u32,
            segments: streamed_run(smalls, i, j).push(Segment::StreamedFile { id: big.id }),
        },
    ]
}

/// Places one more big, with the batch of smalls before it.
pub open spec fn place_big_spec(l: Layout, big: SourceFile, smalls: Seq<SourceFile>) -> Layout {
    let i = l.taken;
    let j = batch_end(big, smalls, i, i);
    let k = stolen_prefix(big, smalls, i, j);
    let number = l.parts.len() + 1;
    if chaperone_span(big, smalls, i, j) + k >= PART_FLOOR {
        Layout {
            placed: l.placed + placed_run(smalls, i, j).push((big, false)),
            parts: l.parts + copied_big_parts(big, smalls, i, j, number),
            taken: j,
            copyable: l.copyable.push(big.id),
            folded: l.folded,
            stolen: if k > 0 {
                l.stolen + 1
            } else {
                l.stolen
            },
        }
    } else {
        Layout {
            placed: l.placed + placed_run(smalls, i, j).push((big, true)),
            parts: l.parts + folded_big_parts(big, smalls, i, j, number),
            taken: j,
            copyable: l.copyable,
            folded: l.folded + 1,
            stolen: l.stolen,
        }
    }
}

/// The plan after the first `n` bigs.
pub open spec fn layout_after(bigs: Seq<SourceFile>, smalls: Seq<SourceFile>, n: nat) -> Layout
    decreases n,
{
    if n == 0 {
        Layout {
            placed: Seq::empty(),
            parts: Seq::empty(),
            taken: 0,
            copyable: Seq::empty(),
            folded: 0,
            stolen: 0,
        }
    } else {
        place_big_spec(layout_after(bigs, smalls, (n - 1) as nat), bigs[n - 1], smalls)
    }
}

/// The whole plan: after the bigs, one part with the smalls that are left and the
/// directory.
pub open spec fn full_layout(bigs: Seq<SourceFile>, smalls: Seq<SourceFile>) -> Layout {
    let l = layout_after(bigs, smalls, bigs.len());
    Layout {
        placed: l.placed + placed_run(smalls, l.taken, smalls.len() as int),
        parts: l.parts.push(
            PartModel::Stream {
                part_number: next_number(l.parts),
                segments: streamed_run(smalls, l.taken, smalls.len() as int).push(
                    Segment::CentralDirectory,
                ),
            },
        ),
        taken: smalls.len() as int,
        copyable: l.copyable,
        folded: l.folded,
        stolen: l.stolen,
    }
}

/// Where the `i`-th placed entry starts: behind all the entries before it.
pub open spec fn placed_offset(placed: Seq<(SourceFile, bool)>, i: int) -> nat
    decreases i,
{
    if i <= 0 {
        0
    } else {
        placed_offset(placed, i - 1) + placed[i - 1].0.span()
    }
}

/// The entry of the `i`-th placed file, its checksum still open.
pub open spec fn planned_entry(placed: Seq<(SourceFile, bool)>, i: int) -> Entry {
    Entry {
        id: placed[i].0.id,
        name: placed[i].0.name,
        size: placed[i].0.size,
        local_header_offset: placed_offset(placed, i) as u64,
        crc: None,
        streamed: placed[i].1,
    }
}

/// `entries` holds the entry of each of the first `n` placed files, and nothing else.
pub open spec fn entries_of(
    entries: Map<u32, Entry>,
    placed: Seq<(SourceFile, bool)>,
    n: int,
) -> bool {
    &&& forall|i: int|
        0 <= i < n ==> #[trigger] entries.contains_key(placed[i].0.id.0)
            && entries[placed[i].0.id.0] == planned_entry(placed, i)
    &&& forall|id: u32| #[trigger]
        entries.contains_key(id) ==> exists|i: int| 0 <= i < n && #[trigger] placed[i].0.id.0 == id
}

/// How many of the parts are copied.
pub open spec fn copy_count(parts: Seq<PartModel>) -> nat
    decreases parts.len(),
{
    if parts.len() == 0 {
        0
    } else {
        copy_count(parts.drop_last()) + if parts.last() is Copy {
            1nat
        } else {
            0nat
        }
    }
}

/// `plan` is the plan of the archive that holds `files`.
pub open spec fn is_single_plan(plan: SinglePlan, files: Seq<SourceFile>) -> bool {
    let bigs = bigs_of(files);
    let smalls = smalls_of(files);
    let l = full_layout(bigs, smalls);
    &&& plan.order@ == Seq::new(l.placed.len(), |i: int| l.placed[i].0.id)
    &&& entries_of(plan.entries@, l.placed, l.placed.len() as int)
    &&& part_models(plan.parts@) == l.parts
    &&& plan.copyable@ == l.copyable
    &&& plan.stats.entries == l.placed.len()
    &&& plan.stats.parts == l.parts.len()
    &&& plan.stats.copy_parts == copy_count(l.parts)
    &&& plan.stats.stream_parts == l.parts.len() - copy_count(l.parts)
    &&& plan.stats.folded_bigs == l.folded
    &&& plan.stats.stolen_bigs == l.stolen
    &&& plan.stats.bigs == bigs.len()
    &&& plan.stats.smalls == smalls.len()
}

/// `routing` is the way that the archive of `files` takes: where parts can be copied and are
/// worth it, the plan, else the fallback.
pub open spec fn is_routing(routing: SingleRouting, files: Seq<SourceFile>) -> bool {
    match routing {
        SingleRouting::SingleMpu(plan) => viable(files) && is_single_plan(plan, files),
        SingleRouting::Fallback => !viable(files),
    }
}

/// The files that the planner takes: their identities differ, and where the archive is
/// built from parts, every offset fits 64 bits and every part number 32.
pub open spec fn plannable(files: Seq<SourceFile>) -> bool {
    &&& distinct_ids(files)
    &&& total_size(files) <= u64::MAX
    &&& viable(files) ==> total_span(files) <= u64::MAX && 2 * bigs_of(files).len() < u32::MAX
}

/// The positions of the bigs, or of the smalls.
pub(crate) fn pick(files: &Vec<SourceFile>, big: bool) -> (picks: Vec<usize>)
    ensures
        picks@ == positions(files@, big, files@.len()),
{
    let mut picks: Vec<usize> = Vec::new();
    for i in 0..files.len()
        invariant
            picks@ == positions(files@, big, i as nat),
    {
        if (files[i].size >= PART_FLOOR) == big {
            picks.push(i);
        }
    }
    picks
}

/// The bigs' positions, largest first.
pub(crate) fn pick_bigs(files: &Vec<SourceFile>, picks: Vec<usize>) -> (bigs: Vec<usize>)
    requires
        picks@ == positions(files@, true, files@.len()),
    ensures
        picks_in_range(bigs@, files@),
        picked(files@, bigs@) == bigs_of(files@),
{
    let mut keys: Vec<(u64, u64)> = Vec::new();
    for i in 0..files.len()
        invariant
            keys@ == largest_first(files@).take(i as int),
    {
        keys.push((u64::MAX - files[i].size, files[i].id.0 as u64));
        assert(keys@ =~= largest_first(files@).take(i + 1));
    }
    proof {
        assert(keys@ =~= largest_first(files@));
        lemma_positions(files@, true, files@.len());
        key_order_is_total(keys@);
        picks@.lemma_sort_by_ensures(key_order(keys@));
        lemma_sorted_positions(files@, true, picks@.sort_by(key_order(keys@)));
    }
    sort_picks(&keys, picks)
}

/// The smalls' positions, smallest first.
fn pick_smalls(files: &Vec<SourceFile>, picks: Vec<usize>) -> (smalls: Vec<usize>)
    requires
        picks@ == positions(files@, false, files@.len()),
    ensures
        picks_in_range(smalls@, files@),
        picked(files@, smalls@) == smalls_of(files@),
{
    let mut keys: Vec<(u64, u64)> = Vec::new();
    for i in 0..files.len()
        invariant
            keys@ == smallest_first(files@).take(i as int),
    {
        keys.push((files[i].size, files[i].id.0 as u64));
        assert(keys@ =~= smallest_first(files@).take(i + 1));
    }
    proof {
        assert(keys@ =~= smallest_first(files@));
        lemma_positions(files@, false, files@.len());
        key_order_is_total(keys@);
        picks@.lemma_sort_by_ensures(key_order(keys@));
        lemma_sorted_positions(files@, false, picks@.sort_by(key_order(keys@)));
    }
    sort_picks(&keys, picks)
}

proof fn lemma_total_size_monotonic(files: Seq<SourceFile>, i: int)
    requires
        0 <= i <= files.len(),
    ensures
        total_size(files.take(i)) <= total_size(files),
    decreases files.len(),
{
    if i == files.len() {
        assert(files.take(i) =~= files);
    } else {
        lemma_total_size_monotonic(files.drop_last(), i);
        assert(files.drop_last().take(i) =~= files.take(i));
    }
}

/// Sum of the sizes.
fn sum_sizes(files: &Vec<SourceFile>) -> (total: u64)
    requires
        total_size(files@) <= u64::MAX,
    ensures
        total == total_size(files@),
{
    let mut total: u64 = 0;
    for i in 0..files.len()
        invariant
            total == total_size(files@.take(i as int)),
            total_size(files@) <= u64::MAX,
    {
        proof {
            lemma_total_size_monotonic(files@, i + 1);
            assert(files@.take(i + 1).drop_last() =~= files@.take(i as int));
        }
        total = total + files[i].size;
    }
    assert(files@.take(files@.len() as int) =~= files@);
    total
}

/// The plan under construction. Files are named by their position in the listing.
struct Draft {
    placed: Vec<(usize, bool)>,
    parts: Vec<PartSpec>,
    taken: usize,
    copyable: Vec<FileId>,
    folded: usize,
    stolen: usize,
}

/// The files at the given positions, each with the mark that stands beside its position.
pub open spec fn placed_files(files: Seq<SourceFile>, placed: Seq<(usize, bool)>) -> Seq<
    (SourceFile, bool),
> {
    Seq::new(placed.len(), |i: int| (files[placed[i].0 as int], placed[i].1))
}

proof fn lemma_placed_push(files: Seq<SourceFile>, placed: Seq<(usize, bool)>, p: (usize, bool))
    ensures
        placed_files(files, placed.push(p)) == placed_files(files, placed).push(
            (files[p.0 as int], p.1),
        ),
{
    assert(placed_files(files, placed.push(p)) =~= placed_files(files, placed).push(
        (files[p.0 as int], p.1),
    ));
}

impl Draft {
    spec fn layout(&self, files: Seq<SourceFile>) -> Layout {
        Layout {
            placed: placed_files(files, self.placed@),
            parts: part_models(self.parts@),
            taken: self.taken as int,
            copyable: self.copyable@,
            folded: self.folded as nat,
            stolen: self.stolen as nat,
        }
    }

    spec fn in_range(&self, files: Seq<SourceFile>) -> bool {
        forall|i: int| 0 <= i < self.placed@.len() ==> #[trigger] self.placed@[i].0 < files.len()
    }
}

/// Each position is one of the listing.
pub open spec fn picks_in_range(picks: Seq<usize>, files: Seq<SourceFile>) -> bool {
    forall|i: int| 0 <= i < picks.len() ==> picks[i] < files.len()
}

/// Places one more big, with the batch of smalls before it.
fn place_big(files: &Vec<SourceFile>, smalls: &Vec<usize>, big: usize, draft: &mut Draft)
    requires
        picks_in_range(smalls@, files@),
        big < files@.len(),
        files@[big as int].is_big(),
        old(draft).taken <= smalls@.len(),
        old(draft).in_range(files@),
        run_span(picked(files@, smalls@), old(draft).taken as int, smalls@.len() as int)
            + files@[big as int].span() <= u64::MAX,
        old(draft).parts@.len() + 2 < u32::MAX,
        old(draft).folded < usize::MAX,
        old(draft).stolen < usize::MAX,
    ensures
        final(draft).in_range(files@),
        final(draft).layout(files@) == place_big_spec(
            old(draft).layout(files@),
            files@[big as int],
            picked(files@, smalls@),
        ),
{
    let ghost small_files = picked(files@, smalls@);
    let ghost big_file = files@[big as int];
    let ghost i = draft.taken as int;
    let ghost before = *draft;
    let header: u64 = local_header_len(files[big].name.as_str());
    let steal_limit: u64 = files[big].size - PART_FLOOR;
    let mut segments: Vec<Segment> = Vec::new();
    let mut batch: u64 = 0;
    let start: usize = draft.taken;
    let mut next: usize = start;
    proof {
        assert(segments@ =~= streamed_run(small_files, i, i));
        assert(draft.layout(files@).placed =~= before.layout(files@).placed + placed_run(
            small_files,
            i,
            i,
        ));
    }
    loop
        invariant_except_break
            batch_end(big_file, small_files, i, i) == batch_end(
                big_file,
                small_files,
                i,
                next as int,
            ),
        invariant
            picks_in_range(smalls@, files@),
            small_files == picked(files@, smalls@),
            big < files@.len(),
            big_file == files@[big as int],
            big_file.is_big(),
            header == big_file.header_span(),
            steal_limit == max_steal(big_file),
            start == i,
            i <= next <= smalls@.len(),
            batch == run_span(small_files, i, next as int),
            run_span(small_files, i, smalls@.len() as int) + big_file.span() <= u64::MAX,
            segments@ == streamed_run(small_files, i, next as int),
            draft.in_range(files@),
            draft.layout(files@).placed == before.layout(files@).placed + placed_run(
                small_files,
                i,
                next as int,
            ),
            draft.parts == before.parts,
            draft.taken == before.taken,
            draft.copyable == before.copyable,
            draft.folded == before.folded,
            draft.stolen == before.stolen,
        ensures
            next == batch_end(big_file, small_files, i, i),
        decreases smalls@.len() - next,
    {
        proof {
            lemma_run_span_monotonic(small_files, i, next as int, smalls@.len() as int);
        }
        let with_header: u64 = batch + header;
        if with_header >= PART_FLOOR {
            break;
        }
        let left: bool = next < smalls.len();
        if PART_FLOOR - with_header <= steal_limit && (next > start || !left) {
            break;
        }
        if !left {
            break;
        }
        proof {
            lemma_run_span_monotonic(small_files, i, next + 1, smalls@.len() as int);
        }
        let small: usize = smalls[next];
        proof {
            lemma_placed_push(files@, draft.placed@, (small, true));
        }
        segments.push(Segment::StreamedFile { id: files[small].id });
        draft.placed.push((small, true));
        batch = batch + entry_total_len(files[small].name.as_str(), files[small].size);
        next = next + 1;
        proof {
            assert(segments@ =~= streamed_run(small_files, i, next as int));
            assert(draft.layout(files@).placed =~= before.layout(files@).placed + placed_run(
                small_files,
                i,
                next as int,
            ));
        }
    }
    proof {
        lemma_run_span_monotonic(small_files, i, next as int, smalls@.len() as int);
    }
    let with_header: u64 = batch + header;
    let gap: u64 = if with_header >= PART_FLOOR {
        0
    } else {
        PART_FLOOR - with_header
    };
    let prefix: u64 = if gap <= steal_limit {
        gap
    } else {
        steal_limit
    };
    let number: u32 = draft.parts.len() as u32 + 1;
    draft.taken = next;
    let ghost run = placed_run(small_files, i, next as int);
    let ghost old_placed = before.layout(files@).placed;
    if with_header + prefix >= PART_FLOOR {
        proof {
            lemma_placed_push(files@, draft.placed@, (big, false));
        }
        segments.push(Segment::CopiedFileHeader { id: files[big].id });
        if prefix > 0 {
            segments.push(Segment::StreamedBigPrefix { id: files[big].id, len: prefix });
            draft.stolen = draft.stolen + 1;
        }
        draft.placed.push((big, false));
        draft.copyable.push(files[big].id);
        draft.parts.push(PartSpec::Stream { part_number: number, segments });
        draft.parts.push(
            PartSpec::Copy { part_number: number + 1, id: files[big].id, copy_from: prefix },
        );
        proof {
            assert(draft.layout(files@).placed =~= old_placed + run.push((big_file, false)));
            assert(draft.layout(files@).parts =~= before.layout(files@).parts + copied_big_parts(
                big_file,
                small_files,
                i,
                next as int,
                before.parts@.len() + 1,
            ));
        }
    } else {
        proof {
            lemma_placed_push(files@, draft.placed@, (big, true));
        }
        segments.push(Segment::StreamedFile { id: files[big].id });
        draft.placed.push((big, true));
        draft.folded = draft.folded + 1;
        draft.parts.push(PartSpec::Stream { part_number: number, segments });
        proof {
            assert(draft.layout(files@).placed =~= old_placed + run.push((big_file, true)));
            assert(draft.layout(files@).parts =~= before.layout(files@).parts + folded_big_parts(
                big_file,
                small_files,
                i,
                next as int,
                before.parts@.len() + 1,
            ));
        }
    }
}

pub(crate) proof fn lemma_run_span_monotonic(smalls: Seq<SourceFile>, i: int, j: int, k: int)
    requires
        i <= j <= k,
    ensures
        run_span(smalls, i, j) <= run_span(smalls, i, k),
    decreases k - j,
{
    if j < k {
        lemma_run_span_monotonic(smalls, i, j, k - 1);
    }
}

/// Facts of the plan after `n` bigs that need nothing but its shape.
pub(crate) proof fn lemma_layout_shape(bigs: Seq<SourceFile>, smalls: Seq<SourceFile>, n: nat)
    requires
        n <= bigs.len(),
    ensures
        ({
            let l = layout_after(bigs, smalls, n);
            &&& 0 <= l.taken <= smalls.len()
            &&& l.placed.len() == n + l.taken
            &&& l.parts.len() <= 2 * n
            &&& l.copyable.len() + l.folded == n
            &&& l.stolen <= l.copyable.len() <= l.parts.len()
            &&& copy_count(l.parts) == l.copyable.len()
            &&& placed_offset(l.placed, l.placed.len() as int) == run_span(bigs, 0, n as int)
                + run_span(smalls, 0, l.taken)
        }),
    decreases n,
{
    if n > 0 {
        lemma_layout_shape(bigs, smalls, (n - 1) as nat);
        let l = layout_after(bigs, smalls, (n - 1) as nat);
        let m = layout_after(bigs, smalls, n);
        let big = bigs[n - 1];
        let i = l.taken;
        let j = batch_end(big, smalls, i, i);
        lemma_batch_end(big, smalls, i, i);
        lemma_placed_run_offset(l.placed, smalls, i, j);
        let run = l.placed + placed_run(smalls, i, j);
        let streamed = m.placed.last().1;
        assert(m.placed =~= run.push((big, streamed)));
        lemma_placed_offset_prefix(run, m.placed, run.len() as int);
        lemma_run_span_split(smalls, 0, i, j);
        assert(m.parts.drop_last() =~= if m.copyable.len() > l.copyable.len() {
            l.parts.push(m.parts[l.parts.len() as int])
        } else {
            l.parts
        });
        assert(l.parts.push(m.parts[l.parts.len() as int]).drop_last() =~= l.parts);
        reveal_with_fuel(copy_count, 3);
    }
}

pub(crate) proof fn lemma_batch_end(big: SourceFile, smalls: Seq<SourceFile>, i: int, j: int)
    requires
        i <= j <= smalls.len(),
    ensures
        j <= batch_end(big, smalls, i, j) <= smalls.len(),
        batch_suffices(big, smalls, i, batch_end(big, smalls, i, j)),
    decreases smalls.len() - j,
{
    if !batch_suffices(big, smalls, i, j) {
        lemma_batch_end(big, smalls, i, j + 1);
    }
}

pub(crate) proof fn lemma_run_span_split(s: Seq<SourceFile>, i: int, j: int, k: int)
    requires
        i <= j <= k,
    ensures
        run_span(s, i, k) == run_span(s, i, j) + run_span(s, j, k),
    decreases k - j,
{
    if j < k {
        lemma_run_span_split(s, i, j, k - 1);
    }
}

proof fn lemma_placed_offset_prefix(
    a: Seq<(SourceFile, bool)>,
    b: Seq<(SourceFile, bool)>,
    i: int,
)
    requires
        0 <= i <= a.len() <= b.len(),
        forall|t: int| 0 <= t < i ==> a[t] == b[t],
    ensures
        placed_offset(a, i) == placed_offset(b, i),
    decreases i,
{
    if i > 0 {
        lemma_placed_offset_prefix(a, b, i - 1);
    }
}

proof fn lemma_placed_run_offset(
    placed: Seq<(SourceFile, bool)>,
    smalls: Seq<SourceFile>,
    i: int,
    j: int,
)
    requires
        0 <= i <= j <= smalls.len(),
    ensures
        ({
            let run = placed + placed_run(smalls, i, j);
            placed_offset(run, run.len() as int) == placed_offset(placed, placed.len() as int)
                + run_span(smalls, i, j)
        }),
    decreases j - i,
{
    let run = placed + placed_run(smalls, i, j);
    if i == j {
        lemma_placed_offset_prefix(placed, run, placed.len() as int);
    } else {
        let shorter = placed + placed_run(smalls, i, j - 1);
        lemma_placed_run_offset(placed, smalls, i, j - 1);
        lemma_placed_offset_prefix(shorter, run, shorter.len() as int);
    }
}

/// The length of the entry at a position.
pub open spec fn span_at(files: Seq<SourceFile>) -> spec_fn(usize) -> nat {
    |i: usize| files[i as int].span()
}

pub(crate) proof fn lemma_positions(files: Seq<SourceFile>, big: bool, n: nat)
    requires
        n <= files.len() <= usize::MAX,
    ensures
        positions(files, big, n).len() <= n,
        forall|i: int|
            0 <= i < positions(files, big, n).len() ==> {
                &&& (#[trigger] positions(files, big, n)[i]) < n
                &&& files[positions(files, big, n)[i] as int].is_big() == big
            },
    decreases n,
{
    if n > 0 {
        lemma_positions(files, big, (n - 1) as nat);
    }
}

pub(crate) proof fn lemma_positions_cover(files: Seq<SourceFile>, n: nat)
    requires
        n <= files.len() <= usize::MAX,
    ensures
        positions(files, true, n).len() + positions(files, false, n).len() == n,
        weight_sum(positions(files, true, n), span_at(files)) + weight_sum(
            positions(files, false, n),
            span_at(files),
        ) == total_span(files.take(n as int)),
        picked(files, positions(files, true, n)).to_multiset().add(
            picked(files, positions(files, false, n)).to_multiset(),
        ) == files.take(n as int).to_multiset(),
    decreases n,
{
    broadcast use group_to_multiset_ensures;

    if n > 0 {
        let m = (n - 1) as nat;
        lemma_positions_cover(files, m);
        let big = files[n - 1].is_big();
        let before = positions(files, big, m);
        assert(positions(files, big, n) == before.push(m as usize));
        assert(positions(files, big, n).drop_last() =~= before);
        assert(picked(files, before.push(m as usize)) =~= picked(files, before).push(
            files[m as int],
        ));
        assert(files.take(n as int) =~= files.take(m as int).push(files[m as int]));
        assert(files.take(n as int).drop_last() =~= files.take(m as int));
        assert(picked(files, positions(files, true, n)).to_multiset().add(
            picked(files, positions(files, false, n)).to_multiset(),
        ) =~= files.take(n as int).to_multiset());
    } else {
        assert(picked(files, positions(files, true, n)) =~= Seq::empty());
        assert(picked(files, positions(files, false, n)) =~= Seq::empty());
        assert(files.take(0) =~= Seq::empty());
        assert(picked(files, positions(files, true, n)).to_multiset().add(
            picked(files, positions(files, false, n)).to_multiset(),
        ) =~= files.take(n as int).to_multiset());
    }
}

proof fn lemma_weight_sum_is_span(files: Seq<SourceFile>, picks: Seq<usize>)
    ensures
        weight_sum(picks, span_at(files)) == run_span(
            picked(files, picks),
            0,
            picks.len() as int,
        ),
    decreases picks.len(),
{
    if picks.len() > 0 {
        lemma_weight_sum_is_span(files, picks.drop_last());
        lemma_run_span_same(
            picked(files, picks.drop_last()),
            picked(files, picks),
            0,
            picks.len() - 1,
        );
    }
}

pub(crate) proof fn lemma_run_span_same(a: Seq<SourceFile>, b: Seq<SourceFile>, i: int, j: int)
    requires
        0 <= i,
        j <= a.len(),
        j <= b.len(),
        forall|t: int| i <= t < j ==> a[t] == b[t],
    ensures
        run_span(a, i, j) == run_span(b, i, j),
    decreases j - i,
{
    if i < j {
        lemma_run_span_same(a, b, i, j - 1);
    }
}

pub(crate) proof fn lemma_run_span_is_total(files: Seq<SourceFile>)
    ensures
        run_span(files, 0, files.len() as int) == total_span(files),
    decreases files.len(),
{
    if files.len() > 0 {
        lemma_run_span_is_total(files.drop_last());
        lemma_run_span_same(files.drop_last(), files, 0, files.len() - 1);
    }
}

proof fn lemma_total_span_remove(files: Seq<SourceFile>, i: int)
    requires
        0 <= i < files.len(),
    ensures
        total_span(files) == total_span(files.remove(i)) + files[i].span(),
    decreases files.len(),
{
    if i == files.len() - 1 {
        assert(files.remove(i) =~= files.drop_last());
    } else {
        lemma_total_span_remove(files.drop_last(), i);
        assert(files.remove(i).drop_last() =~= files.drop_last().remove(i));
    }
}

pub(crate) proof fn lemma_total_span_permuted(a: Seq<SourceFile>, b: Seq<SourceFile>)
    requires
        a.to_multiset() == b.to_multiset(),
    ensures
        total_span(a) == total_span(b),
    decreases a.len(),
{
    broadcast use group_to_multiset_ensures;

    assert(a.to_multiset().len() == a.len());
    assert(b.to_multiset().len() == b.len());
    if a.len() > 0 {
        let x = a.last();
        assert(a.to_multiset().count(x) > 0) by {
            assert(a.contains(x));
        }
        assert(b.contains(x));
        let i = choose|i: int| 0 <= i < b.len() && b[i] == x;
        assert(a.drop_last() =~= a.remove(a.len() - 1));
        assert(a.drop_last().to_multiset() =~= b.remove(i).to_multiset());
        lemma_total_span_permuted(a.drop_last(), b.remove(i));
        lemma_total_span_remove(b, i);
    }
}

/// The bigs and the smalls are the files, each once.
pub(crate) proof fn lemma_bigs_and_smalls(files: Seq<SourceFile>)
    requires
        files.len() <= usize::MAX,
    ensures
        bigs_of(files).len() + smalls_of(files).len() == files.len(),
        bigs_of(files).to_multiset().add(smalls_of(files).to_multiset()) == files.to_multiset(),
        forall|i: int| 0 <= i < bigs_of(files).len() ==> #[trigger] bigs_of(files)[i].is_big(),
        forall|i: int| 0 <= i < smalls_of(files).len() ==> !#[trigger] smalls_of(files)[i].is_big(),
        run_span(bigs_of(files), 0, bigs_of(files).len() as int) + run_span(
            smalls_of(files),
            0,
            smalls_of(files).len() as int,
        ) == total_span(files),
{
    let big_picks = positions(files, true, files.len());
    let small_picks = positions(files, false, files.len());
    let big_order = key_order(largest_first(files));
    let small_order = key_order(smallest_first(files));
    let bigs = big_picks.sort_by(big_order);
    let smalls = small_picks.sort_by(small_order);
    key_order_is_total(largest_first(files));
    key_order_is_total(smallest_first(files));
    big_picks.lemma_sort_by_ensures(big_order);
    small_picks.lemma_sort_by_ensures(small_order);
    lemma_positions_cover(files, files.len());
    assert(files.take(files.len() as int) =~= files);
    lemma_weight_sum_permuted(bigs, big_picks, span_at(files));
    lemma_weight_sum_permuted(smalls, small_picks, span_at(files));
    lemma_weight_sum_is_span(files, bigs);
    lemma_weight_sum_is_span(files, smalls);
    lemma_picked_permuted(files, bigs, big_picks);
    lemma_picked_permuted(files, smalls, small_picks);
    lemma_sorted_positions(files, true, bigs);
    lemma_sorted_positions(files, false, smalls);
    broadcast use group_to_multiset_ensures;

    assert(bigs.to_multiset().len() == big_picks.len());
    assert(smalls.to_multiset().len() == small_picks.len());
}

pub(crate) proof fn lemma_sorted_positions(files: Seq<SourceFile>, big: bool, sorted: Seq<usize>)
    requires
        files.len() <= usize::MAX,
        sorted.to_multiset() == positions(files, big, files.len()).to_multiset(),
    ensures
        picks_in_range(sorted, files),
        forall|i: int|
            0 <= i < sorted.len() ==> files[#[trigger] sorted[i] as int].is_big() == big,
{
    broadcast use group_to_multiset_ensures;

    let picks = positions(files, big, files.len());
    lemma_positions(files, big, files.len());
    assert forall|i: int| 0 <= i < sorted.len() implies sorted[i] < files.len()
        && files[#[trigger] sorted[i] as int].is_big() == big by {
        assert(sorted.contains(sorted[i]));
        assert(sorted.to_multiset().count(sorted[i]) > 0);
        assert(picks.contains(sorted[i]));
    }
}

/// The files of placed entries.
pub open spec fn files_placed(placed: Seq<(SourceFile, bool)>) -> Seq<SourceFile> {
    Seq::new(placed.len(), |i: int| placed[i].0)
}

proof fn lemma_placed_run_files(
    placed: Seq<(SourceFile, bool)>,
    smalls: Seq<SourceFile>,
    i: int,
    j: int,
)
    requires
        0 <= i <= j <= smalls.len(),
    ensures
        files_placed(placed + placed_run(smalls, i, j)).to_multiset().add(
            smalls.take(i).to_multiset(),
        ) == files_placed(placed).to_multiset().add(smalls.take(j).to_multiset()),
    decreases j - i,
{
    broadcast use group_to_multiset_ensures;

    if i == j {
        assert(placed + placed_run(smalls, i, j) =~= placed);
    } else {
        lemma_placed_run_files(placed, smalls, i, j - 1);
        let shorter = placed + placed_run(smalls, i, j - 1);
        assert(placed + placed_run(smalls, i, j) =~= shorter.push((smalls[j - 1], true)));
        assert(files_placed(shorter.push((smalls[j - 1], true))) =~= files_placed(shorter).push(
            smalls[j - 1],
        ));
        assert(smalls.take(j) =~= smalls.take(j - 1).push(smalls[j - 1]));
        let lhs = files_placed(placed + placed_run(smalls, i, j)).to_multiset().add(
            smalls.take(i).to_multiset(),
        );
        let rhs = files_placed(placed).to_multiset().add(smalls.take(j).to_multiset());
        assert forall|f: SourceFile| lhs.count(f) == rhs.count(f) by {
            assert(files_placed(shorter).to_multiset().add(smalls.take(i).to_multiset()).count(f)
                == files_placed(placed).to_multiset().add(smalls.take(j - 1).to_multiset()).count(
                f,
            ));
        }
        assert(lhs =~= rhs);
    }
}

proof fn lemma_layout_files(bigs: Seq<SourceFile>, smalls: Seq<SourceFile>, n: nat)
    requires
        n <= bigs.len(),
    ensures
        ({
            let l = layout_after(bigs, smalls, n);
            files_placed(l.placed).to_multiset() == bigs.take(n as int).to_multiset().add(
                smalls.take(l.taken).to_multiset(),
            )
        }),
    decreases n,
{
    broadcast use group_to_multiset_ensures;

    if n == 0 {
        assert(files_placed(layout_after(bigs, smalls, n).placed) =~= Seq::empty());
        assert(bigs.take(0) =~= Seq::empty());
        assert(smalls.take(0) =~= Seq::empty());
        assert(Seq::<SourceFile>::empty().to_multiset().add(
            Seq::<SourceFile>::empty().to_multiset(),
        ) =~= Seq::<SourceFile>::empty().to_multiset());
    } else {
        let m = (n - 1) as nat;
        lemma_layout_files(bigs, smalls, m);
        lemma_layout_shape(bigs, smalls, m);
        let l = layout_after(bigs, smalls, m);
        let next = layout_after(bigs, smalls, n);
        let big = bigs[n - 1];
        let j = batch_end(big, smalls, l.taken, l.taken);
        lemma_batch_end(big, smalls, l.taken, l.taken);
        lemma_placed_run_files(l.placed, smalls, l.taken, j);
        let run = l.placed + placed_run(smalls, l.taken, j);
        assert(next.placed =~= run.push((big, next.placed.last().1)));
        assert(files_placed(next.placed) =~= files_placed(run).push(big));
        assert(bigs.take(n as int) =~= bigs.take(m as int).push(big));
        let before = smalls.take(l.taken).to_multiset();
        let want = bigs.take(n as int).to_multiset().add(smalls.take(j).to_multiset());
        assert forall|f: SourceFile|
            files_placed(next.placed).to_multiset().count(f) == want.count(f) by {
            assert(files_placed(run).to_multiset().add(before).count(f) == files_placed(
                l.placed,
            ).to_multiset().add(smalls.take(j).to_multiset()).count(f));
        }
        assert(files_placed(next.placed).to_multiset() =~= want);
    }
}

/// The plan places every file exactly once.
pub proof fn every_file_is_placed_once(files: Seq<SourceFile>)
    requires
        files.len() <= usize::MAX,
    ensures
        files_placed(full_layout(bigs_of(files), smalls_of(files)).placed).to_multiset()
            == files.to_multiset(),
{
    broadcast use group_to_multiset_ensures;

    let bigs = bigs_of(files);
    let smalls = smalls_of(files);
    let l = layout_after(bigs, smalls, bigs.len());
    let end = full_layout(bigs, smalls);
    lemma_bigs_and_smalls(files);
    lemma_layout_shape(bigs, smalls, bigs.len());
    lemma_layout_files(bigs, smalls, bigs.len());
    lemma_placed_run_files(l.placed, smalls, l.taken, smalls.len() as int);
    assert(bigs.take(bigs.len() as int) =~= bigs);
    assert(smalls.take(smalls.len() as int) =~= smalls);
    let before = smalls.take(l.taken).to_multiset();
    assert forall|f: SourceFile|
        files_placed(end.placed).to_multiset().count(f) == files.to_multiset().count(f) by {
        assert(files_placed(end.placed).to_multiset().add(before).count(f) == files_placed(
            l.placed,
        ).to_multiset().add(smalls.to_multiset()).count(f));
        assert(bigs.to_multiset().add(smalls.to_multiset()).count(f) == files.to_multiset().count(
            f,
        ));
    }
    assert(files_placed(end.placed).to_multiset() =~= files.to_multiset());
}

/// A rearrangement of files with distinct identities has distinct identities.
pub(crate) proof fn lemma_distinct_permuted(files: Seq<SourceFile>, s: Seq<SourceFile>)
    requires
        distinct_ids(files),
        s.to_multiset() == files.to_multiset(),
    ensures
        distinct_ids(s),
{
    broadcast use group_to_multiset_ensures;

    assert(files.no_duplicates()) by {
        assert forall|i: int, j: int| 0 <= i < j < files.len() implies files[i] != files[j] by {
            assert(files[i].id != files[j].id);
        }
    }
    assert(s.to_multiset().len() == s.len());
    assert(files.to_multiset().len() == files.len());
    files.lemma_multiset_has_no_duplicates();
    assert forall|x: SourceFile| s.to_multiset().contains(x) implies s.to_multiset().count(x)
        == 1 by {}
    s.lemma_multiset_has_no_duplicates_conv();
    assert forall|i: int, j: int|
        0 <= i < s.len() && 0 <= j < s.len() && #[trigger] s[i].id
            == #[trigger] s[j].id implies i == j by {
        assert(s.to_multiset().count(s[i]) > 0) by {
            assert(s.contains(s[i]));
        }
        assert(s.to_multiset().count(s[j]) > 0) by {
            assert(s.contains(s[j]));
        }
        assert(files.contains(s[i]));
        assert(files.contains(s[j]));
        let p = choose|p: int| 0 <= p < files.len() && files[p] == s[i];
        let q = choose|q: int| 0 <= q < files.len() && files[q] == s[j];
        assert(files[p].id == files[q].id);
    }
}

/// The entries of the placed files, with their offsets.
pub fn entries_in_order(files: &Vec<SourceFile>, placed: &Vec<(usize, bool)>) -> (entries: HashMap<
    u32,
    Entry,
>)
    requires
        forall|i: int| 0 <= i < placed@.len() ==> #[trigger] placed@[i].0 < files@.len(),
        distinct_ids(files_placed(placed_files(files@, placed@))),
        placed_offset(placed_files(files@, placed@), placed@.len() as int) <= u64::MAX,
    ensures
        entries_of(entries@, placed_files(files@, placed@), placed@.len() as int),
{
    broadcast use vstd::std_specs::hash::group_hash_axioms;

    let ghost all = placed_files(files@, placed@);
    let mut entries: HashMap<u32, Entry> = HashMap::new();
    let mut offset: u64 = 0;
    for i in 0..placed.len()
        invariant
            all == placed_files(files@, placed@),
            forall|i: int| 0 <= i < placed@.len() ==> #[trigger] placed@[i].0 < files@.len(),
            distinct_ids(files_placed(all)),
            placed_offset(all, placed@.len() as int) <= u64::MAX,
            offset == placed_offset(all, i as int),
            entries_of(entries@, all, i as int),
    {
        let (position, streamed): (usize, bool) = placed[i];
        let file: &SourceFile = &files[position];
        let ghost before = entries@;
        proof {
            lemma_placed_offset_monotonic(all, i + 1, placed@.len() as int);
            assert(all[i as int].0 == file);
        }
        entries.insert(
            file.id.0,
            Entry {
                id: file.id,
                name: file.name.clone(),
                size: file.size,
                local_header_offset: offset,
                crc: None,
                streamed,
            },
        );
        offset = offset + entry_total_len(file.name.as_str(), file.size);
        proof {
            let only = files_placed(all);
            assert forall|t: int| 0 <= t < i + 1 implies #[trigger] entries@.contains_key(
                all[t].0.id.0,
            ) && entries@[all[t].0.id.0] == planned_entry(all, t) by {
                if t < i {
                    assert(only[t].id != only[i as int].id);
                    assert(before.contains_key(all[t].0.id.0));
                }
            }
            assert forall|id: u32| #[trigger] entries@.contains_key(id) implies exists|t: int|
                0 <= t < i + 1 && #[trigger] all[t].0.id.0 == id by {
                if id == file.id.0 {
                    assert(all[i as int].0.id.0 == id);
                } else {
                    assert(before.contains_key(id));
                }
            }
        }
    }
    entries
}

proof fn lemma_placed_offset_monotonic(placed: Seq<(SourceFile, bool)>, i: int, j: int)
    requires
        i <= j,
    ensures
        placed_offset(placed, i) <= placed_offset(placed, j),
    decreases j - i,
{
    if i < j {
        lemma_placed_offset_monotonic(placed, i, j - 1);
    }
}

/// Plans the upload, or routes to streaming the archive as a whole where there is no big
/// or too little to gain.
pub fn plan_single_mpu(files: Vec<SourceFile>) -> (routing: SingleRouting)
    requires
        plannable(files@),
    ensures
        is_routing(routing, files@),
{
    let total: u64 = sum_sizes(&files);
    let big_picks: Vec<usize> = pick(&files, true);
    let small_picks: Vec<usize> = pick(&files, false);
    proof {
        assert(files@.len() == files.len());
        lemma_positions(files@, true, files@.len());
        lemma_has_big(files@, files@.len());
    }
    if big_picks.len() == 0 || total < VIABILITY_MIN_TOTAL {
        return SingleRouting::Fallback;
    }
    let bigs: Vec<usize> = pick_bigs(&files, big_picks);
    let smalls: Vec<usize> = pick_smalls(&files, small_picks);
    let ghost big_files = bigs_of(files@);
    let ghost small_files = smalls_of(files@);
    proof {
        lemma_bigs_and_smalls(files@);
    }
    let mut draft: Draft = Draft {
        placed: Vec::new(),
        parts: Vec::new(),
        taken: 0,
        copyable: Vec::new(),
        folded: 0,
        stolen: 0,
    };
    assert(draft.layout(files@) =~= layout_after(big_files, small_files, 0));
    for n in 0..bigs.len()
        invariant
            picks_in_range(bigs@, files@),
            picks_in_range(smalls@, files@),
            big_files == picked(files@, bigs@),
            small_files == picked(files@, smalls@),
            forall|i: int| 0 <= i < big_files.len() ==> #[trigger] big_files[i].is_big(),
            run_span(big_files, 0, big_files.len() as int) + run_span(
                small_files,
                0,
                small_files.len() as int,
            ) <= u64::MAX,
            2 * big_files.len() < u32::MAX,
            draft.in_range(files@),
            draft.layout(files@) == layout_after(big_files, small_files, n as nat),
    {
        let ghost l = layout_after(big_files, small_files, n as nat);
        proof {
            lemma_layout_shape(big_files, small_files, n as nat);
            lemma_run_span_split(small_files, 0, l.taken, small_files.len() as int);
            lemma_run_span_monotonic(big_files, 0, n + 1, big_files.len() as int);
            assert(draft.taken == l.taken);
            assert(draft.parts@.len() == l.parts.len());
            assert(big_files[n as int] == files@[bigs@[n as int] as int]);
        }
        place_big(&files, &smalls, bigs[n], &mut draft);
    }
    let ghost l = layout_after(big_files, small_files, big_files.len());
    proof {
        lemma_layout_shape(big_files, small_files, big_files.len());
        assert(draft.taken == l.taken);
        assert(draft.parts@.len() == l.parts.len());
    }
    let mut segments: Vec<Segment> = Vec::new();
    let ghost placed_before = draft.layout(files@).placed;
    assert(segments@ =~= streamed_run(small_files, l.taken, l.taken));
    assert(placed_before =~= l.placed + placed_run(small_files, l.taken, l.taken));
    let first_left: usize = draft.taken;
    for t in first_left..smalls.len()
        invariant
            picks_in_range(smalls@, files@),
            small_files == picked(files@, smalls@),
            l == layout_after(big_files, small_files, big_files.len()),
            0 <= l.taken <= t,
            segments@ == streamed_run(small_files, l.taken, t as int),
            draft.in_range(files@),
            draft.layout(files@).placed == l.placed + placed_run(small_files, l.taken, t as int),
            draft.layout(files@).parts == l.parts,
            draft.copyable@ == l.copyable,
            draft.folded == l.folded,
            draft.stolen == l.stolen,
    {
        let small: usize = smalls[t];
        proof {
            lemma_placed_push(files@, draft.placed@, (small, true));
        }
        segments.push(Segment::StreamedFile { id: files[small].id });
        draft.placed.push((small, true));
        proof {
            assert(segments@ =~= streamed_run(small_files, l.taken, t + 1));
            assert(draft.layout(files@).placed =~= l.placed + placed_run(
                small_files,
                l.taken,
                t + 1,
            ));
        }
    }
    segments.push(Segment::CentralDirectory);
    let number: u32 = draft.parts.len() as u32 + 1;
    draft.parts.push(PartSpec::Stream { part_number: number, segments });
    let ghost end = full_layout(big_files, small_files);
    proof {
        assert(part_models(draft.parts@) =~= end.parts);
        assert(end.parts.drop_last() =~= l.parts);
        lemma_placed_run_offset(l.placed, small_files, l.taken, small_files.len() as int);
        lemma_run_span_split(small_files, 0, l.taken, small_files.len() as int);
        every_file_is_placed_once(files@);
        lemma_distinct_permuted(files@, files_placed(end.placed));
    }
    let entries: HashMap<u32, Entry> = entries_in_order(&files, &draft.placed);
    let mut order: Vec<FileId> = Vec::new();
    for i in 0..draft.placed.len()
        invariant
            draft.in_range(files@),
            order@ == Seq::new(i as nat, |t: int| placed_files(files@, draft.placed@)[t].0.id),
    {
        order.push(files[draft.placed[i].0].id);
        assert(order@ =~= Seq::new(
            (i + 1) as nat,
            |t: int| placed_files(files@, draft.placed@)[t].0.id,
        ));
    }
    let copy_parts: usize = draft.copyable.len();
    let stats: PlanStats = PlanStats {
        entries: order.len(),
        parts: draft.parts.len(),
        copy_parts,
        stream_parts: draft.parts.len() - copy_parts,
        folded_bigs: draft.folded,
        stolen_bigs: draft.stolen,
        bigs: bigs.len(),
        smalls: smalls.len(),
    };
    assert(order@ =~= Seq::new(end.placed.len(), |i: int| end.placed[i].0.id));
    SingleRouting::SingleMpu(
        SinglePlan { order, entries, parts: draft.parts, copyable: draft.copyable, stats },
    )
}

pub(crate) proof fn lemma_has_big(files: Seq<SourceFile>, n: nat)
    requires
        n <= files.len(),
    ensures
        positions(files, true, n).len() > 0 <==> exists|i: int|
            0 <= i < n && #[trigger] files[i].is_big(),
    decreases n,
{
    if n > 0 {
        lemma_has_big(files, (n - 1) as nat);
        if files[n - 1].is_big() {
        } else if positions(files, true, n).len() > 0 {
            let i = choose|i: int| 0 <= i < n - 1 && #[trigger] files[i].is_big();
            assert(files[i].is_big());
        }
    }
}

/// What the files hold: the content and its checksum, by identity.
pub struct Contents {
    pub body: spec_fn(FileId) -> Seq<u8>,
    pub crc: spec_fn(FileId) -> u32,
}

/// The file of the listing that has this identity.
pub open spec fn file_of(files: Seq<SourceFile>, id: FileId) -> SourceFile {
    files[choose|i: int| 0 <= i < files.len() && files[i].id == id]
}

/// Every content is as long as the listing says.
pub open spec fn contents_match(files: Seq<SourceFile>, contents: Contents) -> bool {
    forall|i: int|
        0 <= i < files.len() ==> #[trigger] (contents.body)(files[i].id).len() == files[i].size
}

/// The local header of a file's entry.
pub open spec fn header_bytes(f: SourceFile, contents: Contents) -> Seq<u8> {
    local_header_bytes(f.name_bytes(), f.size, (contents.crc)(f.id))
}

/// A file's entry: local header and content.
pub open spec fn entry_bytes(f: SourceFile, contents: Contents) -> Seq<u8> {
    header_bytes(f, contents) + (contents.body)(f.id)
}

/// The bytes of a segment.
pub open spec fn segment_bytes(
    files: Seq<SourceFile>,
    contents: Contents,
    directory: Seq<u8>,
    segment: Segment,
) -> Seq<u8> {
    match segment {
        Segment::StreamedFile { id } => entry_bytes(file_of(files, id), contents),
        Segment::CopiedFileHeader { id } => header_bytes(file_of(files, id), contents),
        Segment::StreamedBigPrefix { id, len } => (contents.body)(id).take(len as int),
        Segment::CentralDirectory => directory,
    }
}

/// The bytes of consecutive segments.
pub open spec fn segments_bytes(
    files: Seq<SourceFile>,
    contents: Contents,
    directory: Seq<u8>,
    segments: Seq<Segment>,
) -> Seq<u8>
    decreases segments.len(),
{
    if segments.len() == 0 {
        Seq::empty()
    } else {
        segments_bytes(files, contents, directory, segments.drop_last()) + segment_bytes(
            files,
            contents,
            directory,
            segments.last(),
        )
    }
}

/// The bytes of a part.
pub open spec fn part_bytes(
    files: Seq<SourceFile>,
    contents: Contents,
    directory: Seq<u8>,
    part: PartModel,
) -> Seq<u8> {
    match part {
        PartModel::Copy { id, copy_from, .. } => (contents.body)(id).skip(copy_from as int),
        PartModel::Stream { segments, .. } => segments_bytes(files, contents, directory, segments),
    }
}

/// The object that S3 makes of the parts.
pub open spec fn upload_bytes(
    files: Seq<SourceFile>,
    contents: Contents,
    directory: Seq<u8>,
    parts: Seq<PartModel>,
) -> Seq<u8>
    decreases parts.len(),
{
    if parts.len() == 0 {
        Seq::empty()
    } else {
        upload_bytes(files, contents, directory, parts.drop_last()) + part_bytes(
            files,
            contents,
            directory,
            parts.last(),
        )
    }
}

/// The placed entries, one behind the other.
pub open spec fn placed_bytes(placed: Seq<(SourceFile, bool)>, contents: Contents) -> Seq<u8>
    decreases placed.len(),
{
    if placed.len() == 0 {
        Seq::empty()
    } else {
        placed_bytes(placed.drop_last(), contents) + entry_bytes(placed.last().0, contents)
    }
}

pub(crate) proof fn lemma_file_of(files: Seq<SourceFile>, i: int)
    requires
        distinct_ids(files),
        0 <= i < files.len(),
    ensures
        file_of(files, files[i].id) == files[i],
{
    let j = choose|j: int| 0 <= j < files.len() && files[j].id == files[i].id;
    assert(0 <= j < files.len() && files[j].id == files[i].id);
}

/// Each file of `some` is one of `files`.
pub open spec fn drawn_from(some: Seq<SourceFile>, files: Seq<SourceFile>) -> bool {
    forall|i: int| 0 <= i < some.len() ==> #[trigger] files.contains(some[i])
}

proof fn lemma_streamed_run_bytes(
    files: Seq<SourceFile>,
    contents: Contents,
    directory: Seq<u8>,
    smalls: Seq<SourceFile>,
    placed: Seq<(SourceFile, bool)>,
    i: int,
    j: int,
)
    requires
        distinct_ids(files),
        drawn_from(smalls, files),
        0 <= i <= j <= smalls.len(),
    ensures
        placed_bytes(placed + placed_run(smalls, i, j), contents) == placed_bytes(placed, contents)
            + segments_bytes(files, contents, directory, streamed_run(smalls, i, j)),
    decreases j - i,
{
    if i == j {
        assert(placed + placed_run(smalls, i, j) =~= placed);
        assert(placed_bytes(placed, contents) + Seq::<u8>::empty() =~= placed_bytes(
            placed,
            contents,
        ));
    } else {
        lemma_streamed_run_bytes(files, contents, directory, smalls, placed, i, j - 1);
        let small = smalls[j - 1];
        let shorter = placed + placed_run(smalls, i, j - 1);
        let run = placed + placed_run(smalls, i, j);
        assert(run.drop_last() =~= shorter);
        assert(streamed_run(smalls, i, j).drop_last() =~= streamed_run(smalls, i, j - 1));
        assert(files.contains(small));
        let p = choose|p: int| 0 <= p < files.len() && files[p] == small;
        lemma_file_of(files, p);
        assert(placed_bytes(run, contents) =~= placed_bytes(placed, contents) + segments_bytes(
            files,
            contents,
            directory,
            streamed_run(smalls, i, j),
        ));
    }
}

proof fn lemma_placed_big_bytes(
    files: Seq<SourceFile>,
    contents: Contents,
    directory: Seq<u8>,
    smalls: Seq<SourceFile>,
    l: Layout,
    big: SourceFile,
)
    requires
        distinct_ids(files),
        contents_match(files, contents),
        drawn_from(smalls, files),
        files.contains(big),
        big.is_big(),
        0 <= l.taken <= smalls.len(),
        upload_bytes(files, contents, directory, l.parts) == placed_bytes(l.placed, contents),
    ensures
        ({
            let m = place_big_spec(l, big, smalls);
            &&& upload_bytes(files, contents, directory, m.parts) == placed_bytes(
                m.placed,
                contents,
            )
            &&& forall|i: int|
                l.parts.len() <= i < m.parts.len() ==> part_bytes(
                    files,
                    contents,
                    directory,
                    #[trigger] m.parts[i],
                ).len() >= PART_FLOOR
        }),
{
    let i = l.taken;
    let j = batch_end(big, smalls, i, i);
    let k = stolen_prefix(big, smalls, i, j);
    let m = place_big_spec(l, big, smalls);
    lemma_batch_end(big, smalls, i, i);
    lemma_streamed_run_bytes(files, contents, directory, smalls, l.placed, i, j);
    lemma_streamed_run_len(files, contents, directory, smalls, i, j);
    let p = choose|p: int| 0 <= p < files.len() && files[p] == big;
    lemma_file_of(files, p);
    assert((contents.body)(files[p].id).len() == big.size);
    let body = (contents.body)(big.id);
    let header = header_bytes(big, contents);
    local_header_length(big.name_bytes(), big.size, (contents.crc)(big.id));
    let run = streamed_run(smalls, i, j);
    let run_bytes = segments_bytes(files, contents, directory, run);
    let streamed = m.placed.last().1;
    let placed = l.placed + placed_run(smalls, i, j);
    assert(m.placed =~= placed.push((big, streamed)));
    assert(m.placed.drop_last() =~= placed);
    let first = m.parts[l.parts.len() as int];
    assert(l.parts.push(first).drop_last() =~= l.parts);
    let with_first = upload_bytes(files, contents, directory, l.parts.push(first));
    if chaperone_span(big, smalls, i, j) + k >= PART_FLOOR {
        let copy = m.parts[l.parts.len() as int + 1];
        let headed = run.push(Segment::CopiedFileHeader { id: big.id });
        assert(headed.drop_last() =~= run);
        let headed_bytes = segments_bytes(files, contents, directory, headed);
        assert(headed_bytes == run_bytes + header);
        if k > 0 {
            let lifted = headed.push(Segment::StreamedBigPrefix { id: big.id, len: k as u64 });
            assert(lifted.drop_last() =~= headed);
            assert(part_bytes(files, contents, directory, first) == headed_bytes + body.take(k));
        } else {
            assert(part_bytes(files, contents, directory, first) =~= headed_bytes + body.take(k));
        }
        assert(part_bytes(files, contents, directory, copy) == body.skip(k));
        assert(m.parts =~= l.parts.push(first).push(copy));
        assert(m.parts.drop_last() =~= l.parts.push(first));
        assert(body.take(k) + body.skip(k) =~= body);
        assert(upload_bytes(files, contents, directory, m.parts) =~= placed_bytes(
            m.placed,
            contents,
        ));
    } else {
        let folded = run.push(Segment::StreamedFile { id: big.id });
        assert(folded.drop_last() =~= run);
        assert(part_bytes(files, contents, directory, first) == run_bytes + (header + body));
        assert(m.parts =~= l.parts.push(first));
        assert(upload_bytes(files, contents, directory, m.parts) =~= placed_bytes(
            m.placed,
            contents,
        ));
    }
}

proof fn lemma_streamed_run_len(
    files: Seq<SourceFile>,
    contents: Contents,
    directory: Seq<u8>,
    smalls: Seq<SourceFile>,
    i: int,
    j: int,
)
    requires
        distinct_ids(files),
        contents_match(files, contents),
        drawn_from(smalls, files),
        0 <= i <= j <= smalls.len(),
    ensures
        segments_bytes(files, contents, directory, streamed_run(smalls, i, j)).len() == run_span(
            smalls,
            i,
            j,
        ),
    decreases j - i,
{
    if i < j {
        lemma_streamed_run_len(files, contents, directory, smalls, i, j - 1);
        let small = smalls[j - 1];
        assert(streamed_run(smalls, i, j).drop_last() =~= streamed_run(smalls, i, j - 1));
        assert(files.contains(small));
        let p = choose|p: int| 0 <= p < files.len() && files[p] == small;
        lemma_file_of(files, p);
        assert((contents.body)(files[p].id).len() == small.size);
        local_header_length(small.name_bytes(), small.size, (contents.crc)(small.id));
    }
}

proof fn lemma_layout_bytes(
    files: Seq<SourceFile>,
    contents: Contents,
    directory: Seq<u8>,
    bigs: Seq<SourceFile>,
    smalls: Seq<SourceFile>,
    n: nat,
)
    requires
        distinct_ids(files),
        contents_match(files, contents),
        drawn_from(smalls, files),
        drawn_from(bigs, files),
        forall|i: int| 0 <= i < bigs.len() ==> #[trigger] bigs[i].is_big(),
        n <= bigs.len(),
    ensures
        ({
            let l = layout_after(bigs, smalls, n);
            &&& upload_bytes(files, contents, directory, l.parts) == placed_bytes(
                l.placed,
                contents,
            )
            &&& forall|i: int|
                0 <= i < l.parts.len() ==> part_bytes(
                    files,
                    contents,
                    directory,
                    #[trigger] l.parts[i],
                ).len() >= PART_FLOOR
        }),
    decreases n,
{
    if n > 0 {
        let m = (n - 1) as nat;
        lemma_layout_bytes(files, contents, directory, bigs, smalls, m);
        lemma_layout_shape(bigs, smalls, m);
        let l = layout_after(bigs, smalls, m);
        assert(files.contains(bigs[n - 1]));
        assert(bigs[n - 1].is_big());
        lemma_placed_big_bytes(files, contents, directory, smalls, l, bigs[n - 1]);
        let next = layout_after(bigs, smalls, n);
        assert forall|i: int| 0 <= i < next.parts.len() implies part_bytes(
            files,
            contents,
            directory,
            #[trigger] next.parts[i],
        ).len() >= PART_FLOOR by {
            if i < l.parts.len() {
                assert(next.parts[i] == l.parts[i]);
            }
        }
    }
}

proof fn lemma_listing_drawn(files: Seq<SourceFile>)
    requires
        files.len() <= usize::MAX,
    ensures
        drawn_from(bigs_of(files), files),
        drawn_from(smalls_of(files), files),
{
    broadcast use group_to_multiset_ensures;

    lemma_bigs_and_smalls(files);
    let bigs = bigs_of(files);
    let smalls = smalls_of(files);
    let all = bigs.to_multiset().add(smalls.to_multiset());
    assert forall|i: int| 0 <= i < bigs.len() implies #[trigger] files.contains(bigs[i]) by {
        assert(bigs.contains(bigs[i]));
        assert(bigs.to_multiset().count(bigs[i]) > 0);
        assert(all.count(bigs[i]) > 0);
    }
    assert forall|i: int| 0 <= i < smalls.len() implies #[trigger] files.contains(smalls[i]) by {
        assert(smalls.contains(smalls[i]));
        assert(smalls.to_multiset().count(smalls[i]) > 0);
        assert(all.count(smalls[i]) > 0);
    }
}

/// The parts, put together in their order, are the entries in theirs, each a local header
/// followed by the whole content, and then the directory. Every part but the last reaches
/// S3's floor.
pub proof fn parts_make_the_archive(
    files: Seq<SourceFile>,
    contents: Contents,
    directory: Seq<u8>,
)
    requires
        files.len() <= usize::MAX,
        distinct_ids(files),
        contents_match(files, contents),
    ensures
        ({
            let l = full_layout(bigs_of(files), smalls_of(files));
            &&& upload_bytes(files, contents, directory, l.parts) == placed_bytes(
                l.placed,
                contents,
            ) + directory
            &&& forall|i: int|
                0 <= i < l.parts.len() - 1 ==> part_bytes(
                    files,
                    contents,
                    directory,
                    #[trigger] l.parts[i],
                ).len() >= PART_FLOOR
        }),
{
    let bigs = bigs_of(files);
    let smalls = smalls_of(files);
    let end = full_layout(bigs, smalls);
    let l = layout_after(bigs, smalls, bigs.len());
    lemma_bigs_and_smalls(files);
    lemma_listing_drawn(files);
    lemma_layout_shape(bigs, smalls, bigs.len());
    lemma_layout_bytes(files, contents, directory, bigs, smalls, bigs.len());
    lemma_streamed_run_bytes(
        files,
        contents,
        directory,
        smalls,
        l.placed,
        l.taken,
        smalls.len() as int,
    );
    let run = streamed_run(smalls, l.taken, smalls.len() as int);
    assert(run.push(Segment::CentralDirectory).drop_last() =~= run);
    assert(end.parts.drop_last() =~= l.parts);
    assert(upload_bytes(files, contents, directory, end.parts) =~= placed_bytes(
        end.placed,
        contents,
    ) + directory);
}

/// The entries stand where their offsets say: the `i`-th entry starts right behind the
/// ones before it, and the directory right behind the last.
pub proof fn entries_stand_at_their_offsets(
    placed: Seq<(SourceFile, bool)>,
    contents: Contents,
    i: int,
)
    requires
        contents_match(files_placed(placed), contents),
        0 <= i <= placed.len(),
    ensures
        placed_bytes(placed.take(i), contents).len() == placed_offset(placed, i),
        placed_bytes(placed, contents).take(placed_offset(placed, i) as int) == placed_bytes(
            placed.take(i),
            contents,
        ),
        i < placed.len() ==> placed_bytes(placed, contents).subrange(
            placed_offset(placed, i) as int,
            placed_offset(placed, i + 1) as int,
        ) == entry_bytes(placed[i].0, contents),
    decreases placed.len(),
{
    lemma_placed_bytes_len(placed, contents, i);
    if i < placed.len() {
        lemma_placed_bytes_len(placed, contents, i + 1);
        lemma_placed_bytes_prefix(placed, contents, i + 1);
        assert(placed.take(i + 1).drop_last() =~= placed.take(i));
        let head = placed_bytes(placed.take(i + 1), contents);
        assert(head == placed_bytes(placed.take(i), contents) + entry_bytes(placed[i].0, contents));
        assert(placed_bytes(placed, contents).subrange(
            placed_offset(placed, i) as int,
            placed_offset(placed, i + 1) as int,
        ) =~= head.skip(placed_offset(placed, i) as int));
        assert(head.skip(placed_offset(placed, i) as int) =~= entry_bytes(placed[i].0, contents));
    }
    lemma_placed_bytes_prefix(placed, contents, i);
}

proof fn lemma_placed_bytes_len(placed: Seq<(SourceFile, bool)>, contents: Contents, i: int)
    requires
        contents_match(files_placed(placed), contents),
        0 <= i <= placed.len(),
    ensures
        placed_bytes(placed.take(i), contents).len() == placed_offset(placed, i),
    decreases i,
{
    if i > 0 {
        lemma_placed_bytes_len(placed, contents, i - 1);
        assert(placed.take(i).drop_last() =~= placed.take(i - 1));
        let f = placed[i - 1].0;
        assert(files_placed(placed)[i - 1] == f);
        assert((contents.body)(files_placed(placed)[i - 1].id).len() == f.size);
        local_header_length(f.name_bytes(), f.size, (contents.crc)(f.id));
    }
}

proof fn lemma_placed_bytes_prefix(placed: Seq<(SourceFile, bool)>, contents: Contents, i: int)
    requires
        0 <= i <= placed.len(),
    ensures
        placed_bytes(placed.take(i), contents).is_prefix_of(placed_bytes(placed, contents)),
    decreases placed.len(),
{
    if i == placed.len() {
        assert(placed.take(i) =~= placed);
    } else {
        lemma_placed_bytes_prefix(placed.drop_last(), contents, i);
        assert(placed.drop_last().take(i) =~= placed.take(i));
    }
}

impl PartModel {
    /// The part's number in the upload.
    pub open spec fn number(self) -> u32 {
        match self {
            PartModel::Copy { part_number, .. } => part_number,
            PartModel::Stream { part_number, .. } => part_number,
        }
    }

    /// How many times the part holds the directory.
    pub open spec fn directories(self) -> nat {
        match self {
            PartModel::Copy { .. } => 0,
            PartModel::Stream { segments, .. } => segments.filter(
                |s: Segment| s is CentralDirectory,
            ).len(),
        }
    }
}

proof fn lemma_no_directory(segments: Seq<Segment>)
    requires
        forall|i: int| 0 <= i < segments.len() ==> !(#[trigger] segments[i] is CentralDirectory),
    ensures
        segments.filter(|s: Segment| s is CentralDirectory) =~= Seq::<Segment>::empty(),
    decreases segments.len(),
{
    reveal(Seq::filter);
    if segments.len() > 0 {
        lemma_no_directory(segments.drop_last());
    }
}

proof fn lemma_layout_parts(bigs: Seq<SourceFile>, smalls: Seq<SourceFile>, n: nat)
    requires
        n <= bigs.len(),
        2 * n < u32::MAX,
    ensures
        ({
            let l = layout_after(bigs, smalls, n);
            forall|i: int|
                0 <= i < l.parts.len() ==> #[trigger] l.parts[i].number() == i + 1
                    && l.parts[i].directories() == 0
        }),
    decreases n,
{
    if n > 0 {
        let m = (n - 1) as nat;
        lemma_layout_parts(bigs, smalls, m);
        lemma_layout_shape(bigs, smalls, m);
        lemma_layout_shape(bigs, smalls, n);
        let l = layout_after(bigs, smalls, m);
        let next = layout_after(bigs, smalls, n);
        assert forall|i: int| 0 <= i < next.parts.len() implies #[trigger] next.parts[i].number()
            == i + 1 && next.parts[i].directories() == 0 by {
            if i < l.parts.len() {
                assert(next.parts[i] == l.parts[i]);
            } else if next.parts[i] is Stream {
                lemma_no_directory(next.parts[i]->segments);
            }
        }
    }
}

/// The parts are numbered from one, without a gap, and the directory is held once: as the
/// last segment of the last part.
pub proof fn parts_are_numbered_and_closed(bigs: Seq<SourceFile>, smalls: Seq<SourceFile>)
    requires
        2 * bigs.len() < u32::MAX,
    ensures
        ({
            let l = full_layout(bigs, smalls);
            &&& l.parts.len() > 0
            &&& forall|i: int| 0 <= i < l.parts.len() ==> #[trigger] l.parts[i].number() == i + 1
            &&& forall|i: int|
                0 <= i < l.parts.len() - 1 ==> #[trigger] l.parts[i].directories() == 0
            &&& l.parts.last().directories() == 1
            &&& l.parts.last() is Stream
            &&& l.parts.last()->segments.last() is CentralDirectory
        }),
{
    lemma_layout_parts(bigs, smalls, bigs.len());
    lemma_layout_shape(bigs, smalls, bigs.len());
    let l = layout_after(bigs, smalls, bigs.len());
    let end = full_layout(bigs, smalls);
    let run = streamed_run(smalls, l.taken, smalls.len() as int);
    lemma_no_directory(run);
    reveal(Seq::filter);
    assert(run.push(Segment::CentralDirectory).drop_last() =~= run);
    assert(end.parts.last()->segments == run.push(Segment::CentralDirectory));
    assert forall|i: int| 0 <= i < end.parts.len() - 1 implies #[trigger] end.parts[i].directories()
        == 0 by {
        assert(end.parts[i] == l.parts[i]);
        assert(l.parts[i].number() == i + 1);
    }
    assert forall|i: int| 0 <= i < end.parts.len() implies #[trigger] end.parts[i].number() == i
        + 1 by {
        if i < l.parts.len() {
            assert(end.parts[i] == l.parts[i]);
        }
    }
}

/// A small at hand is streamed before anything is taken from a big: a part with a streamed
/// prefix holds a small, unless none was left. A big is streamed whole only once no small
/// is left. What is copied of a big still reaches the floor.
pub proof fn smalls_go_before_a_steal(
    bigs: Seq<SourceFile>,
    smalls: Seq<SourceFile>,
    n: nat,
)
    requires
        n < bigs.len(),
        bigs[n as int].is_big(),
    ensures
        ({
            let big = bigs[n as int];
            let i = layout_after(bigs, smalls, n).taken;
            let j = layout_after(bigs, smalls, n + 1).taken;
            let k = stolen_prefix(big, smalls, i, j);
            let folded = layout_after(bigs, smalls, n + 1).folded > layout_after(
                bigs,
                smalls,
                n,
            ).folded;
            &&& !folded && k > 0 && i < smalls.len() ==> j > i
            &&& folded ==> j == smalls.len()
            &&& 0 <= k && big.size - k >= PART_FLOOR
        }),
{
    let i = layout_after(bigs, smalls, n).taken;
    lemma_layout_shape(bigs, smalls, n);
    lemma_batch_end(bigs[n as int], smalls, i, i);
}

} // verus!
