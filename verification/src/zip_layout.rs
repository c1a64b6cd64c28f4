//! Layout of an archive whose parts are built independently of each other.
//!
//! A file of at least `MIN_PART_SIZE` bytes can be copied inside S3 as a part of its own,
//! where the part before it reaches the minimum too: the two make a duo. The others are
//! downloaded into parts that are built locally.

use crate::sorting::{picked, sort_items, sorted_positions, sorting_keeps_items};
use crate::zip_records::{loc_span, LocalFileHeader, NoCRC};
use std::collections::VecDeque;
use vstd::multiset::Multiset;
use vstd::prelude::*;
use vstd::seq_lib::{group_to_multiset_ensures, lemma_multiset_commutative};
use vstd::utf8::encode_utf8;

verus! {

/// S3's lower limit for every part but the last (5 MiB).
pub const MIN_PART_SIZE: usize = 5_242_880;

/// How large a part should grow where nothing else decides (10 MiB).
pub const TARGET_PART_SIZE: usize = 10_485_760;

/// An object to be archived.
#[derive(Debug)]
pub struct FileInfo {
    /// Name of the entry in the archive: the key without its prefix.
    pub name: String,
    pub bucket_name: String,
    pub key: String,
    pub size: usize,
}

impl FileInfo {
    /// Length of the entry's local header.
    pub open spec fn loc_len(&self) -> nat {
        loc_span(self.size, encode_utf8(self.name@).len())
    }

    /// Length of the entry: local header and content.
    pub open spec fn entry_len(&self) -> nat {
        self.loc_len() + self.size as nat
    }

    /// Length of the entry's local header.
    pub fn loc_size(&self) -> (len: usize)
        requires
            self.loc_len() <= usize::MAX,
        ensures
            len == self.loc_len(),
    {
        let name: &[u8] = self.name.as_str().as_bytes();
        LocalFileHeader::<NoCRC>::predict_size(self.size, name.len())
    }

    /// Length of the entry: local header and content.
    pub fn entry_size(&self) -> (len: usize)
        requires
            self.entry_len() <= usize::MAX,
        ensures
            len == self.entry_len(),
    {
        self.loc_size() + self.size
    }
}

/// Entries that are put together locally, as one part.
#[derive(Debug)]
pub struct RegularZipPart(pub Vec<FileInfo>);

/// The copied half of a duo.
#[derive(Debug)]
pub enum CopyZipPart {
    /// The whole content is copied.
    FullCopy(FileInfo),
    /// The content is copied from `copy_start_byte` on; what is before is downloaded.
    PartialCopy { file_entry: FileInfo, copy_start_byte: usize },
}

/// One unit of the layout: a part built locally, or such a part and a copied one.
#[derive(Debug)]
pub enum ZipLayoutPart {
    Single(RegularZipPart),
    Duo { regular: RegularZipPart, copy: CopyZipPart },
}

/// The layout of the archive.
#[derive(Debug)]
pub struct ZipLayout {
    pub parts: Vec<ZipLayoutPart>,
}

/// `ZipLayoutPart` with its entries as a sequence.
#[verifier::ext_equal]
pub enum PartPlan {
    Single(Seq<FileInfo>),
    Duo { regular: Seq<FileInfo>, copy: CopyZipPart },
}

impl View for ZipLayoutPart {
    type V = PartPlan;

    open spec fn view(&self) -> PartPlan {
        match *self {
            ZipLayoutPart::Single(regular) => PartPlan::Single(regular.0@),
            ZipLayoutPart::Duo { regular, copy } => PartPlan::Duo { regular: regular.0@, copy },
        }
    }
}

/// The parts of a layout, each with its entries as a sequence.
pub open spec fn part_plans(parts: Seq<ZipLayoutPart>) -> Seq<PartPlan> {
    Seq::new(parts.len(), |i: int| parts[i]@)
}

/// Length of the entries of `infos`.
pub open spec fn infos_len(infos: Seq<FileInfo>) -> nat
    decreases infos.len(),
{
    if infos.len() == 0 {
        0
    } else {
        infos_len(infos.drop_last()) + infos.last().entry_len()
    }
}

/// Keys that put the smallest file first; equal sizes keep their listed order.
pub open spec fn by_size(infos: Seq<FileInfo>) -> Seq<(u64, u64)> {
    Seq::new(infos.len(), |i: int| (infos[i].size as u64, 0))
}

/// The positions of the files, smallest file first.
pub open spec fn size_order(infos: Seq<FileInfo>) -> Seq<usize> {
    sorted_positions(by_size(infos))
}

/// The files, smallest first.
pub open spec fn smallest_to_largest(infos: Seq<FileInfo>) -> Seq<FileInfo> {
    picked(infos, size_order(infos))
}

/// How many entries are taken from the front of the queue: at least `t`, and from there on
/// until together they are `need` bytes long, or none is left.
pub open spec fn fill_count(queue: Seq<FileInfo>, need: int, t: nat) -> nat
    decreases queue.len() - t,
{
    if t >= queue.len() || infos_len(queue.take(t as int)) >= need {
        t
    } else {
        fill_count(queue, need, t + 1)
    }
}

/// Filling takes no less than it was told and no more than there is, and it stops short of
/// the end of the queue only where the need is met.
pub proof fn filling_stops(queue: Seq<FileInfo>, need: int, t: nat)
    requires
        t <= queue.len(),
    ensures
        t <= fill_count(queue, need, t) <= queue.len(),
        fill_count(queue, need, t) < queue.len() ==> infos_len(
            queue.take(fill_count(queue, need, t) as int),
        ) >= need,
    decreases queue.len() - t,
{
    if !(t >= queue.len() || infos_len(queue.take(t as int)) >= need) {
        filling_stops(queue, need, t + 1);
    }
}

/// What the part before a copied file must hold, besides the file's header, so that with
/// what the file can spare it reaches the minimum.
pub open spec fn least_regular(big: FileInfo) -> int {
    MIN_PART_SIZE - big.loc_len() - (big.size - MIN_PART_SIZE)
}

/// Where the copy of a file starts, behind a regular part of `regular_len` bytes.
pub open spec fn copy_start(big: FileInfo, regular_len: nat) -> nat {
    if regular_len + big.loc_len() >= MIN_PART_SIZE {
        0
    } else {
        (MIN_PART_SIZE - regular_len - big.loc_len()) as nat
    }
}

/// The copied half, its copy starting at `start`.
pub open spec fn copy_at(big: FileInfo, start: nat) -> CopyZipPart {
    if start > 0 {
        CopyZipPart::PartialCopy { file_entry: big, copy_start_byte: start as usize }
    } else {
        CopyZipPart::FullCopy(big)
    }
}

/// How many entries go before the copied file `big`.
pub open spec fn duo_count(big: FileInfo, queue: Seq<FileInfo>) -> nat {
    fill_count(queue, least_regular(big), 1)
}

/// The unit made for `big`: a duo where the queue has enough to go before it, else one part
/// with all that is left.
pub open spec fn big_unit(big: FileInfo, queue: Seq<FileInfo>) -> PartPlan {
    let regular = queue.take(duo_count(big, queue) as int);
    if queue.len() > 0 && infos_len(regular) >= least_regular(big) {
        PartPlan::Duo { regular, copy: copy_at(big, copy_start(big, infos_len(regular))) }
    } else {
        PartPlan::Single(queue.push(big))
    }
}

/// What is left of the queue after the unit made for `big`.
pub open spec fn after_big(big: FileInfo, queue: Seq<FileInfo>) -> Seq<FileInfo> {
    if queue.len() == 0 {
        queue
    } else {
        queue.skip(duo_count(big, queue) as int)
    }
}

/// Whether the largest file of the queue can be copied.
pub open spec fn ends_big(queue: Seq<FileInfo>) -> bool {
    queue.len() > 0 && queue.last().size >= MIN_PART_SIZE
}

/// First pass: a unit for each file that can be copied, the largest first. Gives the units
/// behind `parts`, and what is left of the queue.
pub open spec fn duo_pass(queue: Seq<FileInfo>, parts: Seq<PartPlan>) -> (
    Seq<PartPlan>,
    Seq<FileInfo>,
)
    decreases queue.len(),
{
    if ends_big(queue) {
        let big = queue.last();
        let rest = queue.drop_last();
        proof {
            if rest.len() > 0 {
                filling_stops(rest, least_regular(big), 1);
            }
        }
        duo_pass(after_big(big, rest), parts.push(big_unit(big, rest)))
    } else {
        (parts, queue)
    }
}

/// Second pass, one unit: entries are added before a partial copy until it can start at the
/// file's first byte.
pub open spec fn promoted(part: PartPlan, queue: Seq<FileInfo>) -> (PartPlan, Seq<FileInfo>) {
    match part {
        PartPlan::Duo {
            regular,
            copy: CopyZipPart::PartialCopy { file_entry, copy_start_byte },
        } => {
            let c = fill_count(queue, copy_start_byte as int, 0) as int;
            let got = infos_len(queue.take(c));
            let start = if got >= copy_start_byte {
                0
            } else {
                (copy_start_byte - got) as nat
            };
            (
                PartPlan::Duo { regular: regular + queue.take(c), copy: copy_at(file_entry, start) },
                queue.skip(c),
            )
        },
        _ => (part, queue),
    }
}

/// Second pass over the first `n` units.
pub open spec fn promote_pass(parts: Seq<PartPlan>, queue: Seq<FileInfo>, n: nat) -> (
    Seq<PartPlan>,
    Seq<FileInfo>,
)
    decreases n,
{
    if n == 0 {
        (Seq::empty(), queue)
    } else {
        let before = promote_pass(parts, queue, (n - 1) as nat);
        let step = promoted(parts[n - 1], before.1);
        (before.0.push(step.0), step.1)
    }
}

/// Third pass, one unit: entries are added to a duo's regular part until it has the size
/// that a part should have.
pub open spec fn padded(part: PartPlan, queue: Seq<FileInfo>) -> (PartPlan, Seq<FileInfo>) {
    match part {
        PartPlan::Duo { regular, copy } => {
            let c = fill_count(queue, TARGET_PART_SIZE - infos_len(regular), 0) as int;
            (PartPlan::Duo { regular: regular + queue.take(c), copy }, queue.skip(c))
        },
        _ => (part, queue),
    }
}

/// Third pass over the first `n` units.
pub open spec fn pad_pass(parts: Seq<PartPlan>, queue: Seq<FileInfo>, n: nat) -> (
    Seq<PartPlan>,
    Seq<FileInfo>,
)
    decreases n,
{
    if n == 0 {
        (Seq::empty(), queue)
    } else {
        let before = pad_pass(parts, queue, (n - 1) as nat);
        let step = padded(parts[n - 1], before.1);
        (before.0.push(step.0), step.1)
    }
}

/// Fourth pass: what is left is packed into parts of the size that a part should have.
pub open spec fn remainder_pass(parts: Seq<PartPlan>, queue: Seq<FileInfo>) -> Seq<PartPlan>
    decreases queue.len(),
{
    if queue.len() == 0 {
        parts
    } else {
        let c = fill_count(queue, TARGET_PART_SIZE as int, 1) as int;
        proof {
            filling_stops(queue, TARGET_PART_SIZE as int, 1);
        }
        remainder_pass(parts.push(PartPlan::Single(queue.take(c))), queue.skip(c))
    }
}

/// The layout of the archive that holds `infos`.
pub open spec fn layout_of(infos: Seq<FileInfo>) -> Seq<PartPlan> {
    let duos = duo_pass(smallest_to_largest(infos), Seq::empty());
    let promoted_duos = promote_pass(duos.0, duos.1, duos.0.len());
    let padded_duos = pad_pass(promoted_duos.0, promoted_duos.1, promoted_duos.0.len());
    remainder_pass(padded_duos.0, padded_duos.1)
}

proof fn lemma_infos_len_split(infos: Seq<FileInfo>, i: int)
    requires
        0 <= i <= infos.len(),
    ensures
        infos_len(infos) == infos_len(infos.take(i)) + infos_len(infos.skip(i)),
    decreases infos.len(),
{
    if i == infos.len() {
        assert(infos.take(i) =~= infos);
        assert(infos.skip(i) =~= Seq::empty());
    } else {
        lemma_infos_len_split(infos.drop_last(), i);
        assert(infos.drop_last().take(i) =~= infos.take(i));
        assert(infos.skip(i).drop_last() =~= infos.drop_last().skip(i));
    }
}

pub(crate) proof fn lemma_infos_len_concat(a: Seq<FileInfo>, b: Seq<FileInfo>)
    ensures
        infos_len(a + b) == infos_len(a) + infos_len(b),
{
    lemma_infos_len_split(a + b, a.len() as int);
    assert((a + b).take(a.len() as int) =~= a);
    assert((a + b).skip(a.len() as int) =~= b);
}

/// Moves entries from the front of the queue to `regular`: at least `least` of them, and
/// from there on until together they are `need` bytes long, or none is left. Returns their
/// length.
fn take_front(
    queue: &mut VecDeque<FileInfo>,
    regular: &mut Vec<FileInfo>,
    need: usize,
    least: usize,
) -> (got: usize)
    requires
        infos_len(old(queue)@) <= usize::MAX,
        least <= old(queue)@.len(),
    ensures
        ({
            let c = fill_count(old(queue)@, need as int, least as nat) as int;
            &&& final(queue)@ == old(queue)@.skip(c)
            &&& final(regular)@ == old(regular)@ + old(queue)@.take(c)
            &&& got == infos_len(old(queue)@.take(c))
        }),
{
    let ghost all = queue@;
    let ghost had = regular@;
    let mut got: usize = 0;
    let mut count: usize = 0;
    let total: usize = queue.len();
    assert(all.skip(0) =~= all);
    assert(had + all.take(0) =~= had);
    while count < total && (count < least || got < need)
        invariant
            infos_len(all) <= usize::MAX,
            total == all.len(),
            least <= total,
            count <= total,
            queue@ == all.skip(count as int),
            regular@ == had + all.take(count as int),
            got == infos_len(all.take(count as int)),
            count <= least || fill_count(all, need as int, least as nat) == fill_count(
                all,
                need as int,
                count as nat,
            ),
        decreases total - count,
    {
        proof {
            lemma_infos_len_split(all, count + 1);
            assert(all.take(count + 1).drop_last() =~= all.take(count as int));
            assert(queue@[0] == all[count as int]);
        }
        let front: Option<FileInfo> = queue.pop_front();
        let info: FileInfo = front.unwrap();
        got = got + info.entry_size();
        regular.push(info);
        proof {
            assert(queue@ =~= all.skip(count + 1));
            assert(regular@ =~= had + all.take(count + 1));
        }
        count = count + 1;
    }
    got
}

/// The files as a queue, smallest first.
fn sorted_queue(infos: Vec<FileInfo>) -> (queue: VecDeque<FileInfo>)
    ensures
        queue@ == smallest_to_largest(infos@),
{
    let ghost all = infos@;
    let mut keys: Vec<(u64, u64)> = Vec::new();
    for i in 0..infos.len()
        invariant
            infos@ == all,
            keys@ == by_size(all).take(i as int),
    {
        keys.push((infos[i].size as u64, 0));
        assert(keys@ =~= by_size(all).take(i + 1));
    }
    assert(keys@ =~= by_size(all));
    let sorted: Vec<FileInfo> = sort_items(infos, &keys);
    let mut queue: VecDeque<FileInfo> = VecDeque::new();
    for info in it: sorted
        invariant
            it.seq() == sorted@,
            queue@ == sorted@.take(it.index()),
    {
        queue.push_back(info);
        assert(queue@ =~= sorted@.take(it.index() + 1));
    }
    assert(sorted@.take(sorted@.len() as int) =~= sorted@);
    queue
}

proof fn lemma_part_plans_push(parts: Seq<ZipLayoutPart>, part: ZipLayoutPart)
    ensures
        part_plans(parts.push(part)) == part_plans(parts).push(part@),
{
    assert(part_plans(parts.push(part)) =~= part_plans(parts).push(part@));
}

/// The copied half of a duo, its copy starting at `start`.
fn copy_from(big: FileInfo, start: usize) -> (copy: CopyZipPart)
    ensures
        copy == copy_at(big, start as nat),
{
    if start > 0 {
        CopyZipPart::PartialCopy { file_entry: big, copy_start_byte: start }
    } else {
        CopyZipPart::FullCopy(big)
    }
}

/// First pass: a unit for each file that can be copied.
fn make_duos(queue: &mut VecDeque<FileInfo>) -> (parts: Vec<ZipLayoutPart>)
    requires
        infos_len(old(queue)@) <= usize::MAX,
    ensures
        (part_plans(parts@), final(queue)@) == duo_pass(old(queue)@, Seq::empty()),
        infos_len(final(queue)@) <= usize::MAX,
{
    let ghost start = queue@;
    let mut parts: Vec<ZipLayoutPart> = Vec::new();
    assert(part_plans(parts@) =~= Seq::empty());
    while queue.len() > 0 && queue[queue.len() - 1].size >= MIN_PART_SIZE
        invariant
            infos_len(queue@) <= usize::MAX,
            duo_pass(start, Seq::empty()) == duo_pass(queue@, part_plans(parts@)),
        decreases queue@.len(),
    {
        let ghost before = queue@;
        let ghost rest = before.drop_last();
        let ghost done = part_plans(parts@);
        let back: Option<FileInfo> = queue.pop_back();
        let big: FileInfo = back.unwrap();
        let ghost big_file = big;
        assert(big_file == before.last());
        assert(queue@ =~= rest);
        let spare: usize = big.size - MIN_PART_SIZE;
        let loc: usize = big.loc_size();
        let need: usize = if loc < MIN_PART_SIZE && spare <= MIN_PART_SIZE - loc {
            MIN_PART_SIZE - loc - spare
        } else {
            0
        };
        let mut regular: Vec<FileInfo> = Vec::new();
        if queue.len() == 0 {
            regular.push(big);
            proof {
                lemma_part_plans_push(parts@, ZipLayoutPart::Single(RegularZipPart(regular)));
                assert(regular@ =~= rest.push(big_file));
            }
            parts.push(ZipLayoutPart::Single(RegularZipPart(regular)));
        } else {
            let got: usize = take_front(queue, &mut regular, need, 1);
            let ghost c = duo_count(big_file, rest) as int;
            proof {
                // A need below zero and one of zero are met by the first entry alike.
                assert(fill_count(rest, need as int, 1) == fill_count(
                    rest,
                    least_regular(big_file),
                    1,
                ));
                filling_stops(rest, need as int, 1);
                lemma_infos_len_split(rest, c);
                assert(regular@ =~= rest.take(c));
            }
            if got >= need {
                let start_byte: usize = if got >= MIN_PART_SIZE || loc >= MIN_PART_SIZE - got {
                    0
                } else {
                    MIN_PART_SIZE - got - loc
                };
                let copy: CopyZipPart = copy_from(big, start_byte);
                let part: ZipLayoutPart = ZipLayoutPart::Duo {
                    regular: RegularZipPart(regular),
                    copy,
                };
                proof {
                    lemma_part_plans_push(parts@, part);
                    assert(part@ == big_unit(big_file, rest));
                }
                parts.push(part);
            } else {
                regular.push(big);
                proof {
                    assert(rest.take(c) =~= rest);
                    assert(regular@ =~= rest.push(big_file));
                    lemma_part_plans_push(parts@, ZipLayoutPart::Single(RegularZipPart(regular)));
                }
                parts.push(ZipLayoutPart::Single(RegularZipPart(regular)));
            }
        }
        proof {
            assert(queue@ == after_big(big_file, rest));
            assert(part_plans(parts@) == done.push(big_unit(big_file, rest)));
        }
    }
    parts
}

/// Second pass: partial copies become full ones while there are entries to put before them.
fn promote_copies(parts: Vec<ZipLayoutPart>, queue: &mut VecDeque<FileInfo>) -> (result: Vec<
    ZipLayoutPart,
>)
    requires
        infos_len(old(queue)@) <= usize::MAX,
    ensures
        (part_plans(result@), final(queue)@) == promote_pass(
            part_plans(parts@),
            old(queue)@,
            parts@.len(),
        ),
        infos_len(final(queue)@) <= usize::MAX,
{
    let ghost plans = part_plans(parts@);
    let ghost start = queue@;
    let mut result: Vec<ZipLayoutPart> = Vec::new();
    assert(part_plans(result@) =~= Seq::empty());
    for part in it: parts
        invariant
            it.seq() == parts@,
            plans == part_plans(parts@),
            infos_len(queue@) <= usize::MAX,
            (part_plans(result@), queue@) == promote_pass(plans, start, it.index() as nat),
    {
        let ghost n = it.index();
        let ghost before = queue@;
        let ghost old_part = part@;
        assert(plans[n] == old_part);
        let next: ZipLayoutPart = match part {
            ZipLayoutPart::Duo {
                regular,
                copy: CopyZipPart::PartialCopy { file_entry, copy_start_byte },
            } => {
                let mut entries: Vec<FileInfo> = regular.0;
                proof {
                    filling_stops(before, copy_start_byte as int, 0);
                }
                let got: usize = take_front(queue, &mut entries, copy_start_byte, 0);
                proof {
                    let c = fill_count(before, copy_start_byte as int, 0) as int;
                    lemma_infos_len_split(before, c);
                }
                let left: usize = if got >= copy_start_byte {
                    0
                } else {
                    copy_start_byte - got
                };
                ZipLayoutPart::Duo {
                    regular: RegularZipPart(entries),
                    copy: copy_from(file_entry, left),
                }
            },
            other => other,
        };
        proof {
            lemma_part_plans_push(result@, next);
            assert((next@, queue@) == promoted(old_part, before));
        }
        result.push(next);
    }
    result
}

/// Third pass: the regular parts of duos grow towards the size that a part should have.
fn pad_duos(parts: Vec<ZipLayoutPart>, queue: &mut VecDeque<FileInfo>) -> (result: Vec<
    ZipLayoutPart,
>)
    requires
        infos_len(old(queue)@) <= usize::MAX,
        forall|i: int|
            0 <= i < parts@.len() ==> (#[trigger] parts@[i]@ matches PartPlan::Duo { regular, .. }
                ==> infos_len(regular) <= usize::MAX),
    ensures
        (part_plans(result@), final(queue)@) == pad_pass(
            part_plans(parts@),
            old(queue)@,
            parts@.len(),
        ),
        infos_len(final(queue)@) <= usize::MAX,
{
    let ghost plans = part_plans(parts@);
    let ghost start = queue@;
    let mut result: Vec<ZipLayoutPart> = Vec::new();
    assert(part_plans(result@) =~= Seq::empty());
    for part in it: parts
        invariant
            it.seq() == parts@,
            plans == part_plans(parts@),
            forall|i: int|
                0 <= i < parts@.len() ==> (#[trigger] parts@[i]@ matches PartPlan::Duo {
                    regular,
                    ..
                } ==> infos_len(regular) <= usize::MAX),
            infos_len(queue@) <= usize::MAX,
            (part_plans(result@), queue@) == pad_pass(plans, start, it.index() as nat),
    {
        let ghost n = it.index();
        let ghost before = queue@;
        let ghost old_part = part@;
        assert(plans[n] == old_part);
        assert(parts@[n]@ == old_part);
        let next: ZipLayoutPart = match part {
            ZipLayoutPart::Duo { regular, copy } => {
                let size: usize = regular.part_size();
                let mut entries: Vec<FileInfo> = regular.0;
                let need: usize = if size >= TARGET_PART_SIZE {
                    0
                } else {
                    TARGET_PART_SIZE - size
                };
                proof {
                    filling_stops(before, need as int, 0);
                }
                let got: usize = take_front(queue, &mut entries, need, 0);
                proof {
                    let c = fill_count(before, need as int, 0) as int;
                    lemma_infos_len_split(before, c);
                }
                ZipLayoutPart::Duo { regular: RegularZipPart(entries), copy }
            },
            other => other,
        };
        proof {
            lemma_part_plans_push(result@, next);
            assert((next@, queue@) == padded(old_part, before));
        }
        result.push(next);
    }
    result
}

impl RegularZipPart {
    /// Length of the part: the entries' headers and contents.
    pub fn part_size(&self) -> (len: usize)
        requires
            infos_len(self.0@) <= usize::MAX,
        ensures
            len == infos_len(self.0@),
    {
        let mut len: usize = 0;
        for i in 0..self.0.len()
            invariant
                infos_len(self.0@) <= usize::MAX,
                len == infos_len(self.0@.take(i as int)),
        {
            proof {
                lemma_infos_len_split(self.0@, i + 1);
                assert(self.0@.take(i + 1).drop_last() =~= self.0@.take(i as int));
            }
            len = len + self.0[i].entry_size();
        }
        assert(self.0@.take(self.0@.len() as int) =~= self.0@);
        len
    }
}

/// The file that a duo copies.
pub open spec fn copied_file(copy: CopyZipPart) -> FileInfo {
    match copy {
        CopyZipPart::FullCopy(file_entry) => file_entry,
        CopyZipPart::PartialCopy { file_entry, .. } => file_entry,
    }
}

/// The files of a unit in the order in which their entries stand.
pub open spec fn unit_files(part: PartPlan) -> Seq<FileInfo> {
    match part {
        PartPlan::Single(regular) => regular,
        PartPlan::Duo { regular, copy } => regular.push(copied_file(copy)),
    }
}

/// The files of a layout in the order in which their entries stand.
pub open spec fn layout_files(parts: Seq<PartPlan>) -> Seq<FileInfo>
    decreases parts.len(),
{
    if parts.len() == 0 {
        Seq::empty()
    } else {
        layout_files(parts.drop_last()) + unit_files(parts.last())
    }
}

/// The files of the units and of the queue, each once.
spec fn held(parts: Seq<PartPlan>, queue: Seq<FileInfo>) -> Multiset<FileInfo> {
    layout_files(parts).to_multiset().add(queue.to_multiset())
}

proof fn lemma_layout_files_push(parts: Seq<PartPlan>, part: PartPlan)
    ensures
        layout_files(parts.push(part)) == layout_files(parts) + unit_files(part),
        layout_files(parts.push(part)).to_multiset() == layout_files(parts).to_multiset().add(
            unit_files(part).to_multiset(),
        ),
{
    assert(parts.push(part).drop_last() =~= parts);
    lemma_multiset_commutative(layout_files(parts), unit_files(part));
}

proof fn lemma_multiset_split(queue: Seq<FileInfo>, c: int)
    requires
        0 <= c <= queue.len(),
    ensures
        queue.to_multiset() == queue.take(c).to_multiset().add(queue.skip(c).to_multiset()),
{
    lemma_multiset_commutative(queue.take(c), queue.skip(c));
    assert(queue.take(c) + queue.skip(c) =~= queue);
}

proof fn lemma_duo_pass_holds(queue: Seq<FileInfo>, parts: Seq<PartPlan>)
    ensures
        held(duo_pass(queue, parts).0, duo_pass(queue, parts).1) == held(parts, queue),
    decreases queue.len(),
{
    broadcast use group_to_multiset_ensures;

    if ends_big(queue) {
        let big = queue.last();
        let rest = queue.drop_last();
        let unit = big_unit(big, rest);
        let after = after_big(big, rest);
        if rest.len() > 0 {
            filling_stops(rest, least_regular(big), 1);
            lemma_multiset_split(rest, duo_count(big, rest) as int);
        }
        lemma_duo_pass_holds(after, parts.push(unit));
        lemma_layout_files_push(parts, unit);
        assert(queue =~= rest.push(big));
        if unit is Single && rest.len() > 0 {
            let c = duo_count(big, rest) as int;
            assert(rest.skip(c) =~= Seq::empty());
        }
        assert(unit_files(unit).to_multiset().add(after.to_multiset()) =~= queue.to_multiset());
        assert(held(parts.push(unit), after) =~= held(parts, queue));
    }
}

proof fn lemma_promote_pass_holds(parts: Seq<PartPlan>, queue: Seq<FileInfo>, n: nat)
    requires
        n <= parts.len(),
    ensures
        promote_pass(parts, queue, n).0.len() == n,
        held(promote_pass(parts, queue, n).0, promote_pass(parts, queue, n).1) == held(
            parts.take(n as int),
            queue,
        ),
    decreases n,
{
    broadcast use group_to_multiset_ensures;

    if n == 0 {
        assert(parts.take(0) =~= Seq::empty());
    } else {
        let m = (n - 1) as nat;
        lemma_promote_pass_holds(parts, queue, m);
        let before = promote_pass(parts, queue, m);
        let step = promoted(parts[m as int], before.1);
        lemma_layout_files_push(before.0, step.0);
        lemma_layout_files_push(parts.take(m as int), parts[m as int]);
        assert(parts.take(n as int) =~= parts.take(m as int).push(parts[m as int]));
        lemma_promoted_holds(parts[m as int], before.1);
        assert(held(before.0.push(step.0), step.1) =~= held(parts.take(n as int), queue)) by {
            assert forall|f: FileInfo|
                held(before.0.push(step.0), step.1).count(f) == held(
                    parts.take(n as int),
                    queue,
                ).count(f) by {
                assert(held(before.0, before.1).count(f) == held(
                    parts.take(m as int),
                    queue,
                ).count(f));
                assert(unit_files(step.0).to_multiset().add(step.1.to_multiset()).count(f)
                    == unit_files(parts[m as int]).to_multiset().add(
                    before.1.to_multiset(),
                ).count(f));
            }
        }
    }
}

proof fn lemma_promoted_holds(part: PartPlan, queue: Seq<FileInfo>)
    ensures
        unit_files(promoted(part, queue).0).to_multiset().add(
            promoted(part, queue).1.to_multiset(),
        ) == unit_files(part).to_multiset().add(queue.to_multiset()),
{
    if let PartPlan::Duo { regular, copy: CopyZipPart::PartialCopy { file_entry, copy_start_byte } }
        = part {
        filling_stops(queue, copy_start_byte as int, 0);
        let c = fill_count(queue, copy_start_byte as int, 0) as int;
        lemma_grown_unit(regular, file_entry, queue, c);
    }
}

proof fn lemma_grown_unit(
    regular: Seq<FileInfo>,
    big: FileInfo,
    queue: Seq<FileInfo>,
    c: int,
)
    requires
        0 <= c <= queue.len(),
    ensures
        (regular + queue.take(c)).push(big).to_multiset().add(queue.skip(c).to_multiset())
            == regular.push(big).to_multiset().add(queue.to_multiset()),
{
    broadcast use group_to_multiset_ensures;

    lemma_multiset_split(queue, c);
    lemma_multiset_commutative(regular, queue.take(c));
    assert((regular + queue.take(c)).push(big).to_multiset().add(queue.skip(c).to_multiset())
        =~= regular.push(big).to_multiset().add(queue.to_multiset()));
}

proof fn lemma_padded_holds(part: PartPlan, queue: Seq<FileInfo>)
    ensures
        unit_files(padded(part, queue).0).to_multiset().add(padded(part, queue).1.to_multiset())
            == unit_files(part).to_multiset().add(queue.to_multiset()),
{
    if let PartPlan::Duo { regular, copy } = part {
        let need = TARGET_PART_SIZE - infos_len(regular);
        filling_stops(queue, need, 0);
        lemma_grown_unit(regular, copied_file(copy), queue, fill_count(queue, need, 0) as int);
    }
}

proof fn lemma_pad_pass_holds(parts: Seq<PartPlan>, queue: Seq<FileInfo>, n: nat)
    requires
        n <= parts.len(),
    ensures
        pad_pass(parts, queue, n).0.len() == n,
        held(pad_pass(parts, queue, n).0, pad_pass(parts, queue, n).1) == held(
            parts.take(n as int),
            queue,
        ),
    decreases n,
{
    broadcast use group_to_multiset_ensures;

    if n == 0 {
        assert(parts.take(0) =~= Seq::empty());
    } else {
        let m = (n - 1) as nat;
        lemma_pad_pass_holds(parts, queue, m);
        let before = pad_pass(parts, queue, m);
        let step = padded(parts[m as int], before.1);
        lemma_layout_files_push(before.0, step.0);
        lemma_layout_files_push(parts.take(m as int), parts[m as int]);
        assert(parts.take(n as int) =~= parts.take(m as int).push(parts[m as int]));
        lemma_padded_holds(parts[m as int], before.1);
        assert(held(before.0.push(step.0), step.1) =~= held(parts.take(n as int), queue)) by {
            assert forall|f: FileInfo|
                held(before.0.push(step.0), step.1).count(f) == held(
                    parts.take(n as int),
                    queue,
                ).count(f) by {
                assert(held(before.0, before.1).count(f) == held(
                    parts.take(m as int),
                    queue,
                ).count(f));
                assert(unit_files(step.0).to_multiset().add(step.1.to_multiset()).count(f)
                    == unit_files(parts[m as int]).to_multiset().add(
                    before.1.to_multiset(),
                ).count(f));
            }
        }
    }
}

proof fn lemma_remainder_pass_holds(parts: Seq<PartPlan>, queue: Seq<FileInfo>)
    ensures
        layout_files(remainder_pass(parts, queue)).to_multiset() == held(parts, queue),
    decreases queue.len(),
{
    broadcast use group_to_multiset_ensures;

    if queue.len() == 0 {
        assert(held(parts, queue) =~= layout_files(parts).to_multiset());
    } else {
        let c = fill_count(queue, TARGET_PART_SIZE as int, 1) as int;
        filling_stops(queue, TARGET_PART_SIZE as int, 1);
        let unit = PartPlan::Single(queue.take(c));
        lemma_remainder_pass_holds(parts.push(unit), queue.skip(c));
        lemma_layout_files_push(parts, unit);
        lemma_multiset_split(queue, c);
        assert(held(parts.push(unit), queue.skip(c)) =~= held(parts, queue));
    }
}

proof fn lemma_sorted_infos(infos: Seq<FileInfo>)
    requires
        infos.len() <= usize::MAX,
    ensures
        smallest_to_largest(infos).len() == infos.len(),
        smallest_to_largest(infos).to_multiset() == infos.to_multiset(),
{
    sorting_keeps_items(infos, by_size(infos));
}

/// The layout places every file exactly once.
pub proof fn every_file_is_laid_out_once(infos: Seq<FileInfo>)
    requires
        infos.len() <= usize::MAX,
    ensures
        layout_files(layout_of(infos)).to_multiset() == infos.to_multiset(),
{
    broadcast use group_to_multiset_ensures;

    let queue = smallest_to_largest(infos);
    let none = Seq::<PartPlan>::empty();
    let duos = duo_pass(queue, none);
    let promoted_duos = promote_pass(duos.0, duos.1, duos.0.len());
    let padded_duos = pad_pass(promoted_duos.0, promoted_duos.1, promoted_duos.0.len());
    lemma_sorted_infos(infos);
    lemma_duo_pass_holds(queue, none);
    lemma_promote_pass_holds(duos.0, duos.1, duos.0.len());
    lemma_pad_pass_holds(promoted_duos.0, promoted_duos.1, promoted_duos.0.len());
    lemma_remainder_pass_holds(padded_duos.0, padded_duos.1);
    assert(duos.0.take(duos.0.len() as int) =~= duos.0);
    assert(promoted_duos.0.take(promoted_duos.0.len() as int) =~= promoted_duos.0);
    assert(held(none, queue) =~= queue.to_multiset());
}

proof fn lemma_infos_len_remove(infos: Seq<FileInfo>, i: int)
    requires
        0 <= i < infos.len(),
    ensures
        infos_len(infos) == infos_len(infos.remove(i)) + infos[i].entry_len(),
    decreases infos.len(),
{
    if i == infos.len() - 1 {
        assert(infos.remove(i) =~= infos.drop_last());
    } else {
        lemma_infos_len_remove(infos.drop_last(), i);
        assert(infos.remove(i).drop_last() =~= infos.drop_last().remove(i));
    }
}

proof fn lemma_infos_len_permuted(a: Seq<FileInfo>, b: Seq<FileInfo>)
    requires
        a.to_multiset() == b.to_multiset(),
    ensures
        infos_len(a) == infos_len(b),
    decreases a.len(),
{
    broadcast use group_to_multiset_ensures;

    assert(a.to_multiset().len() == a.len());
    assert(b.to_multiset().len() == b.len());
    if a.len() > 0 {
        let x = a.last();
        assert(a.to_multiset().count(x) > 0) by {
            assert(a.contains(x));
        }
        assert(b.contains(x));
        let i = choose|i: int| 0 <= i < b.len() && b[i] == x;
        assert(a.drop_last() =~= a.remove(a.len() - 1));
        assert(a.drop_last().to_multiset() =~= b.remove(i).to_multiset());
        lemma_infos_len_permuted(a.drop_last(), b.remove(i));
        lemma_infos_len_remove(b, i);
    }
}

proof fn lemma_unit_len_bound(parts: Seq<PartPlan>, i: int)
    requires
        0 <= i < parts.len(),
    ensures
        infos_len(unit_files(parts[i])) <= infos_len(layout_files(parts)),
    decreases parts.len(),
{
    lemma_infos_len_concat(layout_files(parts.drop_last()), unit_files(parts.last()));
    if i < parts.len() - 1 {
        lemma_unit_len_bound(parts.drop_last(), i);
    }
}

/// No unit of the layout in progress is longer than all the files together.
proof fn lemma_held_len(
    parts: Seq<PartPlan>,
    queue: Seq<FileInfo>,
    all: Seq<FileInfo>,
    i: int,
)
    requires
        held(parts, queue) == all.to_multiset(),
        0 <= i < parts.len(),
    ensures
        infos_len(unit_files(parts[i])) <= infos_len(all),
        parts[i] matches PartPlan::Duo { regular, .. } ==> infos_len(regular) <= infos_len(all),
{
    lemma_multiset_commutative(layout_files(parts), queue);
    lemma_infos_len_permuted(layout_files(parts) + queue, all);
    lemma_infos_len_concat(layout_files(parts), queue);
    lemma_unit_len_bound(parts, i);
    if let PartPlan::Duo { regular, copy } = parts[i] {
        assert(regular.push(copied_file(copy)).drop_last() =~= regular);
    }
}

/// Fourth pass: packs what is left.
fn pack_remainder(parts: Vec<ZipLayoutPart>, queue: VecDeque<FileInfo>) -> (result: Vec<
    ZipLayoutPart,
>)
    requires
        infos_len(queue@) <= usize::MAX,
    ensures
        part_plans(result@) == remainder_pass(part_plans(parts@), queue@),
{
    let ghost want = remainder_pass(part_plans(parts@), queue@);
    let mut parts: Vec<ZipLayoutPart> = parts;
    let mut queue: VecDeque<FileInfo> = queue;
    while queue.len() > 0
        invariant
            infos_len(queue@) <= usize::MAX,
            want == remainder_pass(part_plans(parts@), queue@),
        decreases queue@.len(),
    {
        let ghost before = queue@;
        let ghost c = fill_count(before, TARGET_PART_SIZE as int, 1) as int;
        let mut entries: Vec<FileInfo> = Vec::new();
        let got: usize = take_front(&mut queue, &mut entries, TARGET_PART_SIZE, 1);
        proof {
            filling_stops(before, TARGET_PART_SIZE as int, 1);
            lemma_infos_len_split(before, c);
            assert(entries@ =~= before.take(c));
            lemma_part_plans_push(parts@, ZipLayoutPart::Single(RegularZipPart(entries)));
        }
        parts.push(ZipLayoutPart::Single(RegularZipPart(entries)));
    }
    parts
}

impl ZipLayout {
    /// Makes the layout in four passes over the files, smallest first.
    ///
    /// Each file that can be copied, the largest first, gets a duo: the smallest files that
    /// are left go before it until both halves reach the minimum, and where they run out,
    /// all becomes one part. Then files are put before partial copies until these can start
    /// at their first byte, then duos are padded, and the rest is packed.
    pub fn from_files_info(files_info: Vec<FileInfo>) -> (layout: ZipLayout)
        requires
            infos_len(files_info@) <= usize::MAX,
        ensures
            part_plans(layout.parts@) == layout_of(files_info@),
    {
        let ghost infos = files_info@;
        let ghost none = Seq::<PartPlan>::empty();
        proof {
            assert(files_info@.len() == files_info.len());
            lemma_sorted_infos(infos);
            lemma_infos_len_permuted(smallest_to_largest(infos), infos);
        }
        let mut queue: VecDeque<FileInfo> = sorted_queue(files_info);
        let duos: Vec<ZipLayoutPart> = make_duos(&mut queue);
        let ghost after_duos = (part_plans(duos@), queue@);
        let promoted_duos: Vec<ZipLayoutPart> = promote_copies(duos, &mut queue);
        let ghost after_promotion = (part_plans(promoted_duos@), queue@);
        proof {
            lemma_duo_pass_holds(smallest_to_largest(infos), none);
            lemma_promote_pass_holds(after_duos.0, after_duos.1, after_duos.0.len());
            assert(after_duos.0.take(after_duos.0.len() as int) =~= after_duos.0);
            assert(held(none, smallest_to_largest(infos)) =~= infos.to_multiset()) by {
                broadcast use group_to_multiset_ensures;

            }
            assert forall|i: int| 0 <= i < promoted_duos@.len() implies (
            #[trigger] promoted_duos@[i]@ matches PartPlan::Duo { regular, .. } ==> infos_len(
                regular,
            ) <= usize::MAX) by {
                assert(after_promotion.0[i] == promoted_duos@[i]@);
                lemma_held_len(after_promotion.0, after_promotion.1, infos, i);
            }
        }
        let padded_duos: Vec<ZipLayoutPart> = pad_duos(promoted_duos, &mut queue);
        let parts: Vec<ZipLayoutPart> = pack_remainder(padded_duos, queue);
        ZipLayout { parts }
    }
}

/// Both halves of a duo reach the minimum, and a partial copy leaves something out.
pub open spec fn halves_reach_minimum(part: PartPlan) -> bool {
    match part {
        PartPlan::Single(_) => true,
        PartPlan::Duo { regular, copy: CopyZipPart::FullCopy(f) } => {
            &&& infos_len(regular) + f.loc_len() >= MIN_PART_SIZE
            &&& f.size >= MIN_PART_SIZE
        },
        PartPlan::Duo { regular, copy: CopyZipPart::PartialCopy { file_entry, copy_start_byte } } => {
            &&& copy_start_byte > 0
            &&& infos_len(regular) + file_entry.loc_len() + copy_start_byte >= MIN_PART_SIZE
            &&& file_entry.size - copy_start_byte >= MIN_PART_SIZE
        },
    }
}

/// All duos of a layout are sound.
pub open spec fn all_reach_minimum(parts: Seq<PartPlan>) -> bool {
    forall|i: int| 0 <= i < parts.len() ==> halves_reach_minimum(#[trigger] parts[i])
}

proof fn lemma_duo_pass_sound(queue: Seq<FileInfo>, parts: Seq<PartPlan>)
    requires
        all_reach_minimum(parts),
    ensures
        all_reach_minimum(duo_pass(queue, parts).0),
    decreases queue.len(),
{
    if ends_big(queue) {
        let rest = queue.drop_last();
        if rest.len() > 0 {
            filling_stops(rest, least_regular(queue.last()), 1);
        }
        lemma_duo_pass_sound(
            after_big(queue.last(), rest),
            parts.push(big_unit(queue.last(), rest)),
        );
    }
}

proof fn lemma_promote_pass_sound(parts: Seq<PartPlan>, queue: Seq<FileInfo>, n: nat)
    requires
        all_reach_minimum(parts),
        n <= parts.len(),
    ensures
        all_reach_minimum(promote_pass(parts, queue, n).0),
    decreases n,
{
    if n > 0 {
        lemma_promote_pass_sound(parts, queue, (n - 1) as nat);
        let before = promote_pass(parts, queue, (n - 1) as nat);
        let part = parts[n - 1];
        assert(halves_reach_minimum(part));
        if let PartPlan::Duo {
            regular,
            copy: CopyZipPart::PartialCopy { copy_start_byte, .. },
        } = part {
            let c = fill_count(before.1, copy_start_byte as int, 0) as int;
            lemma_infos_len_concat(regular, before.1.take(c));
        }
    }
}

proof fn lemma_pad_pass_sound(parts: Seq<PartPlan>, queue: Seq<FileInfo>, n: nat)
    requires
        all_reach_minimum(parts),
        n <= parts.len(),
    ensures
        all_reach_minimum(pad_pass(parts, queue, n).0),
    decreases n,
{
    if n > 0 {
        lemma_pad_pass_sound(parts, queue, (n - 1) as nat);
        let before = pad_pass(parts, queue, (n - 1) as nat);
        let part = parts[n - 1];
        assert(halves_reach_minimum(part));
        if let PartPlan::Duo { regular, .. } = part {
            let c = fill_count(before.1, TARGET_PART_SIZE - infos_len(regular), 0) as int;
            lemma_infos_len_concat(regular, before.1.take(c));
        }
    }
}

proof fn lemma_remainder_pass_sound(parts: Seq<PartPlan>, queue: Seq<FileInfo>)
    requires
        all_reach_minimum(parts),
    ensures
        all_reach_minimum(remainder_pass(parts, queue)),
    decreases queue.len(),
{
    if queue.len() > 0 {
        let c = fill_count(queue, TARGET_PART_SIZE as int, 1) as int;
        filling_stops(queue, TARGET_PART_SIZE as int, 1);
        lemma_remainder_pass_sound(
            parts.push(PartPlan::Single(queue.take(c))),
            queue.skip(c),
        );
    }
}

/// In every duo of a layout both halves reach S3's minimum: the regular part with the
/// header of the copied file and what is downloaded of it, and what is copied.
pub proof fn duos_reach_minimum(infos: Seq<FileInfo>)
    ensures
        all_reach_minimum(layout_of(infos)),
{
    let duos = duo_pass(smallest_to_largest(infos), Seq::empty());
    let promoted_duos = promote_pass(duos.0, duos.1, duos.0.len());
    let padded_duos = pad_pass(promoted_duos.0, promoted_duos.1, promoted_duos.0.len());
    lemma_duo_pass_sound(smallest_to_largest(infos), Seq::empty());
    lemma_promote_pass_sound(duos.0, duos.1, duos.0.len());
    lemma_pad_pass_sound(promoted_duos.0, promoted_duos.1, promoted_duos.0.len());
    lemma_remainder_pass_sound(padded_duos.0, padded_duos.1);
}

} // verus!
