//! What the plan of one upload promises: which way an archive takes, which files are copied,
//! in which order they come, and what the numbers of the plan count.

use crate::listing_order::{
    large_key, lemma_kind_count, lemma_kind_distinct, lemma_listed_bigs_count, lemma_sorted_kind,
    listed_bigs, small_key,
};
use crate::plan::{
    batch_end, bigs_of, chaperone_span, copied_big_parts, copy_count, distinct_ids,
    every_file_is_placed_once, files_placed, full_layout, is_routing, is_single_plan,
    largest_first, layout_after, lemma_batch_end, lemma_bigs_and_smalls, lemma_distinct_permuted,
    lemma_layout_shape, part_models, place_big_spec, run_span, smallest_first, smalls_of,
    total_size, FileId, Layout, SinglePlan, SingleRouting, SourceFile,
};
use vstd::prelude::*;
use vstd::seq_lib::group_to_multiset_ensures;

verus! {

/// The sizes of all files together.
pub open spec fn sum_of_sizes(files: Seq<SourceFile>) -> int {
    files.map_values(|f: SourceFile| f.size as int).fold_left(
        0int,
        |sum: int, size: int| sum + size,
    )
}

proof fn lemma_sum_of_sizes(files: Seq<SourceFile>)
    ensures
        sum_of_sizes(files) == total_size(files),
    decreases files.len(),
{
    reveal_with_fuel(Seq::fold_left, 2);
    let sizes = files.map_values(|f: SourceFile| f.size as int);
    if files.len() > 0 {
        lemma_sum_of_sizes(files.drop_last());
        assert(sizes.drop_last() =~= files.drop_last().map_values(|f: SourceFile| f.size as int));
    }
}

/// An archive is built from copied parts exactly where some file has at least 5 MiB and all
/// of them together have at least 20 MiB; every other archive is streamed as a whole.
pub proof fn routing_goes_by_the_sizes(files: Seq<SourceFile>, routing: SingleRouting)
    requires
        is_routing(routing, files),
    ensures
        routing is SingleMpu <==> {
            &&& exists|i: int| 0 <= i < files.len() && #[trigger] files[i].size >= 5 * 1024 * 1024
            &&& sum_of_sizes(files) >= 20 * 1024 * 1024
        },
        routing is Fallback <==> !(routing is SingleMpu),
{
    lemma_sum_of_sizes(files);
    if exists|i: int| 0 <= i < files.len() && #[trigger] files[i].size >= 5 * 1024 * 1024 {
        let i = choose|i: int| 0 <= i < files.len() && #[trigger] files[i].size >= 5 * 1024 * 1024;
        assert(files[i].is_big());
    }
    if exists|i: int| 0 <= i < files.len() && #[trigger] files[i].is_big() {
        let i = choose|i: int| 0 <= i < files.len() && #[trigger] files[i].is_big();
        assert(files[i].size >= 5 * 1024 * 1024);
    }
}

/// Whether a file has at least 5 MiB.
pub open spec fn at_least_5_mib() -> spec_fn(SourceFile) -> bool {
    |f: SourceFile| f.size >= 5 * 1024 * 1024
}

/// The bigs are the files of at least 5 MiB, the largest first, and of two equal sizes the
/// lower identity; the smalls are all other files, the smallest first.
pub proof fn files_are_told_apart_by_size(files: Seq<SourceFile>)
    requires
        files.len() <= usize::MAX,
        distinct_ids(files),
    ensures
        bigs_of(files).to_multiset() == files.filter(at_least_5_mib()).to_multiset(),
        bigs_of(files).to_multiset().add(smalls_of(files).to_multiset()) == files.to_multiset(),
        forall|i: int, j: int|
            0 <= i < j < bigs_of(files).len() ==> (#[trigger] bigs_of(files)[i]).size > (
            #[trigger] bigs_of(files)[j]).size || bigs_of(files)[i].size == bigs_of(files)[j].size
                && bigs_of(files)[i].id.0 < bigs_of(files)[j].id.0,
        forall|i: int, j: int|
            0 <= i < j < smalls_of(files).len() ==> (#[trigger] smalls_of(files)[i]).size < (
            #[trigger] smalls_of(files)[j]).size || smalls_of(files)[i].size == smalls_of(
                files,
            )[j].size && smalls_of(files)[i].id.0 < smalls_of(files)[j].id.0,
        forall|i: int|
            0 <= i < smalls_of(files).len() ==> (#[trigger] smalls_of(files)[i]).size < 5 * 1024
                * 1024,
{
    broadcast use group_to_multiset_ensures;

    let bigs = bigs_of(files);
    let smalls = smalls_of(files);
    lemma_bigs_and_smalls(files);
    lemma_sorted_kind(files, true, largest_first(files), large_key());
    lemma_sorted_kind(files, false, smallest_first(files), small_key());
    lemma_kind_distinct(files, true, bigs);
    lemma_kind_distinct(files, false, smalls);
    assert(listed_bigs(files) == files.filter(at_least_5_mib())) by {
        assert((|f: SourceFile| f.is_big()) =~= at_least_5_mib());
    }
    assert forall|f: SourceFile|
        bigs.to_multiset().count(f) == listed_bigs(files).to_multiset().count(f) by {
        lemma_kind_count(files, true, f);
        lemma_listed_bigs_count(files, f);
    }
    assert(bigs.to_multiset() =~= listed_bigs(files).to_multiset());
    assert forall|i: int, j: int| 0 <= i < j < bigs.len() implies (#[trigger] bigs[i]).size > (
    #[trigger] bigs[j]).size || bigs[i].size == bigs[j].size && bigs[i].id.0 < bigs[j].id.0 by {
        assert(crate::listing_order::no_higher(large_key()(bigs[i]), large_key()(bigs[j])));
        assert(bigs[i].id != bigs[j].id);
    }
    assert forall|i: int, j: int| 0 <= i < j < smalls.len() implies (#[trigger] smalls[i]).size < (
    #[trigger] smalls[j]).size || smalls[i].size == smalls[j].size && smalls[i].id.0
        < smalls[j].id.0 by {
        assert(crate::listing_order::no_higher(small_key()(smalls[i]), small_key()(smalls[j])));
        assert(smalls[i].id != smalls[j].id);
    }
    assert forall|i: int| 0 <= i < smalls.len() implies (#[trigger] smalls[i]).size < 5 * 1024
        * 1024 by {
        assert(!smalls[i].is_big());
    }
}

proof fn lemma_batch_is_least(big: SourceFile, smalls: Seq<SourceFile>, i: int, j: int)
    requires
        0 <= i <= j <= smalls.len(),
    ensures
        forall|e: int|
            j <= e < batch_end(big, smalls, i, j) ==> chaperone_span(big, smalls, i, e) < 5 * 1024
                * 1024 && (e == i || #[trigger] chaperone_span(big, smalls, i, e) + (big.size - 5
                * 1024 * 1024) < 5 * 1024 * 1024),
    decreases smalls.len() - j,
{
    if batch_end(big, smalls, i, j) > j {
        lemma_batch_is_least(big, smalls, i, j + 1);
    }
}

/// A big is copied wherever it can be: it is streamed whole only where no small is left, and
/// those before it, its header, and all that it can spare do not make up a part of 5 MiB.
/// A copied big gives away no more than what is missing of 5 MiB in the part before it, and
/// keeps 5 MiB for itself. The part before it takes no more smalls than it needs, one at
/// least where some are left and the header alone is not enough.
pub proof fn bigs_are_copied_where_they_can_be(
    bigs: Seq<SourceFile>,
    smalls: Seq<SourceFile>,
    n: nat,
)
    requires
        n < bigs.len(),
        bigs[n as int].size >= 5 * 1024 * 1024,
    ensures
        ({
            let l = layout_after(bigs, smalls, n);
            let m = layout_after(bigs, smalls, n + 1);
            let big = bigs[n as int];
            let head = run_span(smalls, l.taken, m.taken) + big.header_span();
            let spare = big.size - 5 * 1024 * 1024;
            let less = run_span(smalls, l.taken, m.taken - 1) + big.header_span();
            &&& l.taken <= m.taken <= smalls.len()
            &&& if m.copyable == l.copyable.push(big.id) {
                &&& m.parts.len() == l.parts.len() + 2
                &&& m.parts.last() is Copy
                &&& m.parts.last()->id == big.id
                &&& m.parts.last()->copy_from == 0 || head + m.parts.last()->copy_from == 5 * 1024
                    * 1024
                &&& m.parts.last()->copy_from <= spare
                &&& head + m.parts.last()->copy_from >= 5 * 1024 * 1024
                &&& m.folded == l.folded
                &&& m.stolen == l.stolen + (if m.parts.last()->copy_from > 0 {
                    1nat
                } else {
                    0nat
                })
            } else {
                &&& m.copyable == l.copyable
                &&& m.taken == smalls.len()
                &&& head + spare < 5 * 1024 * 1024
                &&& m.parts.len() == l.parts.len() + 1
                &&& m.folded == l.folded + 1
                &&& m.stolen == l.stolen
            }
            &&& m.taken > l.taken ==> less < 5 * 1024 * 1024 && (m.taken - 1 == l.taken || less
                + spare < 5 * 1024 * 1024)
            &&& l.taken < smalls.len() && big.header_span() < 5 * 1024 * 1024 ==> m.taken > l.taken
            &&& m.placed.last() == (big, m.copyable == l.copyable)
        }),
{
    let l = layout_after(bigs, smalls, n);
    let m = layout_after(bigs, smalls, n + 1);
    let big = bigs[n as int];
    let i = l.taken;
    let j = m.taken;
    lemma_layout_shape(bigs, smalls, n);
    lemma_layout_shape(bigs, smalls, n + 1);
    lemma_batch_end(big, smalls, i, i);
    lemma_batch_is_least(big, smalls, i, i);
    assert(m == place_big_spec(l, big, smalls));
    assert(j == batch_end(big, smalls, i, i));
    assert(run_span(smalls, i, i) == 0);
    if j > i {
        assert(chaperone_span(big, smalls, i, j - 1) < 5 * 1024 * 1024);
    }
    assert(m.copyable.len() == l.copyable.len() ==> m.copyable != l.copyable.push(big.id));
    if m.copyable == l.copyable.push(big.id) {
        let parts = copied_big_parts(big, smalls, i, j, l.parts.len() + 1);
        assert(m.parts.last() == parts[1]);
    }
}

/// What the numbers of a plan count: every file is an entry, bigs are copied or streamed
/// whole, and each copied big is one copied part.
pub proof fn stats_count_the_plan(files: Seq<SourceFile>, plan: SinglePlan)
    requires
        files.len() <= usize::MAX,
        distinct_ids(files),
        is_single_plan(plan, files),
    ensures
        plan.order@.len() == files.len(),
        plan.stats.entries == files.len(),
        plan.stats.bigs == files.filter(at_least_5_mib()).len(),
        plan.stats.bigs + plan.stats.smalls == files.len(),
        plan.stats.parts == plan.parts@.len(),
        plan.stats.copy_parts == plan.copyable@.len(),
        plan.stats.copy_parts + plan.stats.stream_parts == plan.stats.parts,
        plan.stats.copy_parts + plan.stats.folded_bigs == plan.stats.bigs,
        plan.stats.stolen_bigs <= plan.stats.copy_parts,
{
    broadcast use group_to_multiset_ensures;

    let bigs = bigs_of(files);
    let smalls = smalls_of(files);
    let l = layout_after(bigs, smalls, bigs.len());
    let end = full_layout(bigs, smalls);
    lemma_bigs_and_smalls(files);
    lemma_layout_shape(bigs, smalls, bigs.len());
    files_are_told_apart_by_size(files);
    assert(bigs.to_multiset().len() == bigs.len());
    assert(files.filter(at_least_5_mib()).to_multiset().len() == files.filter(
        at_least_5_mib(),
    ).len());
    assert(end.parts.drop_last() =~= l.parts);
    assert(copy_count(end.parts) == copy_count(l.parts));
    assert(part_models(plan.parts@).len() == plan.parts@.len());
}

/// Whether a file with this identity is placed as copied.
spec fn placed_as_copy(placed: Seq<(SourceFile, bool)>, id: FileId) -> bool {
    exists|i: int|
        0 <= i < placed.len() && !(#[trigger] placed[i]).1 && placed[i].0.id == id
}

/// Whether the files that are placed as copied are those that are listed as such.
spec fn copies_marked(l: Layout) -> bool {
    &&& forall|i: int|
        0 <= i < l.placed.len() && !(#[trigger] l.placed[i]).1 ==> l.copyable.contains(
            l.placed[i].0.id,
        )
    &&& forall|c: int|
        0 <= c < l.copyable.len() ==> placed_as_copy(l.placed, #[trigger] l.copyable[c])
}

proof fn lemma_copies_marked(bigs: Seq<SourceFile>, smalls: Seq<SourceFile>, n: nat)
    requires
        n <= bigs.len(),
    ensures
        copies_marked(layout_after(bigs, smalls, n)),
    decreases n,
{
    if n > 0 {
        let big = bigs[n - 1];
        let l = layout_after(bigs, smalls, (n - 1) as nat);
        let m = layout_after(bigs, smalls, n);
        lemma_copies_marked(bigs, smalls, (n - 1) as nat);
        lemma_layout_shape(bigs, smalls, (n - 1) as nat);
        lemma_batch_end(big, smalls, l.taken, l.taken);
        assert(m == place_big_spec(l, big, smalls));
        assert forall|i: int| 0 <= i < m.placed.len() && !(#[trigger] m.placed[i]).1 implies
            m.copyable.contains(m.placed[i].0.id) by {
            if i < l.placed.len() {
                assert(m.placed[i] == l.placed[i]);
                let c = choose|c: int|
                    0 <= c < l.copyable.len() && l.copyable[c] == l.placed[i].0.id;
                assert(m.copyable[c] == l.placed[i].0.id);
            } else {
                assert(i == m.placed.len() - 1);
                assert(m.copyable.last() == big.id);
            }
        }
        assert forall|c: int| 0 <= c < m.copyable.len() implies placed_as_copy(
            m.placed,
            #[trigger] m.copyable[c],
        ) by {
            if c < l.copyable.len() {
                assert(m.copyable[c] == l.copyable[c]);
                let i = choose|i: int|
                    0 <= i < l.placed.len() && !(#[trigger] l.placed[i]).1 && l.placed[i].0.id
                        == l.copyable[c];
                assert(m.placed[i] == l.placed[i]);
            } else {
                let i = m.placed.len() - 1;
                assert(!m.placed[i].1 && m.placed[i].0.id == m.copyable[c]);
            }
        }
    }
}

/// Every file has its entry in the plan, under its own name and with its own size. The
/// checksum is still open, and the content is streamed unless the file is listed as copied.
pub proof fn entries_describe_the_files(files: Seq<SourceFile>, plan: SinglePlan, i: int)
    requires
        files.len() <= usize::MAX,
        distinct_ids(files),
        is_single_plan(plan, files),
        0 <= i < files.len(),
    ensures
        plan.order@.contains(files[i].id),
        plan.entries@.contains_key(files[i].id.0),
        plan.entries@[files[i].id.0].id == files[i].id,
        plan.entries@[files[i].id.0].name == files[i].name,
        plan.entries@[files[i].id.0].size == files[i].size,
        plan.entries@[files[i].id.0].crc is None,
        plan.entries@[files[i].id.0].streamed <==> !plan.copyable@.contains(files[i].id),
{
    broadcast use group_to_multiset_ensures;

    let bigs = bigs_of(files);
    let smalls = smalls_of(files);
    let l = layout_after(bigs, smalls, bigs.len());
    let end = full_layout(bigs, smalls);
    let placed = files_placed(end.placed);
    lemma_copies_marked(bigs, smalls, bigs.len());
    lemma_layout_shape(bigs, smalls, bigs.len());
    lemma_bigs_and_smalls(files);
    every_file_is_placed_once(files);
    lemma_distinct_permuted(files, placed);
    assert(files.to_multiset().count(files[i]) > 0);
    assert(placed.contains(files[i]));
    let p = choose|p: int| 0 <= p < placed.len() && placed[p] == files[i];
    assert(end.placed[p].0 == files[i]);
    assert(plan.order@[p] == files[i].id);
    assert(plan.entries@.contains_key(end.placed[p].0.id.0));
    let id = files[i].id;
    if !end.placed[p].1 {
        assert(end.placed[p] == l.placed[p]);
    } else if plan.copyable@.contains(id) {
        let c = choose|c: int| 0 <= c < l.copyable.len() && l.copyable[c] == id;
        let q = choose|q: int|
            0 <= q < l.placed.len() && !(#[trigger] l.placed[q]).1 && l.placed[q].0.id
                == l.copyable[c];
        assert(end.placed[q] == l.placed[q]);
        assert(placed[q].id == placed[p].id);
    }
}

} // verus!
