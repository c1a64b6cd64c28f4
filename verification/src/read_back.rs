//! What the archivers write, a reader of the archive reads.
//!
//! Every archiver puts the archive together in its own way. Here each of them meets the
//! reader: it finds every file, once, with its name, its checksum and its content.

use crate::assemble::{directory_of, order_records, order_span};
use crate::assemble_chain::chain_records;
use crate::control::{accepted_names_are_the_expected_ones, entries_in_order, still_expected};
use crate::plan::{
    bigs_of, contents_match, distinct_ids, entry_bytes, every_file_is_placed_once, files_placed,
    full_layout, is_single_plan, parts_make_the_archive, placed_bytes, placed_offset, run_span,
    smalls_of, upload_bytes, Contents, Entry, FileId, SinglePlan, SourceFile,
};
use crate::plan_chain::{
    chain_order, chain_smalls_of, chains_make_the_archive, entries_bytes,
    every_file_is_chained_once, is_chain_plan, stitched_bytes, ChainPlan,
};
use crate::stream_fallback::{crc32, finished_archive, meta_records, StreamedArchive};
use crate::zip_format::{end_records_bytes, local_header_length};
use crate::zip_reading::{
    item_bytes, item_fits, item_offset, items_archive, items_bytes, items_found, items_records,
    made_archives_are_read, read_archive, Item, ZipEntry,
};
use vstd::prelude::*;
use vstd::seq_lib::group_to_multiset_ensures;

verus! {

/// The files as entries of an archive, in this order.
pub open spec fn file_items(order: Seq<SourceFile>, contents: Contents) -> Seq<Item> {
    Seq::new(
        order.len(),
        |i: int|
            Item {
                name: order[i].name_bytes(),
                size: order[i].size,
                crc: (contents.crc)(order[i].id),
                body: (contents.body)(order[i].id),
            },
    )
}

/// The files fit the format: their names and sizes can be told, in this order.
pub open spec fn files_fit(order: Seq<SourceFile>, contents: Contents) -> bool {
    forall|i: int| 0 <= i < order.len() ==> #[trigger] item_fits(file_items(order, contents), i)
}

/// What a reader should find of the files.
pub open spec fn files_found(order: Seq<SourceFile>, contents: Contents) -> Seq<ZipEntry> {
    Seq::new(
        order.len(),
        |i: int|
            ZipEntry {
                name: order[i].name_bytes(),
                crc: (contents.crc)(order[i].id) as nat,
                content: (contents.body)(order[i].id),
            },
    )
}

proof fn lemma_found(order: Seq<SourceFile>, contents: Contents)
    ensures
        items_found(file_items(order, contents)) == files_found(order, contents),
{
    assert(items_found(file_items(order, contents)) =~= files_found(order, contents));
}

proof fn lemma_items_are_entries(order: Seq<SourceFile>, contents: Contents, n: nat)
    requires
        n <= order.len(),
        contents_match(order, contents),
    ensures
        items_bytes(file_items(order, contents), n) == entries_bytes(
            order.take(n as int),
            contents,
        ),
        items_bytes(file_items(order, contents), n).len() == run_span(order, 0, n as int),
    decreases n,
{
    let items = file_items(order, contents);
    if n == 0 {
        assert(order.take(0) =~= Seq::empty());
    } else {
        lemma_items_are_entries(order, contents, (n - 1) as nat);
        let f = order[n - 1];
        assert(order.take(n as int).drop_last() =~= order.take(n - 1));
        assert(item_bytes(items[n - 1]) == entry_bytes(f, contents));
        local_header_length(f.name_bytes(), f.size, (contents.crc)(f.id));
        assert((contents.body)(order[n - 1].id).len() == f.size);
    }
}

/// Contents that match the files match any order of them.
proof fn lemma_contents_match_order(
    order: Seq<SourceFile>,
    files: Seq<SourceFile>,
    contents: Contents,
)
    requires
        order.to_multiset() == files.to_multiset(),
        contents_match(files, contents),
    ensures
        contents_match(order, contents),
{
    broadcast use group_to_multiset_ensures;

    assert forall|i: int| 0 <= i < order.len() implies #[trigger] (contents.body)(
        order[i].id,
    ).len() == order[i].size by {
        assert(order.contains(order[i]));
        assert(files.to_multiset().count(order[i]) > 0);
        let k = choose|k: int| 0 <= k < files.len() && files[k] == order[i];
        assert((contents.body)(files[k].id).len() == files[k].size);
    }
}

proof fn lemma_placed_are_entries(placed: Seq<(SourceFile, bool)>, contents: Contents)
    ensures
        placed_bytes(placed, contents) == entries_bytes(files_placed(placed), contents),
    decreases placed.len(),
{
    let files = files_placed(placed);
    if placed.len() > 0 {
        lemma_placed_are_entries(placed.drop_last(), contents);
        assert(files.drop_last() =~= files_placed(placed.drop_last()));
    }
}

proof fn lemma_placed_offset(placed: Seq<(SourceFile, bool)>, i: int)
    requires
        0 <= i <= placed.len(),
    ensures
        placed_offset(placed, i) == run_span(files_placed(placed), 0, i),
    decreases i,
{
    if i > 0 {
        lemma_placed_offset(placed, i - 1);
    }
}

/// `entries` are the planned ones with the checksums of the contents filled in.
pub open spec fn checksums_filled(
    entries: Map<u32, Entry>,
    planned: Map<u32, Entry>,
    order: Seq<FileId>,
    contents: Contents,
) -> bool {
    forall|i: int|
        #![trigger order[i]]
        0 <= i < order.len() ==> {
            let e = entries[order[i].0];
            let p = planned[order[i].0];
            &&& e.name == p.name
            &&& e.size == p.size
            &&& e.local_header_offset == p.local_header_offset
            &&& e.crc == Some((contents.crc)(order[i]))
        }
}

proof fn lemma_order_records(
    plan: SinglePlan,
    files: Seq<SourceFile>,
    contents: Contents,
    entries: Map<u32, Entry>,
    n: int,
)
    requires
        is_single_plan(plan, files),
        checksums_filled(entries, plan.entries@, plan.order@, contents),
        ({
            let order = files_placed(full_layout(bigs_of(files), smalls_of(files)).placed);
            &&& contents_match(order, contents)
            &&& run_span(order, 0, order.len() as int) <= u64::MAX
            &&& 0 <= n <= order.len()
        }),
    ensures
        ({
            let order = files_placed(full_layout(bigs_of(files), smalls_of(files)).placed);
            &&& order_records(entries, plan.order@, n) == items_records(
                file_items(order, contents),
                n as nat,
            )
            &&& order_span(entries, plan.order@, n) == run_span(order, 0, n)
        }),
    decreases n,
{
    let placed = full_layout(bigs_of(files), smalls_of(files)).placed;
    let order = files_placed(placed);
    if n > 0 {
        lemma_order_records(plan, files, contents, entries, n - 1);
        let i = n - 1;
        let id = plan.order@[i];
        assert(id == placed[i].0.id);
        assert(plan.entries@.contains_key(placed[i].0.id.0));
        lemma_placed_offset(placed, i);
        lemma_items_are_entries(order, contents, i as nat);
        assert(entries[id.0].name == order[i].name);
    }
}

/// An archive that is built in one upload is read: whatever the parts were, a reader finds
/// every file, in the order of the plan.
pub proof fn planned_archives_are_read(
    plan: SinglePlan,
    files: Seq<SourceFile>,
    contents: Contents,
    entries: Map<u32, Entry>,
)
    requires
        files.len() <= usize::MAX,
        distinct_ids(files),
        is_single_plan(plan, files),
        contents_match(files, contents),
        checksums_filled(entries, plan.entries@, plan.order@, contents),
        ({
            let l = full_layout(bigs_of(files), smalls_of(files));
            let directory = directory_of(entries, plan.order@);
            &&& files_fit(files_placed(l.placed), contents)
            &&& upload_bytes(files, contents, directory, l.parts).len() <= u64::MAX
        }),
    ensures
        ({
            let l = full_layout(bigs_of(files), smalls_of(files));
            let directory = directory_of(entries, plan.order@);
            let order = files_placed(l.placed);
            &&& read_archive(upload_bytes(files, contents, directory, l.parts)) == Some(
                files_found(order, contents),
            )
            &&& order.to_multiset() == files.to_multiset()
        }),
{
    let l = full_layout(bigs_of(files), smalls_of(files));
    let order = files_placed(l.placed);
    let directory = directory_of(entries, plan.order@);
    let items = file_items(order, contents);
    let n = order.len();
    parts_make_the_archive(files, contents, directory);
    every_file_is_placed_once(files);
    lemma_contents_match_order(order, files, contents);
    lemma_placed_are_entries(l.placed, contents);
    lemma_items_are_entries(order, contents, n);
    assert(order.take(n as int) =~= order);
    lemma_order_records(plan, files, contents, entries, n as int);
    assert(upload_bytes(files, contents, directory, l.parts) =~= items_archive(items));
    made_archives_are_read(items);
    lemma_found(order, contents);
}

/// The checksums of all files have come.
pub open spec fn checksums_known(
    crcs: Map<u32, u32>,
    order: Seq<SourceFile>,
    contents: Contents,
) -> bool {
    forall|i: int|
        #![trigger order[i]]
        0 <= i < order.len() ==> crcs.contains_key(order[i].id.0) && crcs[order[i].id.0] == (
        contents.crc)(order[i].id)
}

proof fn lemma_chain_records(
    plan: ChainPlan,
    files: Seq<SourceFile>,
    contents: Contents,
    crcs: Map<u32, u32>,
    n: int,
)
    requires
        is_chain_plan(plan, files),
        ({
            let bigs = bigs_of(files);
            let order = chain_order(bigs, chain_smalls_of(files), bigs.len());
            &&& contents_match(order, contents)
            &&& checksums_known(crcs, order, contents)
            &&& run_span(order, 0, order.len() as int) <= u64::MAX
            &&& 0 <= n <= order.len()
        }),
    ensures
        ({
            let bigs = bigs_of(files);
            let order = chain_order(bigs, chain_smalls_of(files), bigs.len());
            chain_records(plan.order@, plan.entries@, crcs, n) == Ok::<Seq<u8>, Seq<char>>(
                items_records(file_items(order, contents), n as nat),
            )
        }),
    decreases n,
{
    let bigs = bigs_of(files);
    let order = chain_order(bigs, chain_smalls_of(files), bigs.len());
    if n > 0 {
        lemma_chain_records(plan, files, contents, crcs, n - 1);
        let i = n - 1;
        assert(plan.order@[i] == order[i].id);
        assert(plan.entries@.contains_key(order[i].id.0));
        lemma_items_are_entries(order, contents, i as nat);
        assert(crcs.contains_key(order[i].id.0));
    }
}

/// An archive that is stitched together from chains is read: a reader finds every file, in
/// the order of the plan. Its directory is `chain_records` with the end records behind it.
pub proof fn chained_archives_are_read(
    plan: ChainPlan,
    files: Seq<SourceFile>,
    contents: Contents,
    crcs: Map<u32, u32>,
)
    requires
        files.len() <= usize::MAX,
        distinct_ids(files),
        bigs_of(files).len() > 0,
        is_chain_plan(plan, files),
        contents_match(files, contents),
        ({
            let bigs = bigs_of(files);
            let smalls = chain_smalls_of(files);
            let order = chain_order(bigs, smalls, bigs.len());
            &&& checksums_known(crcs, order, contents)
            &&& files_fit(order, contents)
            &&& items_archive(file_items(order, contents)).len() <= u64::MAX
        }),
    ensures
        ({
            let bigs = bigs_of(files);
            let smalls = chain_smalls_of(files);
            let order = chain_order(bigs, smalls, bigs.len());
            let records = chain_records(
                plan.order@,
                plan.entries@,
                crcs,
                plan.order@.len() as int,
            );
            let directory = records->Ok_0 + end_records_bytes(
                plan.order@.len() as u64,
                plan.cd_offset,
                records->Ok_0.len() as u64,
            );
            &&& records is Ok
            &&& read_archive(
                stitched_bytes(files, contents, bigs, smalls, bigs.len()) + directory,
            ) == Some(files_found(order, contents))
            &&& order.to_multiset() == files.to_multiset()
        }),
{
    let bigs = bigs_of(files);
    let smalls = chain_smalls_of(files);
    let order = chain_order(bigs, smalls, bigs.len());
    let items = file_items(order, contents);
    let n = order.len();
    chains_make_the_archive(files, contents);
    every_file_is_chained_once(files);
    lemma_contents_match_order(order, files, contents);
    lemma_items_are_entries(order, contents, n);
    assert(order.take(n as int) =~= order);
    lemma_chain_records(plan, files, contents, crcs, n as int);
    let entries = items_bytes(items, n);
    let records = items_records(items, n);
    crate::plan::lemma_total_span_permuted(order, files);
    crate::plan::lemma_run_span_is_total(order);
    assert(plan.cd_offset == entries.len());
    let end = end_records_bytes(n as u64, plan.cd_offset, records.len() as u64);
    assert(entries + (records + end) =~= items_archive(items));
    made_archives_are_read(items);
    lemma_found(order, contents);
}

/// A streamed archive holds these entries so far.
pub open spec fn streamed_holds(streamed: StreamedArchive, items: Seq<Item>) -> bool {
    &&& streamed.archive@ == items_bytes(items, items.len())
    &&& streamed.metas@.len() == items.len()
    &&& forall|i: int|
        0 <= i < items.len() ==> {
            &&& (#[trigger] streamed.metas@[i]).name_bytes() == items[i].name
            &&& streamed.metas@[i].size == items[i].size
            &&& streamed.metas@[i].crc == items[i].crc
            &&& streamed.metas@[i].local_header_offset == item_offset(items, i)
        }
}

proof fn lemma_items_prefix(a: Seq<Item>, b: Seq<Item>, n: nat)
    requires
        n <= a.len(),
        n <= b.len(),
        forall|i: int| 0 <= i < n ==> a[i] == b[i],
    ensures
        items_bytes(a, n) == items_bytes(b, n),
    decreases n,
{
    if n > 0 {
        lemma_items_prefix(a, b, (n - 1) as nat);
    }
}

/// Adding a file to a streamed archive adds one entry behind the others: the file's name and
/// size, with the checksum of its content.
pub proof fn streaming_adds_an_entry(
    before: StreamedArchive,
    after: StreamedArchive,
    items: Seq<Item>,
    file: SourceFile,
    body: Seq<u8>,
)
    requires
        streamed_holds(before, items),
        after.metas@.len() == before.metas@.len() + 1,
        after.metas@.drop_last() == before.metas@,
        before.is_next_meta(after.metas@.last(), file, crc32(body)),
        after.archive@ == before.archive@ + after.metas@.last().local_header_spec() + body,
    ensures
        streamed_holds(
            after,
            items.push(
                Item { name: file.name_bytes(), size: file.size, crc: crc32(body), body },
            ),
        ),
{
    let item = Item { name: file.name_bytes(), size: file.size, crc: crc32(body), body };
    let more = items.push(item);
    let n = items.len();
    assert forall|k: nat| k <= n implies items_bytes(more, k) == items_bytes(items, k) by {
        lemma_items_prefix(more, items, k);
    }
    assert(after.archive@ =~= items_bytes(more, more.len()));
    assert forall|i: int| 0 <= i < more.len() implies {
        &&& (#[trigger] after.metas@[i]).name_bytes() == more[i].name
        &&& after.metas@[i].size == more[i].size
        &&& after.metas@[i].crc == more[i].crc
        &&& after.metas@[i].local_header_offset == item_offset(more, i)
    } by {
        assert(items_bytes(more, i as nat) == items_bytes(items, i as nat));
        if i < n {
            assert(after.metas@[i] == after.metas@.drop_last()[i]);
            assert(before.metas@[i].name_bytes() == items[i].name);
        }
    }
}

proof fn lemma_meta_records(streamed: StreamedArchive, items: Seq<Item>, n: nat)
    requires
        streamed_holds(streamed, items),
        streamed.archive@.len() <= u64::MAX,
        n <= items.len(),
    ensures
        meta_records(streamed.metas@, n) == items_records(items, n),
    decreases n,
{
    if n > 0 {
        lemma_meta_records(streamed, items, (n - 1) as nat);
        assert(streamed.metas@[n - 1].name_bytes() == items[n - 1].name);
    }
}

/// A streamed archive is read: a reader finds every entry, in order.
pub proof fn streamed_archives_are_read(streamed: StreamedArchive, items: Seq<Item>)
    requires
        streamed_holds(streamed, items),
        forall|i: int| 0 <= i < items.len() ==> #[trigger] item_fits(items, i),
        items_archive(items).len() <= u64::MAX,
    ensures
        read_archive(finished_archive(streamed.archive@, streamed.metas@)) == Some(
            items_found(items),
        ),
{
    lemma_meta_records(streamed, items, items.len());
    assert(finished_archive(streamed.archive@, streamed.metas@) =~= items_archive(items));
    made_archives_are_read(items);
}

/// The names of the files.
pub open spec fn names_of(files: Seq<SourceFile>) -> Set<Seq<char>> {
    Set::new(
        |name: Seq<char>|
            exists|i: int| 0 <= i < files.len() && #[trigger] files[i].name@ == name,
    )
}

/// Two files with one name are one file at one place.
proof fn lemma_names_permuted(files: Seq<SourceFile>, order: Seq<SourceFile>, i: int, j: int)
    requires
        order.to_multiset() == files.to_multiset(),
        forall|a: int, b: int|
            0 <= a < b < files.len() ==> #[trigger] files[a].name@ != #[trigger] files[b].name@,
        0 <= i < j < order.len(),
    ensures
        order[i].name@ != order[j].name@,
{
    broadcast use group_to_multiset_ensures;

    assert(files.no_duplicates()) by {
        assert forall|a: int, b: int| 0 <= a < b < files.len() implies files[a] != files[b] by {
            assert(files[a].name@ != files[b].name@);
        }
    }
    files.lemma_multiset_has_no_duplicates();
    assert forall|x: SourceFile| order.to_multiset().contains(x) implies order.to_multiset().count(
        x,
    ) == 1 by {}
    order.lemma_multiset_has_no_duplicates_conv();
    assert(order.contains(order[i]) && order.contains(order[j]));
    assert(files.to_multiset().count(order[i]) > 0 && files.to_multiset().count(order[j]) > 0);
    let p = choose|p: int| 0 <= p < files.len() && files[p] == order[i];
    let q = choose|q: int| 0 <= q < files.len() && files[q] == order[j];
    assert(p != q);
    if p < q {
        assert(files[p].name@ != files[q].name@);
    } else {
        assert(files[q].name@ != files[p].name@);
    }
}

/// An archive of files with different names, all of them flat, passes the control of its
/// names: they are those of the files, in whatever order the files were put.
pub proof fn made_archives_pass_control(
    files: Seq<SourceFile>,
    order: Seq<SourceFile>,
    names: Seq<String>,
)
    requires
        order.to_multiset() == files.to_multiset(),
        forall|i: int| 0 <= i < files.len() ==> !(#[trigger] files[i].name@).contains('/'),
        forall|i: int, j: int|
            0 <= i < j < files.len() ==> #[trigger] files[i].name@ != #[trigger] files[j].name@,
        names.len() == order.len(),
        forall|i: int| 0 <= i < names.len() ==> (#[trigger] names[i])@ == order[i].name@,
    ensures
        entries_in_order(names_of(files), names, names.len()),
        still_expected(names_of(files), names, names.len()) == Set::<Seq<char>>::empty(),
{
    broadcast use group_to_multiset_ensures;

    assert forall|i: int| 0 <= i < names.len() implies !(#[trigger] names[i]@).contains('/')
        && names_of(files).contains(names[i]@) by {
        assert(order.contains(order[i]));
        assert(files.to_multiset().count(order[i]) > 0);
        let k = choose|k: int| 0 <= k < files.len() && files[k] == order[i];
        assert(files[k].name@ == names[i]@);
    }
    assert forall|i: int, j: int| 0 <= i < j < names.len() implies #[trigger] names[i]@
        != #[trigger] names[j]@ by {
        lemma_names_permuted(files, order, i, j);
    }
    assert forall|name: Seq<char>| #[trigger] names_of(files).contains(name) implies exists|i: int|
        0 <= i < names.len() && #[trigger] names[i]@ == name by {
        let k = choose|k: int| 0 <= k < files.len() && #[trigger] files[k].name@ == name;
        assert(files.contains(files[k]));
        assert(order.to_multiset().count(files[k]) > 0);
        let i = choose|i: int| 0 <= i < order.len() && order[i] == files[k];
        assert(names[i]@ == name);
    }
    accepted_names_are_the_expected_ones(names_of(files), names);
}

} // verus!
