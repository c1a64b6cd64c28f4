//! Order in the plans: they depend on the files alone, not on the order in which these are
//! listed, the segments of a chain plan come largest anchor first, and the smalls are dealt
//! to them evenly.

use crate::plan::{
    bigs_of, distinct_ids, entries_of, full_layout, is_routing, is_single_plan, largest_first,
    lemma_distinct_permuted, lemma_has_big, lemma_positions, lemma_positions_cover,
    lemma_sorted_positions, lemma_total_span_permuted, part_models, plannable, planned_entry, positions, smallest_first,
    smalls_of, total_size, viable, Entry, SinglePlan, SingleRouting, SourceFile,
};
use crate::plan_chain::{
    append_links, by_identity, chain_entries_of, chain_entry, chain_order, chain_plannable,
    chain_smalls_of, dealt, deepest_chain, every_file_is_chained_once, is_chain_outcome,
    is_chain_plan, links_total, segment_links, segment_models, segment_pieces, segment_smalls,
    small_pieces, ChainPlan, Link, Piece, PlanError, Segment,
};
use crate::sorting::{key_order, key_order_is_total, lemma_picked_permuted, picked};
use vstd::prelude::*;
use vstd::relations::sorted_by;
use vstd::seq_lib::group_to_multiset_ensures;

verus! {

/// What files are sorted by.
pub type SortKey = spec_fn(SourceFile) -> (u64, u64);

/// Whether key `a` is no higher than key `b`.
pub open spec fn no_higher(a: (u64, u64), b: (u64, u64)) -> bool {
    a.0 < b.0 || a.0 == b.0 && a.1 <= b.1
}

/// Whether the keys of the files rise.
pub open spec fn in_order(files: Seq<SourceFile>, key: SortKey) -> bool {
    forall|i: int, j: int|
        0 <= i < j < files.len() ==> no_higher(key(#[trigger] files[i]), key(#[trigger] files[j]))
}

/// Whether files with the same key have the same identity.
pub open spec fn tells_apart(key: SortKey) -> bool {
    forall|a: SourceFile, b: SourceFile| #[trigger] key(a) == #[trigger] key(b) ==> a.id == b.id
}

/// Files with distinct identities can be put in order in one way only.
proof fn lemma_one_order(a: Seq<SourceFile>, b: Seq<SourceFile>, key: SortKey)
    requires
        a.to_multiset() == b.to_multiset(),
        distinct_ids(a),
        distinct_ids(b),
        in_order(a, key),
        in_order(b, key),
        tells_apart(key),
    ensures
        a == b,
    decreases a.len(),
{
    broadcast use group_to_multiset_ensures;

    assert(a.to_multiset().len() == a.len());
    assert(b.to_multiset().len() == b.len());
    if a.len() > 0 {
        let x = a.last();
        let y = b.last();
        assert(b.to_multiset().count(x) > 0) by {
            assert(a.contains(x));
        }
        assert(a.to_multiset().count(y) > 0) by {
            assert(b.contains(y));
        }
        assert(b.contains(x));
        assert(a.contains(y));
        let i = choose|i: int| 0 <= i < b.len() && b[i] == x;
        let j = choose|j: int| 0 <= j < a.len() && a[j] == y;
        assert(no_higher(key(x), key(y))) by {
            if i < b.len() - 1 {
                assert(no_higher(key(b[i]), key(b[b.len() - 1])));
            }
        }
        assert(no_higher(key(y), key(x))) by {
            if j < a.len() - 1 {
                assert(no_higher(key(a[j]), key(a[a.len() - 1])));
            }
        }
        assert(key(x) == key(y));
        assert(b[i].id == b[b.len() - 1].id);
        assert(i == b.len() - 1);
        let s = a.drop_last();
        let t = b.drop_last();
        assert(s =~= a.remove(a.len() - 1));
        assert(t =~= b.remove(b.len() - 1));
        assert(s.to_multiset() =~= t.to_multiset());
        assert(distinct_ids(s)) by {
            assert forall|p: int, q: int|
                0 <= p < s.len() && 0 <= q < s.len() && #[trigger] s[p].id
                    == #[trigger] s[q].id implies p == q by {
                assert(a[p].id == a[q].id);
            }
        }
        assert(distinct_ids(t)) by {
            assert forall|p: int, q: int|
                0 <= p < t.len() && 0 <= q < t.len() && #[trigger] t[p].id
                    == #[trigger] t[q].id implies p == q by {
                assert(b[p].id == b[q].id);
            }
        }
        lemma_one_order(s, t, key);
        assert(a =~= s.push(x));
        assert(b =~= t.push(y));
    } else {
        assert(a =~= b);
    }
}

/// The files of one kind, sorted: their keys rise, and they are the files of that kind.
pub(crate) proof fn lemma_sorted_kind(
    files: Seq<SourceFile>,
    big: bool,
    keys: Seq<(u64, u64)>,
    key: SortKey,
)
    requires
        files.len() <= usize::MAX,
        keys.len() == files.len(),
        forall|i: int| 0 <= i < files.len() ==> #[trigger] keys[i] == key(files[i]),
    ensures
        ({
            let picks = positions(files, big, files.len());
            let sorted = picked(files, picks.sort_by(key_order(keys)));
            &&& in_order(sorted, key)
            &&& sorted.to_multiset() == picked(files, picks).to_multiset()
        }),
{
    let picks = positions(files, big, files.len());
    let leq = key_order(keys);
    let order = picks.sort_by(leq);
    let sorted = picked(files, order);
    key_order_is_total(keys);
    picks.lemma_sort_by_ensures(leq);
    lemma_sorted_positions(files, big, order);
    lemma_picked_permuted(files, order, picks);
    assert forall|i: int, j: int| 0 <= i < j < sorted.len() implies no_higher(
        key(#[trigger] sorted[i]),
        key(#[trigger] sorted[j]),
    ) by {
        assert(sorted_by(order, leq));
        assert(leq(order[i], order[j]));
        assert(keys[order[i] as int] == key(files[order[i] as int]));
        assert(keys[order[j] as int] == key(files[order[j] as int]));
    }
}

/// How often a file stands among those of one kind.
pub(crate) proof fn lemma_kind_count(files: Seq<SourceFile>, big: bool, f: SourceFile)
    requires
        files.len() <= usize::MAX,
    ensures
        picked(files, positions(files, big, files.len())).to_multiset().count(f) == (
        if f.is_big() == big {
            files.to_multiset().count(f)
        } else {
            0
        }),
{
    broadcast use group_to_multiset_ensures;

    let n = files.len();
    lemma_positions_cover(files, n);
    assert(files.take(n as int) =~= files);
    assert forall|kind: bool| f.is_big() != kind implies #[trigger] picked(
        files,
        positions(files, kind, n),
    ).to_multiset().count(f) == 0 by {
        lemma_positions(files, kind, n);
        let own = picked(files, positions(files, kind, n));
        if own.contains(f) {
            let i = choose|i: int| 0 <= i < own.len() && own[i] == f;
            assert(files[positions(files, kind, n)[i] as int].is_big() == kind);
        }
    }
    let bigs = picked(files, positions(files, true, n)).to_multiset();
    let smalls = picked(files, positions(files, false, n)).to_multiset();
    assert(bigs.add(smalls).count(f) == files.to_multiset().count(f));
    assert(bigs.count(f) + smalls.count(f) == files.to_multiset().count(f));
}

proof fn lemma_same_kind(files: Seq<SourceFile>, other: Seq<SourceFile>, big: bool)
    requires
        files.len() <= usize::MAX,
        files.to_multiset() == other.to_multiset(),
    ensures
        files.len() == other.len(),
        picked(files, positions(files, big, files.len())).to_multiset() == picked(
            other,
            positions(other, big, other.len()),
        ).to_multiset(),
{
    broadcast use group_to_multiset_ensures;

    assert(files.to_multiset().len() == files.len());
    assert(other.to_multiset().len() == other.len());
    let a = picked(files, positions(files, big, files.len())).to_multiset();
    let b = picked(other, positions(other, big, other.len())).to_multiset();
    assert forall|f: SourceFile| a.count(f) == b.count(f) by {
        lemma_kind_count(files, big, f);
        lemma_kind_count(other, big, f);
    }
    assert(a =~= b);
}

/// Some of the files, each at most as often as it is there, have distinct identities.
pub(crate) proof fn lemma_kind_distinct(files: Seq<SourceFile>, big: bool, own: Seq<SourceFile>)
    requires
        files.len() <= usize::MAX,
        distinct_ids(files),
        own.to_multiset() == picked(files, positions(files, big, files.len())).to_multiset(),
    ensures
        distinct_ids(own),
{
    broadcast use group_to_multiset_ensures;

    let kind = picked(files, positions(files, big, files.len()));
    let rest = picked(files, positions(files, !big, files.len()));
    lemma_positions_cover(files, files.len());
    assert(files.take(files.len() as int) =~= files);
    let all = own + rest;
    vstd::seq_lib::lemma_multiset_commutative(own, rest);
    assert(all.to_multiset() =~= files.to_multiset()) by {
        assert(own.to_multiset().add(rest.to_multiset()) =~= files.to_multiset());
    }
    lemma_distinct_permuted(files, all);
    assert forall|i: int, j: int|
        0 <= i < own.len() && 0 <= j < own.len() && #[trigger] own[i].id
            == #[trigger] own[j].id implies i == j by {
        assert(all[i].id == all[j].id);
    }
}

/// The files of one kind are sorted alike, however they were listed.
proof fn lemma_same_sorted(
    files: Seq<SourceFile>,
    other: Seq<SourceFile>,
    big: bool,
    keys: Seq<(u64, u64)>,
    other_keys: Seq<(u64, u64)>,
    key: SortKey,
)
    requires
        files.len() <= usize::MAX,
        distinct_ids(files),
        files.to_multiset() == other.to_multiset(),
        tells_apart(key),
        keys.len() == files.len(),
        other_keys.len() == other.len(),
        forall|i: int| 0 <= i < files.len() ==> #[trigger] keys[i] == key(files[i]),
        forall|i: int| 0 <= i < other.len() ==> #[trigger] other_keys[i] == key(other[i]),
    ensures
        picked(files, positions(files, big, files.len()).sort_by(key_order(keys))) == picked(
            other,
            positions(other, big, other.len()).sort_by(key_order(other_keys)),
        ),
{
    lemma_same_kind(files, other, big);
    lemma_distinct_permuted(files, other);
    lemma_sorted_kind(files, big, keys, key);
    lemma_sorted_kind(other, big, other_keys, key);
    let a = picked(files, positions(files, big, files.len()).sort_by(key_order(keys)));
    let b = picked(other, positions(other, big, other.len()).sort_by(key_order(other_keys)));
    lemma_kind_distinct(files, big, a);
    lemma_kind_distinct(other, big, b);
    lemma_one_order(a, b, key);
}

/// Puts the largest file first, and of two equal sizes the lower identity.
pub open spec fn large_key() -> SortKey {
    |f: SourceFile| ((u64::MAX - f.size) as u64, f.id.0 as u64)
}

/// Puts the smallest file first, and of two equal sizes the lower identity.
pub open spec fn small_key() -> SortKey {
    |f: SourceFile| (f.size, f.id.0 as u64)
}

/// Puts the lower identity first.
spec fn id_key() -> SortKey {
    |f: SourceFile| (f.id.0 as u64, 0u64)
}

proof fn lemma_same_files(files: Seq<SourceFile>, other: Seq<SourceFile>)
    requires
        files.len() <= usize::MAX,
        distinct_ids(files),
        files.to_multiset() == other.to_multiset(),
    ensures
        files.len() == other.len(),
        distinct_ids(other),
        bigs_of(files) == bigs_of(other),
        smalls_of(files) == smalls_of(other),
        chain_smalls_of(files) == chain_smalls_of(other),
{
    lemma_same_kind(files, other, true);
    lemma_distinct_permuted(files, other);
    lemma_same_sorted(
        files,
        other,
        true,
        largest_first(files),
        largest_first(other),
        large_key(),
    );
    lemma_same_sorted(
        files,
        other,
        false,
        smallest_first(files),
        smallest_first(other),
        small_key(),
    );
    lemma_same_sorted(files, other, false, by_identity(files), by_identity(other), id_key());
}

proof fn lemma_total_size_remove(files: Seq<SourceFile>, i: int)
    requires
        0 <= i < files.len(),
    ensures
        total_size(files) == total_size(files.remove(i)) + files[i].size,
    decreases files.len(),
{
    if i == files.len() - 1 {
        assert(files.remove(i) =~= files.drop_last());
    } else {
        lemma_total_size_remove(files.drop_last(), i);
        assert(files.remove(i).drop_last() =~= files.drop_last().remove(i));
    }
}

proof fn lemma_total_size_permuted(a: Seq<SourceFile>, b: Seq<SourceFile>)
    requires
        a.to_multiset() == b.to_multiset(),
    ensures
        total_size(a) == total_size(b),
    decreases a.len(),
{
    broadcast use group_to_multiset_ensures;

    assert(a.to_multiset().len() == a.len());
    assert(b.to_multiset().len() == b.len());
    if a.len() > 0 {
        let x = a.last();
        assert(b.to_multiset().count(x) > 0) by {
            assert(a.contains(x));
        }
        assert(b.contains(x));
        let i = choose|i: int| 0 <= i < b.len() && b[i] == x;
        assert(a.drop_last() =~= a.remove(a.len() - 1));
        assert(a.drop_last().to_multiset() =~= b.remove(i).to_multiset());
        lemma_total_size_permuted(a.drop_last(), b.remove(i));
        lemma_total_size_remove(b, i);
    }
}

/// Whether one of the files is a big does not depend on their order.
proof fn lemma_same_has_big(files: Seq<SourceFile>, other: Seq<SourceFile>)
    requires
        files.to_multiset() == other.to_multiset(),
    ensures
        (exists|i: int| 0 <= i < files.len() && #[trigger] files[i].is_big()) ==> exists|i: int|
            0 <= i < other.len() && #[trigger] other[i].is_big(),
{
    broadcast use group_to_multiset_ensures;

    if exists|i: int| 0 <= i < files.len() && #[trigger] files[i].is_big() {
        let i = choose|i: int| 0 <= i < files.len() && #[trigger] files[i].is_big();
        assert(files.contains(files[i]));
        assert(other.to_multiset().count(files[i]) > 0);
        assert(other.contains(files[i]));
        let j = choose|j: int| 0 <= j < other.len() && other[j] == files[i];
        assert(other[j].is_big());
    }
}

/// Two plans for one upload say the same.
pub open spec fn same_single_plan(p: SinglePlan, q: SinglePlan) -> bool {
    &&& p.order@ == q.order@
    &&& p.entries@ == q.entries@
    &&& part_models(p.parts@) == part_models(q.parts@)
    &&& p.copyable@ == q.copyable@
    &&& p.stats == q.stats
}

proof fn lemma_same_entries(
    a: Map<u32, Entry>,
    b: Map<u32, Entry>,
    placed: Seq<(SourceFile, bool)>,
)
    requires
        entries_of(a, placed, placed.len() as int),
        entries_of(b, placed, placed.len() as int),
    ensures
        a == b,
{
    assert forall|id: u32| #[trigger] a.contains_key(id) == b.contains_key(id) && (
    a.contains_key(id) ==> a[id] == b[id]) by {
        if a.contains_key(id) {
            let i = choose|i: int|
                0 <= i < placed.len() && #[trigger] placed[i].0.id.0 == id;
            assert(a.contains_key(placed[i].0.id.0) && b.contains_key(placed[i].0.id.0));
            assert(a[id] == planned_entry(placed, i));
        }
        if b.contains_key(id) {
            let i = choose|i: int|
                0 <= i < placed.len() && #[trigger] placed[i].0.id.0 == id;
            assert(a.contains_key(placed[i].0.id.0) && b.contains_key(placed[i].0.id.0));
        }
    }
    assert(a =~= b);
}

/// The plan for one upload is made from the files alone: however they are listed, either
/// both listings are streamed, or both have the same plan.
pub proof fn listing_order_keeps_the_single_plan(
    files: Seq<SourceFile>,
    other: Seq<SourceFile>,
    routing: SingleRouting,
    other_routing: SingleRouting,
)
    requires
        files.len() <= usize::MAX,
        distinct_ids(files),
        files.to_multiset() == other.to_multiset(),
        is_routing(routing, files),
        is_routing(other_routing, other),
    ensures
        plannable(files) == plannable(other),
        match (routing, other_routing) {
            (SingleRouting::SingleMpu(p), SingleRouting::SingleMpu(q)) => same_single_plan(p, q),
            (SingleRouting::Fallback, SingleRouting::Fallback) => true,
            _ => false,
        },
{
    lemma_same_files(files, other);
    lemma_total_size_permuted(files, other);
    lemma_total_span_permuted(files, other);
    lemma_same_has_big(files, other);
    lemma_same_has_big(other, files);
    assert(viable(files) == viable(other));
    if let SingleRouting::SingleMpu(p) = routing {
        if let SingleRouting::SingleMpu(q) = other_routing {
            assert(is_single_plan(p, files) && is_single_plan(q, other));
            let l = full_layout(bigs_of(files), smalls_of(files));
            lemma_same_entries(p.entries@, q.entries@, l.placed);
        }
    }
}

/// Two chain plans say the same.
pub open spec fn same_chain_plan(p: ChainPlan, q: ChainPlan) -> bool {
    &&& p.order@ == q.order@
    &&& p.entries@ == q.entries@
    &&& segment_models(p.segments@) == segment_models(q.segments@)
    &&& p.cd_offset == q.cd_offset
    &&& p.cd_size == q.cd_size
    &&& p.crc_heads@ == q.crc_heads@
    &&& p.stats == q.stats
}

proof fn lemma_same_chain_entries(
    a: Map<u32, crate::plan_chain::Entry>,
    b: Map<u32, crate::plan_chain::Entry>,
    order: Seq<SourceFile>,
)
    requires
        chain_entries_of(a, order, order.len() as int),
        chain_entries_of(b, order, order.len() as int),
    ensures
        a == b,
{
    assert forall|id: u32| #[trigger] a.contains_key(id) == b.contains_key(id) && (
    a.contains_key(id) ==> a[id] == b[id]) by {
        if a.contains_key(id) {
            let i = choose|i: int| 0 <= i < order.len() && #[trigger] order[i].id.0 == id;
            assert(a.contains_key(order[i].id.0) && b.contains_key(order[i].id.0));
            assert(a[id] == chain_entry(order, i));
        }
        if b.contains_key(id) {
            let i = choose|i: int| 0 <= i < order.len() && #[trigger] order[i].id.0 == id;
            assert(a.contains_key(order[i].id.0) && b.contains_key(order[i].id.0));
        }
    }
    assert(a =~= b);
}

/// The chain plan is made from the files alone: however they are listed, either both
/// listings are refused alike, or both have the same plan.
pub proof fn listing_order_keeps_the_chain_plan(
    files: Seq<SourceFile>,
    other: Seq<SourceFile>,
    outcome: Result<ChainPlan, PlanError>,
    other_outcome: Result<ChainPlan, PlanError>,
)
    requires
        files.len() <= usize::MAX,
        distinct_ids(files),
        files.to_multiset() == other.to_multiset(),
        is_chain_outcome(outcome, files),
        is_chain_outcome(other_outcome, other),
    ensures
        chain_plannable(files) == chain_plannable(other),
        match (outcome, other_outcome) {
            (Ok(p), Ok(q)) => same_chain_plan(p, q),
            (Err(e), Err(f)) => e == f,
            _ => false,
        },
{
    lemma_same_files(files, other);
    lemma_total_span_permuted(files, other);
    lemma_same_has_big(files, other);
    lemma_same_has_big(other, files);
    if let Ok(p) = outcome {
        if let Ok(q) = other_outcome {
            assert(is_chain_plan(p, files) && is_chain_plan(q, other));
            let bigs = bigs_of(files);
            let order = chain_order(bigs, chain_smalls_of(files), bigs.len());
            lemma_same_chain_entries(p.entries@, q.entries@, order);
        }
    }
}

/// Whether `a` comes before `b` among the bigs: it is larger, or as large and of the lower
/// identity.
pub open spec fn larger_first(a: SourceFile, b: SourceFile) -> bool {
    a.size > b.size || a.size == b.size && a.id.0 < b.id.0
}

/// The bigs of a listing, as they are listed.
pub open spec fn listed_bigs(files: Seq<SourceFile>) -> Seq<SourceFile> {
    files.filter(|f: SourceFile| f.is_big())
}

pub(crate) proof fn lemma_listed_bigs_count(files: Seq<SourceFile>, f: SourceFile)
    ensures
        listed_bigs(files).to_multiset().count(f) == (if f.is_big() {
            files.to_multiset().count(f)
        } else {
            0
        }),
    decreases files.len(),
{
    broadcast use group_to_multiset_ensures;

    let big = |f: SourceFile| f.is_big();
    reveal(Seq::filter);
    if files.len() > 0 {
        let rest = files.drop_last();
        lemma_listed_bigs_count(rest, f);
        assert(files =~= rest.push(files.last()));
        assert(listed_bigs(files) == if big(files.last()) {
            listed_bigs(rest).push(files.last())
        } else {
            listed_bigs(rest)
        });
    }
}

/// A chain plan has one segment for each big: the anchors are the bigs of the listing, the
/// largest first, and of two equal sizes the lower identity.
pub proof fn anchors_come_largest_first(files: Seq<SourceFile>, plan: ChainPlan)
    requires
        files.len() <= usize::MAX,
        distinct_ids(files),
        is_chain_plan(plan, files),
    ensures
        plan.segments@.len() == listed_bigs(files).len(),
        plan.stats.bigs == plan.segments@.len(),
        bigs_of(files).len() == plan.segments@.len(),
        bigs_of(files).to_multiset() == listed_bigs(files).to_multiset(),
        forall|k: int|
            0 <= k < plan.segments@.len() ==> (#[trigger] plan.segments@[k]).anchor == bigs_of(
                files,
            )[k].id,
        forall|i: int, j: int|
            0 <= i < j < plan.segments@.len() ==> larger_first(
                #[trigger] bigs_of(files)[i],
                #[trigger] bigs_of(files)[j],
            ),
{
    broadcast use group_to_multiset_ensures;

    let bigs = bigs_of(files);
    lemma_sorted_kind(files, true, largest_first(files), large_key());
    assert forall|f: SourceFile|
        bigs.to_multiset().count(f) == listed_bigs(files).to_multiset().count(f) by {
        lemma_kind_count(files, true, f);
        lemma_listed_bigs_count(files, f);
    }
    assert(bigs.to_multiset() =~= listed_bigs(files).to_multiset());
    assert(bigs.to_multiset().len() == bigs.len());
    assert(listed_bigs(files).to_multiset().len() == listed_bigs(files).len());
    assert(segment_models(plan.segments@).len() == bigs.len());
    assert forall|k: int| 0 <= k < plan.segments@.len() implies (
    #[trigger] plan.segments@[k]).anchor == bigs[k].id by {
        assert(segment_models(plan.segments@)[k] == plan.segments@[k]@);
    }
    lemma_kind_distinct(files, true, bigs);
    assert forall|i: int, j: int| 0 <= i < j < plan.segments@.len() implies larger_first(
        #[trigger] bigs[i],
        #[trigger] bigs[j],
    ) by {
        assert(no_higher(large_key()(bigs[i]), large_key()(bigs[j])));
        assert(bigs[i].id != bigs[j].id);
    }
}

/// Whether a link appends a content.
pub open spec fn appends_body(link: Link) -> bool {
    match link {
        Link::AnchorThenAppend { piece, .. } => piece is Body,
        Link::ForwardThenAppend { piece } => piece is Body,
        _ => false,
    }
}

/// How many contents the links append.
pub open spec fn appended_bodies(links: Seq<Link>) -> nat
    decreases links.len(),
{
    if links.len() == 0 {
        0
    } else {
        appended_bodies(links.drop_last()) + if appends_body(links.last()) {
            1nat
        } else {
            0nat
        }
    }
}

/// How many of the pieces are contents.
spec fn bodies(pieces: Seq<Piece>) -> nat
    decreases pieces.len(),
{
    if pieces.len() == 0 {
        0
    } else {
        bodies(pieces.drop_last()) + if pieces.last() is Body {
            1nat
        } else {
            0nat
        }
    }
}

proof fn lemma_small_bodies(smalls: Seq<SourceFile>)
    ensures
        bodies(small_pieces(smalls)) == smalls.len(),
    decreases smalls.len(),
{
    if smalls.len() > 0 {
        lemma_small_bodies(smalls.drop_last());
        let before = small_pieces(smalls.drop_last());
        let header = before.push(Piece::Header(smalls.last().id));
        let all = header.push(Piece::Body(smalls.last().id));
        assert(all.drop_last() =~= header);
        assert(header.drop_last() =~= before);
        assert(bodies(header) == bodies(before));
        assert(bodies(all) == bodies(header) + 1);
    }
}

proof fn lemma_linked_bodies(first: Link, pieces: Seq<Piece>)
    ensures
        appended_bodies(seq![first] + append_links(pieces)) == bodies(pieces) + (if appends_body(
            first,
        ) {
            1nat
        } else {
            0nat
        }),
    decreases pieces.len(),
{
    let links = seq![first] + append_links(pieces);
    if pieces.len() == 0 {
        assert(links =~= seq![first]);
        assert(seq![first].drop_last() =~= Seq::<Link>::empty());
        reveal_with_fuel(appended_bodies, 2);
    } else {
        lemma_linked_bodies(first, pieces.drop_last());
        assert(links.drop_last() =~= seq![first] + append_links(pieces.drop_last()));
    }
}

proof fn lemma_first_body(pieces: Seq<Piece>)
    requires
        pieces.len() > 0,
    ensures
        bodies(pieces) == bodies(pieces.drop_first()) + (if pieces[0] is Body {
            1nat
        } else {
            0nat
        }),
    decreases pieces.len(),
{
    if pieces.len() == 1 {
        assert(pieces.drop_first() =~= Seq::<Piece>::empty());
        assert(pieces.drop_last() =~= Seq::<Piece>::empty());
    } else {
        lemma_first_body(pieces.drop_last());
        assert(pieces.drop_first().drop_last() =~= pieces.drop_last().drop_first());
    }
}

/// A segment appends as many contents as it has smalls.
proof fn lemma_segment_bodies(bigs: Seq<SourceFile>, smalls: Seq<SourceFile>, k: int)
    requires
        0 <= k < bigs.len(),
    ensures
        appended_bodies(segment_links(bigs, smalls, k)) == segment_smalls(bigs, smalls, k).len(),
{
    let own = small_pieces(segment_smalls(bigs, smalls, k));
    let pieces = segment_pieces(bigs, smalls, k);
    lemma_small_bodies(segment_smalls(bigs, smalls, k));
    if k + 1 < bigs.len() {
        assert(pieces.drop_last() =~= own);
    }
    assert(bodies(pieces) == bodies(own));
    let links = segment_links(bigs, smalls, k);
    if k == 0 {
        lemma_linked_bodies(links[0], pieces);
    } else if pieces.len() == 0 {
        lemma_linked_bodies(links[0], pieces);
        assert(links =~= seq![links[0]] + append_links(pieces));
    } else {
        lemma_linked_bodies(links[0], pieces.drop_first());
        lemma_first_body(pieces);
    }
}

/// Length of the share of segment `k` when `m` smalls are dealt round to `n` segments.
pub open spec fn share(n: nat, k: int, m: nat) -> nat {
    m / n + if k < m % n {
        1nat
    } else {
        0nat
    }
}

proof fn lemma_dealt_share(smalls: Seq<SourceFile>, n: nat, k: int, m: nat)
    requires
        0 <= k < n,
    ensures
        dealt(smalls, n, k, m).len() == share(n, k, m),
    decreases m,
{
    if m == 0 {
        vstd::arithmetic::div_mod::lemma_small_mod(0, n);
        vstd::arithmetic::div_mod::lemma_basic_div(0, n as int);
    } else {
        let l = (m - 1) as nat;
        lemma_dealt_share(smalls, n, k, l);
        let q = l as int / n as int;
        let r = l as int % n as int;
        vstd::arithmetic::div_mod::lemma_fundamental_div_mod(l as int, n as int);
        vstd::arithmetic::div_mod::lemma_mod_bound(l as int, n as int);
        if r + 1 < n {
            assert(m == q * n + (r + 1)) by (nonlinear_arith)
                requires
                    l == n * q + r,
                    m == l + 1,
            ;
            vstd::arithmetic::div_mod::lemma_fundamental_div_mod_converse(
                m as int,
                n as int,
                q,
                r + 1,
            );
        } else {
            assert(m == (q + 1) * n + 0) by (nonlinear_arith)
                requires
                    l == n * q + r,
                    m == l + 1,
                    r + 1 == n,
            ;
            vstd::arithmetic::div_mod::lemma_fundamental_div_mod_converse(
                m as int,
                n as int,
                q + 1,
                0,
            );
        }
    }
}

/// The smalls are dealt evenly: each segment of a chain plan appends its share of their
/// contents, and the shares of two segments differ by at most one.
pub proof fn shares_are_even(files: Seq<SourceFile>, plan: ChainPlan, a: int, b: int)
    requires
        is_chain_plan(plan, files),
        0 <= a < plan.segments@.len(),
        0 <= b < plan.segments@.len(),
    ensures
        appended_bodies(plan.segments@[a].links@) == share(
            plan.segments@.len(),
            a,
            plan.stats.smalls as nat,
        ),
        appended_bodies(plan.segments@[a].links@) <= appended_bodies(plan.segments@[b].links@) + 1,
{
    let bigs = bigs_of(files);
    let smalls = chain_smalls_of(files);
    assert(segment_models(plan.segments@).len() == bigs.len());
    assert(segment_models(plan.segments@)[a] == plan.segments@[a]@);
    assert(segment_models(plan.segments@)[b] == plan.segments@[b]@);
    lemma_segment_bodies(bigs, smalls, a);
    lemma_segment_bodies(bigs, smalls, b);
    lemma_dealt_share(smalls, bigs.len(), a, smalls.len());
    lemma_dealt_share(smalls, bigs.len(), b, smalls.len());
}

/// The smalls of a chain plan are all files below 5 MiB, the lower identity first.
pub proof fn chained_smalls_come_by_identity(files: Seq<SourceFile>)
    requires
        files.len() <= usize::MAX,
        distinct_ids(files),
    ensures
        chain_smalls_of(files).len() + bigs_of(files).len() == files.len(),
        forall|i: int|
            0 <= i < chain_smalls_of(files).len() ==> (#[trigger] chain_smalls_of(files)[i]).size
                < 5 * 1024 * 1024,
        forall|i: int, j: int|
            0 <= i < j < chain_smalls_of(files).len() ==> (#[trigger] chain_smalls_of(
                files,
            )[i]).id.0 < (#[trigger] chain_smalls_of(files)[j]).id.0,
{
    let smalls = chain_smalls_of(files);
    crate::plan_chain::lemma_chain_smalls(files);
    lemma_sorted_kind(files, false, by_identity(files), id_key());
    lemma_kind_distinct(files, false, smalls);
    let picks = positions(files, false, files.len());
    let order = picks.sort_by(key_order(by_identity(files)));
    key_order_is_total(by_identity(files));
    picks.lemma_sort_by_ensures(key_order(by_identity(files)));
    lemma_sorted_positions(files, false, order);
    assert forall|i: int| 0 <= i < smalls.len() implies (#[trigger] smalls[i]).size < 5 * 1024
        * 1024 by {
        assert(!files[order[i] as int].is_big());
    }
    assert forall|i: int, j: int| 0 <= i < j < smalls.len() implies (#[trigger] smalls[i]).id.0 < (
    #[trigger] smalls[j]).id.0 by {
        assert(no_higher(id_key()(smalls[i]), id_key()(smalls[j])));
        assert(smalls[i].id != smalls[j].id);
    }
}

/// What is dealt of the first `m` smalls comes in turn.
proof fn lemma_dealt_in_turn(smalls: Seq<SourceFile>, n: nat, k: int, m: nat, j: int)
    requires
        0 <= k < n,
        m <= smalls.len(),
        0 <= j < dealt(smalls, n, k, m).len(),
    ensures
        0 <= j * n + k < m,
        dealt(smalls, n, k, m)[j] == smalls[j * n + k],
    decreases m,
{
    if m > 0 {
        let l = (m - 1) as nat;
        lemma_dealt_share(smalls, n, k, l);
        if j < dealt(smalls, n, k, l).len() {
            lemma_dealt_in_turn(smalls, n, k, l, j);
        } else {
            vstd::arithmetic::div_mod::lemma_fundamental_div_mod(l as int, n as int);
            assert(j == l as int / n as int);
            assert(j * n + k == l) by (nonlinear_arith)
                requires
                    l == n * j + k,
            ;
        }
    }
}

/// The smalls go round: the first to the first segment, the next to the next, and when every
/// segment has one, to the first again. Within a segment they keep their order.
pub proof fn smalls_go_round(bigs: Seq<SourceFile>, smalls: Seq<SourceFile>, k: int, j: int)
    requires
        0 <= k < bigs.len(),
        0 <= j,
    ensures
        j < segment_smalls(bigs, smalls, k).len() <==> j * bigs.len() + k < smalls.len(),
        j * bigs.len() + k < smalls.len() ==> segment_smalls(bigs, smalls, k)[j] == smalls[j
            * bigs.len() + k],
{
    let n = bigs.len();
    let m = smalls.len();
    lemma_dealt_share(smalls, n, k, m);
    let own = segment_smalls(bigs, smalls, k);
    if j < own.len() {
        lemma_dealt_in_turn(smalls, n, k, m, j);
    } else {
        vstd::arithmetic::div_mod::lemma_fundamental_div_mod(m as int, n as int);
        let q = m as int / n as int;
        let r = m as int % n as int;
        if k < r {
            assert(j * n + k >= m) by (nonlinear_arith)
                requires
                    m == n * q + r,
                    j >= q + 1,
                    0 <= k,
                    r < n,
                    n > 0,
            ;
        } else {
            assert(j * n + k >= m) by (nonlinear_arith)
                requires
                    m == n * q + r,
                    j >= q,
                    k >= r,
                    n > 0,
            ;
        }
    }
}

proof fn lemma_links_counted(
    bigs: Seq<SourceFile>,
    smalls: Seq<SourceFile>,
    segments: Seq<Segment>,
    k: nat,
)
    requires
        k <= segments.len(),
        forall|i: int|
            0 <= i < segments.len() ==> (#[trigger] segments[i]).links@ == segment_links(
                bigs,
                smalls,
                i,
            ),
    ensures
        links_total(bigs, smalls, k) == segments.take(k as int).map_values(
            |s: Segment| s.links@.len() as int,
        ).fold_left(0int, |sum: int, links: int| sum + links),
        forall|i: int|
            0 <= i < k ==> (#[trigger] segments[i]).links@.len() <= deepest_chain(bigs, smalls, k),
        k > 0 ==> exists|i: int|
            0 <= i < k && (#[trigger] segments[i]).links@.len() == deepest_chain(bigs, smalls, k),
    decreases k,
{
    let len = |s: Segment| s.links@.len() as int;
    let now = segments.take(k as int).map_values(len);
    if k > 0 {
        lemma_links_counted(bigs, smalls, segments, (k - 1) as nat);
        assert(now.drop_last() =~= segments.take(k - 1).map_values(len));
        assert(now.last() == segments[k - 1].links@.len());
        assert(segments[k - 1].links@ == segment_links(bigs, smalls, k - 1));
    }
}

/// What the numbers of a chain plan count: every file is an entry whose checksum is asked
/// for, every big has a segment, and the links are those of all segments, the longest chain
/// setting the depth.
pub proof fn chain_stats_count_the_plan(files: Seq<SourceFile>, plan: ChainPlan)
    requires
        files.len() <= usize::MAX,
        distinct_ids(files),
        is_chain_outcome(Ok(plan), files),
    ensures
        plan.order@.len() == files.len(),
        plan.crc_heads@ == plan.order@,
        plan.stats.entries == files.len(),
        plan.stats.bigs + plan.stats.smalls == files.len(),
        plan.stats.segments == plan.segments@.len(),
        plan.stats.bigs == plan.segments@.len(),
        plan.stats.links == plan.segments@.map_values(
            |s: Segment| s.links@.len() as int,
        ).fold_left(0int, |sum: int, links: int| sum + links),
        forall|i: int|
            0 <= i < plan.segments@.len() ==> (#[trigger] plan.segments@[i]).links@.len()
                <= plan.stats.max_chain_depth,
        plan.segments@.len() > 0 ==> exists|i: int|
            0 <= i < plan.segments@.len() && (#[trigger] plan.segments@[i]).links@.len()
                == plan.stats.max_chain_depth,
        forall|i: int|
            0 <= i < plan.segments@.len() ==> (#[trigger] plan.segments@[i]).index == i,
{
    broadcast use group_to_multiset_ensures;

    let bigs = bigs_of(files);
    let smalls = chain_smalls_of(files);
    let models = segment_models(plan.segments@);
    chained_smalls_come_by_identity(files);
    lemma_has_big(files, files.len());
    key_order_is_total(largest_first(files));
    positions(files, true, files.len()).lemma_sort_by_ensures(key_order(largest_first(files)));
    let picks = positions(files, true, files.len());
    let order = picks.sort_by(key_order(largest_first(files)));
    assert(order.to_multiset().len() == picks.to_multiset().len());
    assert(bigs.len() == order.len());
    every_file_is_chained_once(files);
    let entries = chain_order(bigs, smalls, bigs.len());
    assert(entries.to_multiset().len() == files.to_multiset().len());
    assert(models.len() == plan.segments@.len());
    assert forall|i: int| 0 <= i < plan.segments@.len() implies (
    #[trigger] plan.segments@[i]).links@ == segment_links(bigs, smalls, i)
        && plan.segments@[i].index == i by {
        assert(models[i] == plan.segments@[i]@);
    }
    lemma_links_counted(bigs, smalls, plan.segments@, bigs.len());
    assert(plan.segments@.take(bigs.len() as int) =~= plan.segments@);
}

/// There is a chain plan exactly where some file has at least 5 MiB; where there is none, the
/// error counts all files.
pub proof fn chains_need_a_big(result: Result<ChainPlan, PlanError>, files: Seq<SourceFile>)
    requires
        is_chain_outcome(result, files),
    ensures
        result is Ok <==> exists|i: int|
            0 <= i < files.len() && (#[trigger] files[i]).size >= 5 * 1024 * 1024,
        result matches Err(PlanError::NoBigs { smalls }) ==> smalls == files.len(),
{
    assert forall|i: int| 0 <= i < files.len() implies ((#[trigger] files[i]).size >= 5 * 1024
        * 1024) == files[i].is_big() by {}
}

} // verus!
