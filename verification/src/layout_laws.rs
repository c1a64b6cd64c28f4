//! What a layout in pairs of parts promises: every large file is copied as far as the others
//! allow it, nothing is downloaded for want of files that are at hand, and parts have the
//! size that they should.

use crate::sorting::{
    all_positions, key_leq, key_order, key_order_is_total, sorted_positions_are_all,
};
use crate::zip_layout::{
    after_big, big_unit, by_size, copied_file, copy_at, copy_start, duo_count, duo_pass, ends_big,
    fill_count, filling_stops, infos_len, layout_of, least_regular, lemma_infos_len_concat,
    pad_pass, padded, promote_pass, promoted, remainder_pass, size_order, smallest_to_largest,
    CopyZipPart, FileInfo, PartPlan, TARGET_PART_SIZE,
};
use vstd::prelude::*;

verus! {

/// The sizes rise.
pub open spec fn ascending(files: Seq<FileInfo>) -> bool {
    forall|i: int, j: int|
        0 <= i < j < files.len() ==> (#[trigger] files[i]).size <= (#[trigger] files[j]).size
}

/// No file has 5 MiB.
pub open spec fn none_large(files: Seq<FileInfo>) -> bool {
    forall|i: int| 0 <= i < files.len() ==> (#[trigger] files[i]).size < 5 * 1024 * 1024
}

/// What has to go before a file so that, with its header and all but 5 MiB of it, it makes up
/// 5 MiB.
pub open spec fn missing_before(file: FileInfo) -> int {
    5 * 1024 * 1024 - file.loc_len() - (file.size - 5 * 1024 * 1024)
}

/// A pair as it should be: the copied file has at least 5 MiB, none before it is larger, and
/// these come smallest first. There is enough before it, a file of 5 MiB or more only where
/// the smaller ones are not enough, and without the last of them less than 10 MiB. Where
/// part of the copied file is downloaded, it is exactly what is missing of 5 MiB.
pub open spec fn pair_sound(regular: Seq<FileInfo>, copy: CopyZipPart) -> bool {
    let file = copied_file(copy);
    &&& regular.len() > 0
    &&& file.size >= 5 * 1024 * 1024
    &&& ascending(regular)
    &&& forall|j: int| 0 <= j < regular.len() ==> (#[trigger] regular[j]).size <= file.size
    &&& infos_len(regular) >= missing_before(file)
    &&& forall|j: int|
        0 < j < regular.len() && (#[trigger] regular[j]).size >= 5 * 1024 * 1024 ==> infos_len(
            regular.take(j),
        ) < missing_before(file)
    &&& infos_len(regular.drop_last()) < 10 * 1024 * 1024
    &&& match copy {
        CopyZipPart::FullCopy(_) => infos_len(regular) + file.loc_len() >= 5 * 1024 * 1024,
        CopyZipPart::PartialCopy { copy_start_byte, .. } => copy_start_byte > 0 && infos_len(
            regular,
        ) + file.loc_len() + copy_start_byte == 5 * 1024 * 1024,
    }
}

/// A part that holds a file of 5 MiB or more without copying it: all that is before its
/// largest file is not enough to go before it.
pub open spec fn folded_sound(files: Seq<FileInfo>) -> bool {
    &&& files.len() > 0
    &&& files.last().size >= 5 * 1024 * 1024
    &&& ascending(files)
    &&& files.len() == 1 || infos_len(files.drop_last()) < missing_before(files.last())
}

/// A part of small files: smallest first, and without the last of them less than 10 MiB.
pub open spec fn packed_sound(files: Seq<FileInfo>) -> bool {
    &&& files.len() > 0
    &&& none_large(files)
    &&& ascending(files)
    &&& infos_len(files.drop_last()) < 10 * 1024 * 1024
}

/// A unit that stands while `queue` is left.
spec fn unit_ok(part: PartPlan, queue: Seq<FileInfo>) -> bool {
    match part {
        PartPlan::Duo { regular, copy } => pair_sound(regular, copy) && goes_before(regular, queue),
        PartPlan::Single(files) => folded_sound(files) && queue.len() == 0,
    }
}

/// No file of the first list is larger than one of the second.
spec fn goes_before(regular: Seq<FileInfo>, queue: Seq<FileInfo>) -> bool {
    forall|j: int, q: int|
        0 <= j < regular.len() && 0 <= q < queue.len() ==> (#[trigger] regular[j]).size <= (
        #[trigger] queue[q]).size
}

spec fn suffix_of(q: Seq<FileInfo>, queue: Seq<FileInfo>) -> bool {
    &&& q.len() <= queue.len()
    &&& forall|i: int|
        0 <= i < q.len() ==> #[trigger] q[i] == queue[i + queue.len() - q.len()]
}

/// The two units copy the same file, or are the same.
spec fn same_copy(a: PartPlan, b: PartPlan) -> bool {
    match (a, b) {
        (PartPlan::Duo { copy: x, .. }, PartPlan::Duo { copy: y, .. }) => copied_file(x)
            == copied_file(y),
        _ => a == b,
    }
}

/// Copied files come largest first.
pub open spec fn copies_descend(parts: Seq<PartPlan>) -> bool {
    forall|i: int, j: int|
        0 <= i < j < parts.len() ==> match (#[trigger] parts[i], #[trigger] parts[j]) {
            (PartPlan::Duo { copy: a, .. }, PartPlan::Duo { copy: b, .. }) => copied_file(a).size
                >= copied_file(b).size,
            _ => true,
        }
}

proof fn lemma_fill_is_least(queue: Seq<FileInfo>, need: int, t: nat)
    requires
        t <= queue.len(),
    ensures
        forall|j: int|
            t <= j < fill_count(queue, need, t) ==> infos_len(#[trigger] queue.take(j)) < need,
    decreases queue.len() - t,
{
    if !(t >= queue.len() || infos_len(queue.take(t as int)) >= need) {
        lemma_fill_is_least(queue, need, t + 1);
    }
}

proof fn lemma_sorted(infos: Seq<FileInfo>)
    requires
        infos.len() <= usize::MAX,
    ensures
        ascending(smallest_to_largest(infos)),
        smallest_to_largest(infos).len() == infos.len(),
{
    let keys = by_size(infos);
    let queue = smallest_to_largest(infos);
    let order = size_order(infos);
    sorted_positions_are_all(keys);
    key_order_is_total(keys);
    all_positions(keys.len()).lemma_sort_by_ensures(key_order(keys));
    assert forall|i: int, j: int| 0 <= i < j < queue.len() implies (#[trigger] queue[i]).size <= (
    #[trigger] queue[j]).size by {
        assert(key_leq(keys, order[i], order[j])) by {
            let leq = key_order(keys);
            assert(leq(order[i], order[j]));
        }
    }
}

#[verifier::rlimit(40)]
proof fn lemma_duo_unit(rest: Seq<FileInfo>, big: FileInfo)
    requires
        ascending(rest.push(big)),
        big.size >= 5 * 1024 * 1024,
    ensures
        unit_ok(big_unit(big, rest), after_big(big, rest)),
        suffix_of(after_big(big, rest), rest),
        big_unit(big, rest) matches PartPlan::Duo { copy, .. } ==> copied_file(copy) == big,
{
    let all = rest.push(big);
    let after = after_big(big, rest);
    assert(least_regular(big) == missing_before(big));
    assert forall|i: int, j: int| 0 <= i < j < rest.len() implies (#[trigger] rest[i]).size <= (
    #[trigger] rest[j]).size by {
        assert(all[i].size <= all[j].size);
    }
    if rest.len() == 0 {
        assert(all.last() == big);
    } else {
        let c = duo_count(big, rest) as int;
        let regular = rest.take(c);
        filling_stops(rest, least_regular(big), 1);
        lemma_fill_is_least(rest, least_regular(big), 1);
        if infos_len(regular) >= least_regular(big) {
            let copy = copy_at(big, copy_start(big, infos_len(regular)));
            assert forall|j: int| 0 <= j < regular.len() implies (#[trigger] regular[j]).size
                <= copied_file(copy).size by {
                assert(all[j].size <= all[rest.len() as int].size);
            }
            assert forall|j: int|
                0 < j < regular.len() && (#[trigger] regular[j]).size >= 5 * 1024
                    * 1024 implies infos_len(regular.take(j)) < missing_before(
                copied_file(copy),
            ) by {
                assert(regular.take(j) =~= rest.take(j));
            }
            assert(regular.drop_last() =~= rest.take(c - 1));
            if c == 1 {
                assert(rest.take(0) =~= Seq::empty());
            } else {
                assert(infos_len(rest.take(c - 1)) < least_regular(big));
            }
            assert(pair_sound(regular, copy));
        } else {
            assert(c == rest.len());
            assert(rest.take(c) =~= rest);
            assert(all.drop_last() =~= rest);
        }
    }
}

/// What holds while pairs are made.
spec fn pairs_wf(parts: Seq<PartPlan>, queue: Seq<FileInfo>) -> bool {
    &&& ascending(queue)
    &&& forall|i: int| 0 <= i < parts.len() ==> unit_ok(#[trigger] parts[i], queue)
    &&& forall|i: int, q: int|
        0 <= i < parts.len() && 0 <= q < queue.len() ==> (#[trigger] parts[i] matches PartPlan::Duo {
            copy,
            ..
        } ==> copied_file(copy).size >= (#[trigger] queue[q]).size)
    &&& copies_descend(parts)
    &&& forall|i: int| 0 <= i < parts.len() - 1 ==> (#[trigger] parts[i]) is Duo
}

proof fn lemma_unit_kept(part: PartPlan, queue: Seq<FileInfo>, q: Seq<FileInfo>)
    requires
        unit_ok(part, queue),
        suffix_of(q, queue),
    ensures
        unit_ok(part, q),
{
    if let PartPlan::Duo { regular, copy } = part {
        assert forall|j: int, i: int|
            0 <= j < regular.len() && 0 <= i < q.len() implies (#[trigger] regular[j]).size <= (
        #[trigger] q[i]).size by {
            assert(q[i] == queue[i + queue.len() - q.len()]);
        }
    }
}

proof fn lemma_pairs(queue: Seq<FileInfo>, parts: Seq<PartPlan>)
    requires
        pairs_wf(parts, queue),
    ensures
        pairs_wf(duo_pass(queue, parts).0, duo_pass(queue, parts).1),
        none_large(duo_pass(queue, parts).1),
    decreases queue.len(),
{
    if ends_big(queue) {
        let big = queue.last();
        let rest = queue.drop_last();
        let unit = big_unit(big, rest);
        let after = after_big(big, rest);
        let next = parts.push(unit);
        assert(rest.push(big) =~= queue);
        lemma_duo_unit(rest, big);
        assert(suffix_of(rest.take(rest.len() as int), rest));
        assert forall|i: int| 0 <= i < next.len() implies unit_ok(#[trigger] next[i], after) by {
            if i < parts.len() {
                assert(unit_ok(parts[i], queue));
                if let PartPlan::Duo { regular, copy } = parts[i] {
                    assert forall|j: int, q: int|
                        0 <= j < regular.len() && 0 <= q < after.len() implies (
                    #[trigger] regular[j]).size <= (#[trigger] after[q]).size by {
                        let from = q + rest.len() - after.len();
                        assert(after[q] == rest[from]);
                        assert(rest[from] == queue[from]);
                    }
                }
            }
        }
        assert forall|i: int| 0 <= i < next.len() - 1 implies (#[trigger] next[i]) is Duo by {
            assert(unit_ok(parts[i], queue));
        }
        assert forall|i: int, q: int|
            0 <= i < next.len() && 0 <= q < after.len() implies (
        #[trigger] next[i] matches PartPlan::Duo { copy, .. } ==> copied_file(copy).size >= (
        #[trigger] after[q]).size) by {
            let from = q + rest.len() - after.len();
            assert(after[q] == rest[from]);
            assert(rest[from] == queue[from]);
            if i < parts.len() {
                assert(next[i] == parts[i]);
            } else {
                assert(queue[from].size <= queue[queue.len() - 1].size);
            }
        }
        assert forall|i: int, j: int| 0 <= i < j < next.len() implies match (
            #[trigger] next[i],
            #[trigger] next[j],
        ) {
            (PartPlan::Duo { copy: a, .. }, PartPlan::Duo { copy: b, .. }) => copied_file(a).size
                >= copied_file(b).size,
            _ => true,
        } by {
            if j < parts.len() {
                assert(next[i] == parts[i] && next[j] == parts[j]);
            } else {
                assert(next[i] == parts[i]);
                assert(queue[queue.len() - 1] == big);
            }
        }
        assert forall|i: int, j: int| 0 <= i < j < after.len() implies (
        #[trigger] after[i]).size <= (#[trigger] after[j]).size by {
            let shift = rest.len() - after.len();
            assert(after[i] == rest[i + shift] && after[j] == rest[j + shift]);
            assert(queue[i + shift].size <= queue[j + shift].size);
        }
        if rest.len() > 0 {
            filling_stops(rest, least_regular(big), 1);
        }
        lemma_pairs(after, next);
    } else {
        assert forall|i: int| 0 <= i < queue.len() implies (#[trigger] queue[i]).size < 5 * 1024
            * 1024 by {
            if i < queue.len() - 1 {
                assert(queue[i].size <= queue[queue.len() - 1].size);
            }
        }
    }
}

/// After the pass that makes pairs no file of 5 MiB or more is left: each has been tried.
pub proof fn every_large_file_is_tried(infos: Seq<FileInfo>)
    requires
        infos.len() <= usize::MAX,
    ensures
        none_large(duo_pass(smallest_to_largest(infos), Seq::empty()).1),
        forall|i: int|
            0 <= i < duo_pass(smallest_to_largest(infos), Seq::empty()).0.len() ==> match (
            #[trigger] duo_pass(smallest_to_largest(infos), Seq::empty()).0[i]) {
                PartPlan::Duo { regular, copy } => pair_sound(regular, copy),
                PartPlan::Single(files) => folded_sound(files),
            },
{
    let queue = smallest_to_largest(infos);
    lemma_sorted(infos);
    lemma_pairs(queue, Seq::empty());
    let made = duo_pass(queue, Seq::empty());
    assert forall|i: int| 0 <= i < made.0.len() implies match (#[trigger] made.0[i]) {
        PartPlan::Duo { regular, copy } => pair_sound(regular, copy),
        PartPlan::Single(files) => folded_sound(files),
    } by {
        assert(unit_ok(made.0[i], made.1));
    }
}

/// A pair that gets more small files before the copied one.
proof fn lemma_grown(
    regular: Seq<FileInfo>,
    copy: CopyZipPart,
    new_copy: CopyZipPart,
    queue: Seq<FileInfo>,
    c: int,
)
    requires
        pair_sound(regular, copy),
        goes_before(regular, queue),
        ascending(queue),
        none_large(queue),
        0 <= c <= queue.len(),
        copied_file(new_copy) == copied_file(copy),
        c > 0 ==> infos_len(regular) + infos_len(queue.take(c - 1)) < 10 * 1024 * 1024,
        match new_copy {
            CopyZipPart::FullCopy(_) => infos_len(regular) + infos_len(queue.take(c)) + copied_file(
                copy,
            ).loc_len() >= 5 * 1024 * 1024,
            CopyZipPart::PartialCopy { copy_start_byte, .. } => copy_start_byte > 0 && infos_len(
                regular,
            ) + infos_len(queue.take(c)) + copied_file(copy).loc_len() + copy_start_byte == 5 * 1024
                * 1024,
        },
    ensures
        unit_ok(PartPlan::Duo { regular: regular + queue.take(c), copy: new_copy }, queue.skip(c)),
{
    let add = queue.take(c);
    let all = regular + add;
    let left = queue.skip(c);
    let file = copied_file(copy);
    lemma_infos_len_concat(regular, add);
    assert forall|i: int, j: int| 0 <= i < j < all.len() implies (#[trigger] all[i]).size <= (
    #[trigger] all[j]).size by {
        if j < regular.len() {
            assert(regular[i].size <= regular[j].size);
        } else if i < regular.len() {
            assert(regular[i].size <= queue[j - regular.len()].size);
        } else {
            assert(queue[i - regular.len()].size <= queue[j - regular.len()].size);
        }
    }
    assert forall|j: int| 0 <= j < all.len() implies (#[trigger] all[j]).size <= file.size by {
        if j < regular.len() {
            assert(regular[j].size <= file.size);
        } else {
            assert(queue[j - regular.len()].size < 5 * 1024 * 1024);
        }
    }
    assert forall|j: int|
        0 < j < all.len() && (#[trigger] all[j]).size >= 5 * 1024 * 1024 implies infos_len(
        all.take(j),
    ) < missing_before(file) by {
        if j < regular.len() {
            assert(all[j] == regular[j]);
            assert(all.take(j) =~= regular.take(j));
        } else {
            assert(queue[j - regular.len()].size < 5 * 1024 * 1024);
        }
    }
    if c > 0 {
        assert(all.drop_last() =~= regular + queue.take(c - 1));
        lemma_infos_len_concat(regular, queue.take(c - 1));
    } else {
        assert(all =~= regular);
    }
    assert forall|j: int, q: int|
        0 <= j < all.len() && 0 <= q < left.len() implies (#[trigger] all[j]).size <= (
    #[trigger] left[q]).size by {
        assert(left[q] == queue[q + c]);
        if j < regular.len() {
            assert(regular[j].size <= queue[q + c].size);
        } else {
            assert(queue[j - regular.len()].size <= queue[q + c].size);
        }
    }
}

spec fn is_partial(part: PartPlan) -> bool {
    part matches PartPlan::Duo { copy, .. } && copy is PartialCopy
}

proof fn lemma_promote_step(part: PartPlan, queue: Seq<FileInfo>)
    requires
        unit_ok(part, queue),
        ascending(queue),
        none_large(queue),
    ensures
        ({
            let (p, q) = promoted(part, queue);
            &&& unit_ok(p, q)
            &&& suffix_of(q, queue)
            &&& same_copy(p, part)
            &&& is_partial(p) ==> q.len() == 0
        }),
{
    if let PartPlan::Duo {
        regular,
        copy: CopyZipPart::PartialCopy { file_entry, copy_start_byte },
    } = part {
        let copy = CopyZipPart::PartialCopy { file_entry, copy_start_byte };
        let c = fill_count(queue, copy_start_byte as int, 0) as int;
        filling_stops(queue, copy_start_byte as int, 0);
        lemma_fill_is_least(queue, copy_start_byte as int, 0);
        let got = infos_len(queue.take(c));
        let start = if got >= copy_start_byte {
            0nat
        } else {
            (copy_start_byte - got) as nat
        };
        lemma_grown(regular, copy, copy_at(file_entry, start), queue, c);
    }
}

proof fn lemma_pad_step(part: PartPlan, queue: Seq<FileInfo>)
    requires
        unit_ok(part, queue),
        ascending(queue),
        none_large(queue),
        is_partial(part) ==> queue.len() == 0,
    ensures
        ({
            let (p, q) = padded(part, queue);
            &&& unit_ok(p, q)
            &&& suffix_of(q, queue)
            &&& same_copy(p, part)
            &&& is_partial(p) == is_partial(part)
            &&& p matches PartPlan::Duo { regular, .. } ==> q.len() > 0 ==> infos_len(regular) >= 10
                * 1024 * 1024
        }),
{
    if let PartPlan::Duo { regular, copy } = part {
        let need = TARGET_PART_SIZE - infos_len(regular);
        let c = fill_count(queue, need, 0) as int;
        filling_stops(queue, need, 0);
        lemma_fill_is_least(queue, need, 0);
        if queue.len() == 0 {
            assert(queue.take(0) =~= Seq::empty());
        }
        lemma_grown(regular, copy, copy, queue, c);
        lemma_infos_len_concat(regular, queue.take(c));
    }
}

/// What holds of units that have been gone through.
spec fn passed_wf(
    parts: Seq<PartPlan>,
    queue: Seq<FileInfo>,
    from: Seq<PartPlan>,
    all: Seq<FileInfo>,
) -> bool {
    &&& suffix_of(queue, all)
    &&& forall|i: int|
        0 <= i < parts.len() ==> unit_ok(#[trigger] parts[i], queue) && same_copy(parts[i], from[i])
}

proof fn lemma_suffix(q: Seq<FileInfo>, queue: Seq<FileInfo>, all: Seq<FileInfo>)
    requires
        suffix_of(q, queue),
        suffix_of(queue, all),
        ascending(all),
        none_large(all),
    ensures
        suffix_of(q, all),
        ascending(queue),
        none_large(queue),
{
    assert forall|i: int| 0 <= i < q.len() implies #[trigger] q[i] == all[i + all.len()
        - q.len()] by {
        assert(q[i] == queue[i + queue.len() - q.len()]);
    }
    let shift = all.len() - queue.len();
    assert forall|i: int, j: int| 0 <= i < j < queue.len() implies (#[trigger] queue[i]).size <= (
    #[trigger] queue[j]).size by {
        assert(all[i + shift].size <= all[j + shift].size);
    }
    assert forall|i: int| 0 <= i < queue.len() implies (#[trigger] queue[i]).size < 5 * 1024
        * 1024 by {
        assert(all[i + shift].size < 5 * 1024 * 1024);
    }
}

proof fn lemma_promoted_units(parts: Seq<PartPlan>, queue: Seq<FileInfo>, n: nat)
    requires
        n <= parts.len(),
        ascending(queue),
        none_large(queue),
        forall|i: int| 0 <= i < parts.len() ==> unit_ok(#[trigger] parts[i], queue),
    ensures
        ({
            let (p, q) = promote_pass(parts, queue, n);
            &&& p.len() == n
            &&& passed_wf(p, q, parts, queue)
            &&& forall|i: int| 0 <= i < n ==> (is_partial(#[trigger] p[i]) ==> q.len() == 0)
        }),
    decreases n,
{
    if n == 0 {
        assert(suffix_of(queue, queue));
    } else {
        let m = (n - 1) as nat;
        lemma_promoted_units(parts, queue, m);
        let (p, q) = promote_pass(parts, queue, m);
        let part = parts[m as int];
        let step = promoted(part, q);
        lemma_suffix(q, q, queue);
        assert(unit_ok(part, queue));
        lemma_unit_kept(part, queue, q);
        lemma_promote_step(part, q);
        lemma_suffix(step.1, q, queue);
        let next = promote_pass(parts, queue, n).0;
        assert(next == p.push(step.0));
        assert forall|i: int| 0 <= i < n implies unit_ok(#[trigger] next[i], step.1) && same_copy(
            next[i],
            parts[i],
        ) && (is_partial(next[i]) ==> step.1.len() == 0) by {
            if i < m {
                assert(next[i] == p[i]);
                assert(unit_ok(p[i], q));
                lemma_unit_kept(p[i], q, step.1);
            }
        }
    }
}

proof fn lemma_padded_units(parts: Seq<PartPlan>, queue: Seq<FileInfo>, n: nat)
    requires
        n <= parts.len(),
        ascending(queue),
        none_large(queue),
        forall|i: int| 0 <= i < parts.len() ==> unit_ok(#[trigger] parts[i], queue),
        forall|i: int|
            0 <= i < parts.len() ==> (is_partial(#[trigger] parts[i]) ==> queue.len() == 0),
    ensures
        ({
            let (p, q) = pad_pass(parts, queue, n);
            &&& p.len() == n
            &&& passed_wf(p, q, parts, queue)
            &&& forall|i: int|
                0 <= i < n ==> (is_partial(#[trigger] p[i]) ==> queue.len() == 0)
            &&& forall|i: int|
                0 <= i < n ==> (#[trigger] p[i] matches PartPlan::Duo { regular, .. } ==> q.len()
                    > 0 ==> infos_len(regular) >= 10 * 1024 * 1024)
        }),
    decreases n,
{
    if n == 0 {
        assert(suffix_of(queue, queue));
    } else {
        let m = (n - 1) as nat;
        lemma_padded_units(parts, queue, m);
        let (p, q) = pad_pass(parts, queue, m);
        let part = parts[m as int];
        let step = padded(part, q);
        lemma_suffix(q, q, queue);
        assert(unit_ok(part, queue));
        lemma_unit_kept(part, queue, q);
        lemma_pad_step(part, q);
        lemma_suffix(step.1, q, queue);
        let next = pad_pass(parts, queue, n).0;
        assert(next == p.push(step.0));
        assert forall|i: int| 0 <= i < n implies unit_ok(#[trigger] next[i], step.1) && same_copy(
            next[i],
            parts[i],
        ) && (is_partial(next[i]) ==> queue.len() == 0) && (next[i] matches PartPlan::Duo {
            regular,
            ..
        } ==> step.1.len() > 0 ==> infos_len(regular) >= 10 * 1024 * 1024) by {
            if i < m {
                assert(next[i] == p[i]);
                assert(unit_ok(p[i], q));
                lemma_unit_kept(p[i], q, step.1);
            }
        }
    }
}

/// Parts of small files behind the first `k`: all but the last of them have 10 MiB.
spec fn rest_packed(parts: Seq<PartPlan>, k: int, closed: bool) -> bool {
    forall|i: int|
        k <= i < parts.len() ==> match #[trigger] parts[i] {
            PartPlan::Single(files) => packed_sound(files) && (i < parts.len() - 1 || !closed
                ==> infos_len(files) >= 10 * 1024 * 1024),
            PartPlan::Duo { .. } => false,
        }
}

proof fn lemma_remainder(parts: Seq<PartPlan>, queue: Seq<FileInfo>, k: int)
    requires
        0 <= k <= parts.len(),
        ascending(queue),
        none_large(queue),
        rest_packed(parts, k, queue.len() == 0),
    ensures
        ({
            let all = remainder_pass(parts, queue);
            &&& all.len() >= parts.len()
            &&& forall|i: int| 0 <= i < parts.len() ==> #[trigger] all[i] == parts[i]
            &&& rest_packed(all, k, true)
            &&& queue.len() == 0 ==> all == parts
        }),
    decreases queue.len(),
{
    if queue.len() > 0 {
        let c = fill_count(queue, TARGET_PART_SIZE as int, 1) as int;
        filling_stops(queue, TARGET_PART_SIZE as int, 1);
        lemma_fill_is_least(queue, TARGET_PART_SIZE as int, 1);
        let files = queue.take(c);
        let left = queue.skip(c);
        let next = parts.push(PartPlan::Single(files));
        assert(files.drop_last() =~= queue.take(c - 1));
        if c == 1 {
            assert(queue.take(0) =~= Seq::empty());
        }
        assert forall|i: int, j: int| 0 <= i < j < files.len() implies (
        #[trigger] files[i]).size <= (#[trigger] files[j]).size by {
            assert(queue[i].size <= queue[j].size);
        }
        assert forall|i: int| 0 <= i < files.len() implies (#[trigger] files[i]).size < 5 * 1024
            * 1024 by {
            assert(queue[i].size < 5 * 1024 * 1024);
        }
        assert(suffix_of(left, queue));
        lemma_suffix(left, left, queue);
        assert forall|i: int| k <= i < next.len() implies match #[trigger] next[i] {
            PartPlan::Single(files) => packed_sound(files) && (i < next.len() - 1 || !(left.len()
                == 0) ==> infos_len(files) >= 10 * 1024 * 1024),
            PartPlan::Duo { .. } => false,
        } by {
            if i < parts.len() {
                assert(next[i] == parts[i]);
            }
        }
        lemma_remainder(next, left, k);
        let all = remainder_pass(parts, queue);
        assert forall|i: int| 0 <= i < parts.len() implies #[trigger] all[i] == parts[i] by {
            assert(all[i] == next[i]);
        }
    }
}

/// Every large file is copied wherever the others allow it. The layout starts with pairs, the
/// largest copied file first. A file of 5 MiB or more that is in a part without a copy is in
/// the last part, for which too little was left. Of a copied file bytes are downloaded only
/// where no small file was left for it, and a pair has 10 MiB before its copied file wherever
/// small files are left; these are packed into parts of 10 MiB, all but the last.
pub proof fn large_files_are_copied(infos: Seq<FileInfo>)
    requires
        infos.len() <= usize::MAX,
    ensures
        ({
            let parts = layout_of(infos);
            &&& copies_descend(parts)
            &&& forall|i: int, j: int|
                0 <= i < j < parts.len() && (#[trigger] parts[j]) is Duo ==> (
                #[trigger] parts[i]) is Duo
            &&& forall|i: int|
                0 <= i < parts.len() ==> match #[trigger] parts[i] {
                    PartPlan::Duo { regular, copy } => pair_sound(regular, copy),
                    PartPlan::Single(files) => if none_large(files) {
                        packed_sound(files) && (i < parts.len() - 1 ==> infos_len(files) >= 10
                            * 1024 * 1024)
                    } else {
                        folded_sound(files) && i == parts.len() - 1
                    },
                }
            &&& forall|i: int, j: int|
                0 <= i < parts.len() && 0 <= j < parts.len() ==> match (
                    #[trigger] parts[i],
                    #[trigger] parts[j],
                ) {
                    (
                        PartPlan::Duo { regular, copy },
                        PartPlan::Single(files),
                    ) => none_large(files) ==> copy is FullCopy && infos_len(regular) >= 10 * 1024
                        * 1024,
                    _ => true,
                }
        }),
{
    let queue = smallest_to_largest(infos);
    let d = duo_pass(queue, Seq::empty());
    let p = promote_pass(d.0, d.1, d.0.len());
    let w = pad_pass(p.0, p.1, p.0.len());
    let parts = layout_of(infos);
    let k = w.0.len() as int;
    lemma_sorted(infos);
    lemma_pairs(queue, Seq::empty());
    lemma_promoted_units(d.0, d.1, d.0.len());
    lemma_suffix(p.1, p.1, d.1);
    lemma_padded_units(p.0, p.1, p.0.len());
    lemma_suffix(w.1, w.1, p.1);
    lemma_remainder(w.0, w.1, k);
    assert(parts == remainder_pass(w.0, w.1));
    assert forall|i: int| 0 <= i < k implies unit_ok(w.0[i], w.1) && #[trigger] parts[i] == w.0[i]
        && same_copy(w.0[i], p.0[i]) && same_copy(p.0[i], d.0[i]) by {
        assert(unit_ok(w.0[i], w.1));
        assert(unit_ok(p.0[i], p.1));
    }
    assert forall|i: int| 0 <= i < k implies ((#[trigger] parts[i]) is Duo <==> d.0[i] is Duo) by {}
    assert forall|i: int, j: int|
        0 <= i < j < parts.len() && (#[trigger] parts[j]) is Duo implies (
    #[trigger] parts[i]) is Duo by {
        assert(j < k);
        assert(d.0[i] is Duo);
    }
    assert forall|i: int, j: int| 0 <= i < j < parts.len() implies match (
        #[trigger] parts[i],
        #[trigger] parts[j],
    ) {
        (PartPlan::Duo { copy: a, .. }, PartPlan::Duo { copy: b, .. }) => copied_file(a).size
            >= copied_file(b).size,
        _ => true,
    } by {
        if parts[j] is Duo {
            assert(j < k);
            let x = d.0[i];
            let y = d.0[j];
        }
    }
    assert forall|i: int| 0 <= i < parts.len() implies match #[trigger] parts[i] {
        PartPlan::Duo { regular, copy } => pair_sound(regular, copy),
        PartPlan::Single(files) => if none_large(files) {
            packed_sound(files) && (i < parts.len() - 1 ==> infos_len(files) >= 10 * 1024 * 1024)
        } else {
            folded_sound(files) && i == parts.len() - 1
        },
    } by {
        if i < k {
            assert(unit_ok(w.0[i], w.1));
            if let PartPlan::Single(files) = parts[i] {
                assert(w.1.len() == 0);
                assert(parts.len() == k);
                assert(!(d.0[i] is Duo));
                assert(i == d.0.len() - 1);
                assert(files[files.len() - 1] == files.last());
                assert(!none_large(files));
            }
        }
    }
    assert forall|i: int, j: int| 0 <= i < parts.len() && 0 <= j < parts.len() implies match (
        #[trigger] parts[i],
        #[trigger] parts[j],
    ) {
        (PartPlan::Duo { regular, copy }, PartPlan::Single(files)) => none_large(files) ==> copy
            is FullCopy && infos_len(regular) >= 10 * 1024 * 1024,
        _ => true,
    } by {
        if let PartPlan::Duo { regular, copy } = parts[i] {
            if let PartPlan::Single(files) = parts[j] {
                if none_large(files) {
                    if j < k {
                        assert(unit_ok(w.0[j], w.1));
                        assert(files[files.len() - 1] == files.last());
                    }
                    assert(j >= k);
                    assert(i < k);
                    assert(w.1.len() > 0);
                    assert(w.0[i] == parts[i]);
                    assert(!is_partial(w.0[i]));
                }
            }
        }
    }
}

} // verus!
