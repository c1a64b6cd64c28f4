//! The list of parts that completes a multipart upload.

use crate::sorting::{picked, sort_items, sorted_positions, sorting_keeps_items};
use vstd::prelude::*;

verus! {

/// A part that S3 has taken.
#[derive(Debug)]
pub struct UploadedPart {
    pub part_number: i32,
    pub e_tag: String,
}

/// Keys that put the lower part number first.
pub open spec fn by_number(parts: Seq<UploadedPart>) -> Seq<(u64, u64)> {
    Seq::new(parts.len(), |i: int| ((parts[i].part_number + 0x8000_0000) as u64, 0))
}

/// The parts in the order of their numbers; equal numbers keep their order.
pub open spec fn in_number_order(parts: Seq<UploadedPart>) -> Seq<UploadedPart> {
    picked(parts, sorted_positions(by_number(parts)))
}

/// Sorts the parts by their numbers, as S3 wants them.
pub fn sort_parts(parts: Vec<UploadedPart>) -> (sorted: Vec<UploadedPart>)
    ensures
        sorted@ == in_number_order(parts@),
{
    let mut keys: Vec<(u64, u64)> = Vec::new();
    for i in 0..parts.len()
        invariant
            keys@ == by_number(parts@).take(i as int),
    {
        keys.push(((parts[i].part_number as i64 + 0x8000_0000) as u64, 0));
        assert(keys@ =~= by_number(parts@).take(i + 1));
    }
    assert(keys@ =~= by_number(parts@));
    sort_items(parts, &keys)
}

/// Sorting keeps every part, and puts no part before one with a lower number.
pub proof fn sorted_parts_are_in_order(parts: Seq<UploadedPart>, i: int, j: int)
    requires
        parts.len() <= usize::MAX,
        0 <= i < j < parts.len(),
    ensures
        in_number_order(parts).to_multiset() == parts.to_multiset(),
        in_number_order(parts)[i].part_number <= in_number_order(parts)[j].part_number,
{
    let keys = by_number(parts);
    sorting_keeps_items(parts, keys);
    crate::sorting::sorted_positions_are_all(keys);
    crate::sorting::key_order_is_total(keys);
    crate::sorting::all_positions(keys.len()).lemma_sort_by_ensures(
        crate::sorting::key_order(keys),
    );
    let order = sorted_positions(keys);
    assert(crate::sorting::key_leq(keys, order[i], order[j])) by {
        let leq = crate::sorting::key_order(keys);
        assert(leq(order[i], order[j]));
    }
}

} // verus!
