//! The central directory, put together from records that come in any order.

use crate::zip_records::{
    end_records_span, CentralDirectoryFileHeader, EndOfCentralDirectory64, ZipSerialize,
};
use vstd::prelude::*;
use vstd::seq_lib::group_to_multiset_ensures;

verus! {

/// The records that have come so far, by the place of their entries in the archive.
#[derive(Debug)]
pub struct DirectoryAssembly {
    pub eocd64: EndOfCentralDirectory64,
    pub records: Vec<CentralDirectoryFileHeader>,
}

/// Where a record's entry starts.
pub open spec fn record_offset(record: CentralDirectoryFileHeader) -> usize {
    record.0.offset
}

/// The records stand in the order of their entries, no two for one place.
pub open spec fn in_archive_order(records: Seq<CentralDirectoryFileHeader>) -> bool {
    forall|i: int, j: int|
        0 <= i < j < records.len() ==> record_offset(#[trigger] records[i]) < record_offset(
            #[trigger] records[j],
        )
}

/// The records with one more put in its place; it takes the place of one for the same entry.
pub open spec fn record_added(
    records: Seq<CentralDirectoryFileHeader>,
    record: CentralDirectoryFileHeader,
) -> Seq<CentralDirectoryFileHeader>
    decreases records.len(),
{
    if records.len() == 0 || record_offset(records.last()) < record_offset(record) {
        records.push(record)
    } else if record_offset(records.last()) == record_offset(record) {
        records.drop_last().push(record)
    } else {
        record_added(records.drop_last(), record).push(records.last())
    }
}

/// The records after `arrivals` have come, in that order.
pub open spec fn collected(arrivals: Seq<CentralDirectoryFileHeader>) -> Seq<
    CentralDirectoryFileHeader,
>
    decreases arrivals.len(),
{
    if arrivals.len() == 0 {
        Seq::empty()
    } else {
        record_added(collected(arrivals.drop_last()), arrivals.last())
    }
}

/// The records, one behind the other.
pub open spec fn records_bytes(records: Seq<CentralDirectoryFileHeader>) -> Seq<u8>
    decreases records.len(),
{
    if records.len() == 0 {
        Seq::empty()
    } else {
        records_bytes(records.drop_last()) + records.last().zip_bytes()
    }
}

proof fn lemma_record_added(
    records: Seq<CentralDirectoryFileHeader>,
    record: CentralDirectoryFileHeader,
)
    requires
        in_archive_order(records),
    ensures
        in_archive_order(record_added(records, record)),
        record_added(records, record).len() > 0,
        record_offset(record_added(records, record).last()) == if records.len() > 0
            && record_offset(records.last()) > record_offset(record) {
            record_offset(records.last())
        } else {
            record_offset(record)
        },
    decreases records.len(),
{
    if records.len() == 0 || record_offset(records.last()) <= record_offset(record) {
    } else {
        lemma_record_added(records.drop_last(), record);
        let shorter = record_added(records.drop_last(), record);
        assert(record_offset(shorter.last()) < record_offset(records.last())) by {
            if records.drop_last().len() > 0 {
                assert(record_offset(records[records.len() - 2]) < record_offset(
                    records[records.len() - 1],
                ));
            }
        }
        let all = shorter.push(records.last());
        assert forall|i: int, j: int| 0 <= i < j < all.len() implies record_offset(
            #[trigger] all[i],
        ) < record_offset(#[trigger] all[j]) by {
            if j == all.len() - 1 {
                assert(i == shorter.len() - 1 || record_offset(shorter[i]) < record_offset(
                    shorter[shorter.len() - 1],
                ));
            }
        }
    }
}

proof fn lemma_record_added_files(
    records: Seq<CentralDirectoryFileHeader>,
    record: CentralDirectoryFileHeader,
)
    requires
        forall|i: int|
            0 <= i < records.len() ==> record_offset(#[trigger] records[i]) != record_offset(
                record,
            ),
    ensures
        record_added(records, record).to_multiset() == records.to_multiset().insert(record),
    decreases records.len(),
{
    broadcast use group_to_multiset_ensures;

    if records.len() == 0 || record_offset(records.last()) < record_offset(record) {
    } else {
        assert(record_offset(records[records.len() - 1]) != record_offset(record));
        let rest = records.drop_last();
        assert forall|i: int| 0 <= i < rest.len() implies record_offset(#[trigger] rest[i])
            != record_offset(record) by {
            assert(rest[i] == records[i]);
        }
        lemma_record_added_files(rest, record);
        assert(rest.push(records.last()) =~= records);
        assert(record_added(records, record).to_multiset() =~= records.to_multiset().insert(
            record,
        ));
    }
}

proof fn lemma_collected(arrivals: Seq<CentralDirectoryFileHeader>)
    requires
        forall|i: int, j: int|
            0 <= i < j < arrivals.len() ==> record_offset(#[trigger] arrivals[i])
                != record_offset(#[trigger] arrivals[j]),
    ensures
        in_archive_order(collected(arrivals)),
        collected(arrivals).to_multiset() == arrivals.to_multiset(),
    decreases arrivals.len(),
{
    broadcast use group_to_multiset_ensures;

    if arrivals.len() > 0 {
        let rest = arrivals.drop_last();
        assert forall|i: int, j: int| 0 <= i < j < rest.len() implies record_offset(
            #[trigger] rest[i],
        ) != record_offset(#[trigger] rest[j]) by {
            assert(rest[i] == arrivals[i] && rest[j] == arrivals[j]);
        }
        lemma_collected(rest);
        let before = collected(rest);
        let last = arrivals.last();
        assert forall|i: int| 0 <= i < before.len() implies record_offset(#[trigger] before[i])
            != record_offset(last) by {
            assert(before.to_multiset().count(before[i]) > 0) by {
                assert(before.contains(before[i]));
            }
            assert(rest.contains(before[i]));
            let j = choose|j: int| 0 <= j < rest.len() && rest[j] == before[i];
            assert(record_offset(arrivals[j]) != record_offset(arrivals[arrivals.len() - 1]));
        }
        lemma_record_added(before, last);
        lemma_record_added_files(before, last);
        assert(rest.push(last) =~= arrivals);
    }
}

proof fn lemma_same_order(
    a: Seq<CentralDirectoryFileHeader>,
    b: Seq<CentralDirectoryFileHeader>,
)
    requires
        in_archive_order(a),
        in_archive_order(b),
        a.to_multiset() == b.to_multiset(),
    ensures
        a == b,
    decreases a.len(),
{
    broadcast use group_to_multiset_ensures;

    assert(a.to_multiset().len() == a.len());
    assert(b.to_multiset().len() == b.len());
    if a.len() > 0 {
        let x = a.last();
        let y = b.last();
        assert(a.to_multiset().count(x) > 0) by {
            assert(a.contains(x));
        }
        assert(b.to_multiset().count(y) > 0) by {
            assert(b.contains(y));
        }
        let i = choose|i: int| 0 <= i < b.len() && b[i] == x;
        let j = choose|j: int| 0 <= j < a.len() && a[j] == y;
        assert(b.contains(x) && a.contains(y));
        assert(i == b.len() - 1) by {
            if i < b.len() - 1 {
                assert(record_offset(b[i]) < record_offset(b[b.len() - 1]));
                if j < a.len() - 1 {
                    assert(record_offset(a[j]) < record_offset(a[a.len() - 1]));
                }
            }
        }
        assert(a.drop_last() =~= a.remove(a.len() - 1));
        assert(b.drop_last() =~= b.remove(b.len() - 1));
        assert(a.drop_last().to_multiset() =~= b.drop_last().to_multiset());
        lemma_same_order(a.drop_last(), b.drop_last());
        assert(a =~= a.drop_last().push(x));
        assert(b =~= b.drop_last().push(x));
    } else {
        assert(a =~= b);
    }
}

/// In whatever order the records of an archive come, the directory holds them in the order
/// of their entries.
pub proof fn arrival_order_does_not_matter(
    arrivals: Seq<CentralDirectoryFileHeader>,
    records: Seq<CentralDirectoryFileHeader>,
)
    requires
        in_archive_order(records),
        arrivals.to_multiset() == records.to_multiset(),
    ensures
        collected(arrivals) == records,
{
    broadcast use group_to_multiset_ensures;

    assert(records.no_duplicates()) by {
        assert forall|i: int, j: int| 0 <= i < j < records.len() implies records[i]
            != records[j] by {
            assert(record_offset(records[i]) < record_offset(records[j]));
        }
    }
    records.lemma_multiset_has_no_duplicates();
    assert forall|x: CentralDirectoryFileHeader|
        arrivals.to_multiset().contains(x) implies arrivals.to_multiset().count(x) == 1 by {}
    arrivals.lemma_multiset_has_no_duplicates_conv();
    assert forall|i: int, j: int| 0 <= i < j < arrivals.len() implies record_offset(
        #[trigger] arrivals[i],
    ) != record_offset(#[trigger] arrivals[j]) by {
        assert(arrivals.to_multiset().count(arrivals[i]) > 0) by {
            assert(arrivals.contains(arrivals[i]));
        }
        assert(arrivals.to_multiset().count(arrivals[j]) > 0) by {
            assert(arrivals.contains(arrivals[j]));
        }
        assert(records.contains(arrivals[i]) && records.contains(arrivals[j]));
        let p = choose|p: int| 0 <= p < records.len() && records[p] == arrivals[i];
        let q = choose|q: int| 0 <= q < records.len() && records[q] == arrivals[j];
        if p < q {
            assert(record_offset(records[p]) < record_offset(records[q]));
        } else if q < p {
            assert(record_offset(records[q]) < record_offset(records[p]));
        }
    }
    lemma_collected(arrivals);
    lemma_same_order(collected(arrivals), records);
}

impl DirectoryAssembly {
    /// The records stand in the order of their entries.
    pub open spec fn wf(&self) -> bool {
        in_archive_order(self.records@)
    }

    /// Nothing has come yet.
    pub fn new(eocd64: EndOfCentralDirectory64) -> (assembly: DirectoryAssembly)
        ensures
            assembly.wf(),
            assembly.eocd64 == eocd64,
            assembly.records@ == Seq::<CentralDirectoryFileHeader>::empty(),
    {
        DirectoryAssembly { eocd64, records: Vec::new() }
    }

    /// Puts a record in its place and says whether all that are expected have come.
    pub fn add(&mut self, record: CentralDirectoryFileHeader) -> (complete: bool)
        requires
            old(self).wf(),
        ensures
            final(self).wf(),
            final(self).eocd64 == old(self).eocd64,
            final(self).records@ == record_added(old(self).records@, record),
            complete == (final(self).records@.len() == old(self).eocd64.record_count),
    {
        let ghost before = self.records@;
        let mut at: usize = self.records.len();
        proof {
            assert(before.take(at as int) =~= before);
            assert(record_added(before, record) + before.skip(at as int) =~= record_added(
                before,
                record,
            ));
        }
        while at > 0 && self.records[at - 1].0.offset > record.0.offset
            invariant
                at <= before.len(),
                self.records@ == before,
                self.eocd64 == old(self).eocd64,
                record_added(before, record) == record_added(before.take(at as int), record)
                    + before.skip(at as int),
            decreases at,
        {
            proof {
                let head = before.take(at as int);
                assert(head.drop_last() =~= before.take(at - 1));
                assert(record_added(head, record) + before.skip(at as int) =~= record_added(
                    before.take(at - 1),
                    record,
                ) + before.skip(at - 1));
            }
            at = at - 1;
        }
        proof {
            lemma_record_added(before, record);
        }
        if at > 0 && self.records[at - 1].0.offset == record.0.offset {
            self.records.set(at - 1, record);
            proof {
                assert(before.take(at as int).drop_last() =~= before.take(at - 1));
                assert(self.records@ =~= before.take(at - 1).push(record) + before.skip(at as int));
            }
        } else {
            self.records.insert(at, record);
            assert(self.records@ =~= before.take(at as int).push(record) + before.skip(at as int));
        }
        self.records.len() == self.eocd64.record_count
    }

    /// The directory: the records and the end records.
    pub fn bytes(&self) -> (bytes: Vec<u8>)
        requires
            records_bytes(self.records@).len() + 98 <= usize::MAX,
        ensures
            bytes@ == records_bytes(self.records@) + self.eocd64.zip_bytes(),
    {
        let mut bytes: Vec<u8> = Vec::new();
        assert(self.records@.take(0) =~= Seq::empty());
        for i in 0..self.records.len()
            invariant
                records_bytes(self.records@).len() + 98 <= usize::MAX,
                bytes@ == records_bytes(self.records@.take(i as int)),
        {
            proof {
                assert(self.records@.take(i + 1).drop_last() =~= self.records@.take(i as int));
                lemma_records_bytes_prefix(self.records@, i + 1);
            }
            let written: usize = self.records[i].dump(&mut bytes);
        }
        proof {
            assert(self.records@.take(self.records@.len() as int) =~= self.records@);
            end_records_span(self.eocd64);
        }
        let written: usize = self.eocd64.dump(&mut bytes);
        bytes
    }
}

proof fn lemma_records_bytes_prefix(records: Seq<CentralDirectoryFileHeader>, i: int)
    requires
        0 <= i <= records.len(),
    ensures
        records_bytes(records.take(i)).len() <= records_bytes(records).len(),
    decreases records.len(),
{
    if i == records.len() {
        assert(records.take(i) =~= records);
    } else {
        lemma_records_bytes_prefix(records.drop_last(), i);
        assert(records.drop_last().take(i) =~= records.take(i));
    }
}

/// Of two records for one place the later one stands, and no other record is lost to it: the
/// directory grows by one record where the place was free, and keeps its length where it was
/// not.
pub proof fn later_records_replace_earlier(
    records: Seq<CentralDirectoryFileHeader>,
    record: CentralDirectoryFileHeader,
)
    requires
        in_archive_order(records),
    ensures
        record_added(records, record).contains(record),
        forall|i: int|
            0 <= i < records.len() && record_offset(#[trigger] records[i]) != record_offset(record)
                ==> record_added(records, record).contains(records[i]),
        in_archive_order(record_added(records, record)),
        record_added(records, record).len() == records.len() + (if exists|i: int|
            0 <= i < records.len() && record_offset(#[trigger] records[i]) == record_offset(
                record,
            ) {
            0int
        } else {
            1int
        }),
    decreases records.len(),
{
    let added = record_added(records, record);
    lemma_record_added(records, record);
    if records.len() == 0 || record_offset(records.last()) < record_offset(record) {
        assert(added.last() == record);
        assert forall|i: int| 0 <= i < records.len() implies added.contains(
            #[trigger] records[i],
        ) by {
            assert(added[i] == records[i]);
        }
    } else if record_offset(records.last()) == record_offset(record) {
        assert(added.last() == record);
        assert forall|i: int|
            0 <= i < records.len() && record_offset(#[trigger] records[i]) != record_offset(
                record,
            ) implies added.contains(records[i]) by {
            assert(added[i] == records[i]);
        }
        assert(record_offset(records[records.len() - 1]) == record_offset(record));
    } else {
        let rest = records.drop_last();
        let inner = record_added(rest, record);
        later_records_replace_earlier(rest, record);
        assert(added == inner.push(records.last()));
        let p = choose|p: int| 0 <= p < inner.len() && inner[p] == record;
        assert(added[p] == record);
        assert forall|i: int|
            0 <= i < records.len() && record_offset(#[trigger] records[i]) != record_offset(
                record,
            ) implies added.contains(records[i]) by {
            if i < rest.len() {
                assert(records[i] == rest[i]);
                let q = choose|q: int| 0 <= q < inner.len() && inner[q] == rest[i];
                assert(added[q] == rest[i]);
            } else {
                assert(added.last() == records[i]);
            }
        }
        if exists|i: int|
            0 <= i < records.len() && record_offset(#[trigger] records[i]) == record_offset(
                record,
            ) {
            let i = choose|i: int|
                0 <= i < records.len() && record_offset(#[trigger] records[i]) == record_offset(
                    record,
                );
            assert(rest[i] == records[i]);
        } else if exists|i: int|
            0 <= i < rest.len() && record_offset(#[trigger] rest[i]) == record_offset(record) {
            let i = choose|i: int|
                0 <= i < rest.len() && record_offset(#[trigger] rest[i]) == record_offset(record);
            assert(records[i] == rest[i]);
        }
    }
}

} // verus!
