//! The archive as one run of bytes, for inputs that are too small to be built from copies.

use crate::le_bytes::push_bytes;
use crate::plan::SourceFile;
use crate::zip_format::{
    central_dir_entry, central_dir_entry_length, central_dir_entry_span, end_records,
    end_records_bytes, local_header, EntryMeta, U32_MAX,
};
use vstd::prelude::*;

verus! {

/// Length of every part but the last (5 MiB).
pub const PART_FLOOR: usize = 5_242_880;

/// The CRC-32 of some bytes.
pub uninterp spec fn crc32(data: Seq<u8>) -> u32;

/// `hash` of the `crc32fast` crate: a fresh hasher that is given all the bytes. Trusted: the
/// checksum depends on the bytes alone.
#[verifier::external_body]
fn crc32_of(data: &[u8]) -> (crc: u32)
    ensures
        crc == crc32(data@),
{
    crc32fast::hash(data)
}

/// The archive so far, and what the directory will say of its entries.
#[derive(Debug)]
pub struct StreamedArchive {
    pub archive: Vec<u8>,
    pub metas: Vec<EntryMeta>,
}

/// The entry's header stands in the archive where its offset says.
pub open spec fn header_in_place(archive: Seq<u8>, meta: EntryMeta) -> bool {
    let at = meta.local_header_offset as int;
    let header = meta.local_header_spec();
    at + header.len() <= archive.len() && archive.subrange(at, at + header.len()) == header
}

/// The directory records of the first `n` entries.
pub open spec fn meta_records(metas: Seq<EntryMeta>, n: nat) -> Seq<u8>
    decreases n,
{
    if n == 0 {
        Seq::empty()
    } else {
        meta_records(metas, (n - 1) as nat) + metas[n - 1].central_dir_entry_spec()
    }
}

/// Length of the directory records of the first `n` entries.
pub open spec fn meta_records_span(metas: Seq<EntryMeta>, n: nat) -> nat
    decreases n,
{
    if n == 0 {
        0
    } else {
        meta_records_span(metas, (n - 1) as nat) + central_dir_entry_span(
            metas[n - 1].name_bytes(),
            metas[n - 1].local_header_offset,
        )
    }
}

/// A finished archive: the entries, the directory records, the end records.
pub open spec fn finished_archive(entries: Seq<u8>, metas: Seq<EntryMeta>) -> Seq<u8> {
    let records = meta_records(metas, metas.len());
    entries + records + end_records_bytes(
        metas.len() as u64,
        entries.len() as u64,
        records.len() as u64,
    )
}

proof fn lemma_meta_records_len(metas: Seq<EntryMeta>, n: nat)
    requires
        n <= metas.len(),
    ensures
        meta_records(metas, n).len() == meta_records_span(metas, n),
    decreases n,
{
    if n > 0 {
        lemma_meta_records_len(metas, (n - 1) as nat);
        let m = metas[n - 1];
        central_dir_entry_length(m.name_bytes(), m.size, m.crc, m.local_header_offset);
    }
}

proof fn lemma_meta_records_span(metas: Seq<EntryMeta>, i: nat, n: nat)
    requires
        i <= n,
    ensures
        meta_records_span(metas, i) <= meta_records_span(metas, n),
    decreases n - i,
{
    if i < n {
        lemma_meta_records_span(metas, i, (n - 1) as nat);
    }
}

impl StreamedArchive {
    /// Every header stands where its offset says, and every size fits its field.
    pub open spec fn wf(&self) -> bool {
        forall|i: int|
            0 <= i < self.metas@.len() ==> header_in_place(
                self.archive@,
                #[trigger] self.metas@[i],
            ) && self.metas@[i].size <= U32_MAX
    }

    /// Nothing yet.
    pub fn new() -> (streamed: StreamedArchive)
        ensures
            streamed.wf(),
            streamed.archive@ == Seq::<u8>::empty(),
            streamed.metas@ == Seq::<EntryMeta>::empty(),
    {
        StreamedArchive { archive: Vec::new(), metas: Vec::new() }
    }

    /// What the records say of a file with this checksum, as the next entry.
    pub open spec fn is_next_meta(&self, meta: EntryMeta, file: SourceFile, crc: u32) -> bool {
        &&& meta.name == file.name
        &&& meta.size == file.size
        &&& meta.crc == crc
        &&& meta.local_header_offset == self.archive@.len()
    }

    /// Appends a file's entry: local header and content.
    pub fn add(&mut self, file: &SourceFile, body: &Vec<u8>)
        requires
            old(self).wf(),
            file.size <= U32_MAX,
            old(self).archive@.len() <= u64::MAX,
        ensures
            final(self).wf(),
            final(self).metas@.len() == old(self).metas@.len() + 1,
            final(self).metas@.drop_last() == old(self).metas@,
            old(self).is_next_meta(final(self).metas@.last(), *file, crc32(body@)),
            final(self).archive@ == old(self).archive@
                + final(self).metas@.last().local_header_spec() + body@,
    {
        self.add_entry(file, body, crc32_of(body.as_slice()));
    }

    /// Appends a file's entry, given the checksum of its content.
    pub fn add_entry(&mut self, file: &SourceFile, body: &Vec<u8>, crc: u32)
        requires
            old(self).wf(),
            file.size <= U32_MAX,
            old(self).archive@.len() <= u64::MAX,
        ensures
            final(self).wf(),
            final(self).metas@.len() == old(self).metas@.len() + 1,
            final(self).metas@.drop_last() == old(self).metas@,
            old(self).is_next_meta(final(self).metas@.last(), *file, crc),
            final(self).archive@ == old(self).archive@
                + final(self).metas@.last().local_header_spec() + body@,
    {
        let ghost before = self.archive@;
        let meta: EntryMeta = EntryMeta {
            name: file.name.clone(),
            size: file.size,
            crc,
            local_header_offset: self.archive.len() as u64,
        };
        let mut header: Vec<u8> = local_header(&meta);
        let ghost header_bytes = header@;
        self.archive.append(&mut header);
        push_bytes(&mut self.archive, body.as_slice());
        let ghost metas = self.metas@;
        self.metas.push(meta);
        proof {
            assert(self.archive@ =~= before + header_bytes + body@);
            assert(self.metas@.drop_last() =~= metas);
            assert forall|i: int| 0 <= i < self.metas@.len() implies header_in_place(
                self.archive@,
                #[trigger] self.metas@[i],
            ) && self.metas@[i].size <= U32_MAX by {
                let m = self.metas@[i];
                let at = m.local_header_offset as int;
                let h = m.local_header_spec();
                if i < metas.len() {
                    assert(header_in_place(before, metas[i]));
                    assert(self.archive@.subrange(at, at + h.len()) =~= before.subrange(
                        at,
                        at + h.len(),
                    ));
                } else {
                    assert(self.archive@.subrange(at, at + h.len()) =~= h);
                }
            }
        }
    }

    /// The finished archive.
    pub fn finish(self) -> (archive: Vec<u8>)
        requires
            self.wf(),
            self.archive@.len() + meta_records_span(self.metas@, self.metas@.len()) <= u64::MAX,
        ensures
            archive@ == finished_archive(self.archive@, self.metas@),
    {
        let ghost entries = self.archive@;
        let cd_offset: u64 = self.archive.len() as u64;
        let mut cd_size: u64 = 0;
        let mut out: Vec<u8> = self.archive;
        assert(out@ =~= entries + meta_records(self.metas@, 0));
        for i in 0..self.metas.len()
            invariant
                self.wf(),
                entries.len() + meta_records_span(self.metas@, self.metas@.len()) <= u64::MAX,
                out@ == entries + meta_records(self.metas@, i as nat),
                cd_size == meta_records(self.metas@, i as nat).len(),
        {
            proof {
                assert(self.metas@[i as int].size <= U32_MAX);
                lemma_meta_records_len(self.metas@, (i + 1) as nat);
                lemma_meta_records_span(self.metas@, (i + 1) as nat, self.metas@.len());
            }
            let mut record: Vec<u8> = central_dir_entry(&self.metas[i]);
            cd_size = cd_size + record.len() as u64;
            out.append(&mut record);
            assert(out@ =~= entries + meta_records(self.metas@, (i + 1) as nat));
        }
        proof {
            lemma_meta_records_len(self.metas@, self.metas@.len());
        }
        let mut end: Vec<u8> = end_records(self.metas.len() as u64, cd_offset, cd_size);
        out.append(&mut end);
        out
    }
}

/// How many parts an archive is uploaded in.
pub open spec fn chunk_count(len: nat) -> nat {
    (len + PART_FLOOR - 1) as nat / PART_FLOOR as nat
}

/// The `i`-th part of an archive.
pub open spec fn chunk(archive: Seq<u8>, i: int) -> Seq<u8> {
    let from = i * PART_FLOOR;
    let to = if from + PART_FLOOR <= archive.len() {
        from + PART_FLOOR
    } else {
        archive.len() as int
    };
    archive.subrange(from, to)
}

/// One part of an archive that is stored in parts.
#[derive(Debug)]
pub struct ArchivePart {
    /// The part's number, counted from one.
    pub part_number: i32,
    pub bytes: Vec<u8>,
}

/// How an archive is stored: at once, or in parts.
#[derive(Debug)]
pub enum Emission {
    Put(Vec<u8>),
    Parts(Vec<ArchivePart>),
}

/// Whether an archive of this length is stored at once.
pub open spec fn stored_at_once(len: nat) -> bool {
    len < PART_FLOOR
}

/// Archives below 5 MiB are stored at once, and no others.
pub proof fn short_archives_are_stored_at_once(len: nat)
    ensures
        stored_at_once(len) <==> len < 5 * 1024 * 1024,
{
}

/// An archive below the floor is stored at once, any other in parts of the floor's length,
/// the last of which takes what is left.
pub fn emission_of(archive: Vec<u8>) -> (emission: Emission)
    requires
        chunk_count(archive@.len()) < i32::MAX,
    ensures
        emission is Put <==> stored_at_once(archive@.len()),
        match emission {
            Emission::Put(bytes) => archive@.len() < PART_FLOOR && bytes == archive,
            Emission::Parts(parts) => {
                &&& archive@.len() >= PART_FLOOR
                &&& parts@.len() == chunk_count(archive@.len())
                &&& forall|i: int|
                    0 <= i < parts@.len() ==> (#[trigger] parts@[i]).part_number == i + 1
                        && parts@[i].bytes@ == chunk(archive@, i)
            },
        },
{
    if archive.len() < PART_FLOOR {
        return Emission::Put(archive);
    }
    let mut parts: Vec<ArchivePart> = Vec::new();
    let mut pos: usize = 0;
    while pos < archive.len()
        invariant
            pos <= archive@.len(),
            pos == parts@.len() * PART_FLOOR || pos == archive@.len(),
            parts@.len() == chunk_count(pos as nat),
            chunk_count(archive@.len()) < i32::MAX,
            forall|i: int|
                0 <= i < parts@.len() ==> (#[trigger] parts@[i]).part_number == i + 1
                    && parts@[i].bytes@ == chunk(archive@, i),
        decreases archive@.len() - pos,
    {
        let end: usize = if archive.len() - pos <= PART_FLOOR {
            archive.len()
        } else {
            pos + PART_FLOOR
        };
        let bytes: Vec<u8> = vstd::slice::slice_to_vec(
            vstd::slice::slice_subrange(archive.as_slice(), pos, end),
        );
        proof {
            assert(pos == parts@.len() * PART_FLOOR);
            assert(bytes@ =~= chunk(archive@, parts@.len() as int));
        }
        parts.push(ArchivePart { part_number: parts.len() as i32 + 1, bytes });
        pos = end;
    }
    Emission::Parts(parts)
}

/// The parts put together.
pub open spec fn chunks_joined(archive: Seq<u8>, n: nat) -> Seq<u8>
    decreases n,
{
    if n == 0 {
        Seq::empty()
    } else {
        chunks_joined(archive, (n - 1) as nat) + chunk(archive, n - 1)
    }
}

proof fn lemma_chunks_joined(archive: Seq<u8>, n: nat)
    requires
        n <= chunk_count(archive.len()),
    ensures
        n < chunk_count(archive.len()) ==> chunks_joined(archive, n) == archive.take(
            n * PART_FLOOR,
        ) && n * PART_FLOOR <= archive.len(),
        n == chunk_count(archive.len()) ==> chunks_joined(archive, n) == archive,
    decreases n,
{
    if n == 0 {
        assert(archive.take(0) =~= Seq::empty());
        if chunk_count(archive.len()) == 0 {
            assert(archive =~= Seq::empty());
        }
    } else {
        lemma_chunks_joined(archive, (n - 1) as nat);
        let head = archive.take((n - 1) * PART_FLOOR);
        if n < chunk_count(archive.len()) {
            assert(head + chunk(archive, n - 1) =~= archive.take(n * PART_FLOOR));
        } else {
            assert(head + chunk(archive, n - 1) =~= archive);
        }
    }
}

/// The parts put together are the archive, and all but the last have the floor's length.
pub proof fn chunks_make_the_archive(archive: Seq<u8>)
    ensures
        chunks_joined(archive, chunk_count(archive.len())) == archive,
        forall|i: int|
            0 <= i < chunk_count(archive.len()) - 1 ==> (#[trigger] chunk(archive, i)).len()
                == PART_FLOOR,
{
    lemma_chunks_joined(archive, chunk_count(archive.len()));
}

/// Every part of an archive that is stored in parts has 5 MiB, but for the last, which has at
/// least one byte and at most 5 MiB.
pub proof fn parts_have_5_mib(archive: Seq<u8>, i: int)
    requires
        archive.len() > 0,
        0 <= i < chunk_count(archive.len()),
    ensures
        i < chunk_count(archive.len()) - 1 ==> chunk(archive, i).len() == 5 * 1024 * 1024,
        1 <= chunk(archive, i).len() <= 5 * 1024 * 1024,
{
}

} // verus!
