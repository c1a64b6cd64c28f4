//! The parts of an archive as jobs that can be done independently of each other.
//!
//! The builder walks the layout, knows at every step how long the archive is so far, and
//! turns the layout into uploads and copies. An upload is made of elements, each of which
//! can be resolved on its own; the last element of the last upload is the central directory.

use crate::byte_range::ByteRange;
use crate::directory::{in_archive_order, record_offset, records_bytes};
use crate::error::Error;
use crate::le_bytes::le32;
use crate::multipart::UploadedPart;
use crate::shared_buffer::{patched, BufSlice, SharedBuf};
use crate::zip_layout::{
    all_reach_minimum, copied_file, duos_reach_minimum, halves_reach_minimum, infos_len,
    layout_files, layout_of, part_plans, unit_files, CopyZipPart, FileInfo, PartPlan, ZipLayout,
    ZipLayoutPart, MIN_PART_SIZE,
};
use crate::zip_records::{
    base64_over_four_zeros, cdfh_length, cdfh_span, end_records_span, loc_bytes, loc_length, loc_span,
    s3_checksum_text, CentralDirectoryFileHeader, EndOfCentralDirectory64, LocalFileHeader,
    NoCRC, ZipSerialize, CRC32,
};
use vstd::prelude::*;
use vstd::string::StringExecFns;
use vstd::utf8::encode_utf8;

verus! {

/// What is asked of S3 for an entry that is put together locally.
#[derive(Debug, Clone, Copy, PartialEq, Eq, Structural)]
pub enum S3ObjectOperation {
    /// The whole object is downloaded.
    Get,
    /// The first `size` bytes are downloaded.
    PartialGet { size: usize },
    /// Nothing is downloaded: only the checksum is asked for.
    Head,
}

/// One element of an upload.
#[derive(Debug)]
pub enum UploadPartElement {
    /// An entry: its local header and what is downloaded of its content.
    EntryFromS3 {
        loc: LocalFileHeader<NoCRC>,
        operation: S3ObjectOperation,
        bucket_name: String,
        key: String,
    },
    /// The central directory and the end records.
    CentralDirectory { total_size: usize, eocd64: EndOfCentralDirectory64 },
}

/// What a job does.
#[derive(Debug)]
pub enum PartJobType {
    /// The elements are put together and uploaded.
    Upload(Vec<UploadPartElement>),
    /// An object, or a range of it, is copied.
    Copy { copy_source: String, range: Option<ByteRange> },
}

/// One part of the upload.
#[derive(Debug)]
pub struct PartJob {
    /// The part's number, counted from one.
    pub part_number: i32,
    /// The part's length.
    pub part_size: usize,
    pub part_job_type: PartJobType,
}

/// Builds the jobs in the order of the layout.
#[derive(Debug)]
pub struct PartJobsBuilder {
    /// Length of the archive so far.
    pub current_archive_offset: usize,
    /// Length of the directory record of each entry so far.
    pub cdfh_sizes: Vec<usize>,
    pub parts: Vec<PartJob>,
}

/// `UploadPartElement` over mathematical values.
#[verifier::ext_equal]
pub enum ElementModel {
    Entry {
        offset: usize,
        name: Seq<char>,
        file_size: usize,
        operation: S3ObjectOperation,
        bucket_name: Seq<char>,
        key: Seq<char>,
    },
    Directory { total_size: usize, eocd64: EndOfCentralDirectory64 },
}

/// `PartJobType` over mathematical values.
#[verifier::ext_equal]
pub enum KindModel {
    Upload(Seq<ElementModel>),
    Copy { copy_source: Seq<char>, range: Option<ByteRange> },
}

/// `PartJob` over mathematical values.
#[verifier::ext_equal]
pub struct JobModel {
    pub number: int,
    pub size: int,
    pub kind: KindModel,
}

/// `PartJobsBuilder` over mathematical values.
#[verifier::ext_equal]
pub struct BuilderModel {
    pub offset: int,
    pub cdfh_sizes: Seq<usize>,
    pub jobs: Seq<JobModel>,
}

impl View for UploadPartElement {
    type V = ElementModel;

    open spec fn view(&self) -> ElementModel {
        match *self {
            UploadPartElement::EntryFromS3 {
                loc,
                operation,
                bucket_name,
                key,
            } => ElementModel::Entry {
                offset: loc.offset,
                name: loc.name@,
                file_size: loc.file_size,
                operation,
                bucket_name: bucket_name@,
                key: key@,
            },
            UploadPartElement::CentralDirectory {
                total_size,
                eocd64,
            } => ElementModel::Directory { total_size, eocd64 },
        }
    }
}

/// The elements of an upload over mathematical values.
pub open spec fn element_models(elements: Seq<UploadPartElement>) -> Seq<ElementModel> {
    Seq::new(elements.len(), |i: int| elements[i]@)
}

impl View for PartJob {
    type V = JobModel;

    open spec fn view(&self) -> JobModel {
        JobModel {
            number: self.part_number as int,
            size: self.part_size as int,
            kind: match self.part_job_type {
                PartJobType::Upload(elements) => KindModel::Upload(element_models(elements@)),
                PartJobType::Copy { copy_source, range } => KindModel::Copy {
                    copy_source: copy_source@,
                    range,
                },
            },
        }
    }
}

/// The jobs over mathematical values.
pub open spec fn job_models(jobs: Seq<PartJob>) -> Seq<JobModel> {
    Seq::new(jobs.len(), |i: int| jobs[i]@)
}

impl View for PartJobsBuilder {
    type V = BuilderModel;

    open spec fn view(&self) -> BuilderModel {
        BuilderModel {
            offset: self.current_archive_offset as int,
            cdfh_sizes: self.cdfh_sizes@,
            jobs: job_models(self.parts@),
        }
    }
}

/// How S3 names an object in a copy.
pub open spec fn source_text(bucket_name: Seq<char>, key: Seq<char>) -> Seq<char> {
    bucket_name + "/"@ + key
}

/// The element of an entry that starts at `offset`.
pub open spec fn entry_element(
    offset: int,
    info: FileInfo,
    operation: S3ObjectOperation,
) -> ElementModel {
    ElementModel::Entry {
        offset: offset as usize,
        name: info.name@,
        file_size: info.size,
        operation,
        bucket_name: info.bucket_name@,
        key: info.key@,
    }
}

/// How many bytes an element puts into its part.
pub open spec fn element_len(element: ElementModel) -> nat {
    match element {
        ElementModel::Entry { name, file_size, operation, .. } => loc_span(
            file_size,
            encode_utf8(name).len(),
        ) + (match operation {
            S3ObjectOperation::Get => file_size as nat,
            S3ObjectOperation::PartialGet { size } => size as nat,
            S3ObjectOperation::Head => 0,
        }),
        ElementModel::Directory { total_size, .. } => total_size as nat,
    }
}

/// How many bytes the elements put into their part.
pub open spec fn elements_len(elements: Seq<ElementModel>) -> nat
    decreases elements.len(),
{
    if elements.len() == 0 {
        0
    } else {
        elements_len(elements.drop_last()) + element_len(elements.last())
    }
}

/// Length of the directory record of an entry that starts at `offset`.
pub open spec fn record_len(info: FileInfo, offset: int) -> usize {
    cdfh_span(info.size, encode_utf8(info.name@).len(), offset as usize) as usize
}

/// The elements of downloaded entries, the first of which starts at `offset`.
pub open spec fn download_run(offset: int, infos: Seq<FileInfo>) -> Seq<ElementModel> {
    Seq::new(
        infos.len(),
        |i: int| entry_element(offset + infos_len(infos.take(i)), infos[i], S3ObjectOperation::Get),
    )
}

/// The lengths of the directory records of entries, the first of which starts at `offset`.
pub open spec fn record_run(offset: int, infos: Seq<FileInfo>) -> Seq<usize> {
    Seq::new(infos.len(), |i: int| record_len(infos[i], offset + infos_len(infos.take(i))))
}

/// Whether the last job is an upload.
pub open spec fn ends_with_upload(jobs: Seq<JobModel>) -> bool {
    jobs.len() > 0 && jobs.last().kind is Upload
}

/// The elements of the last job, where it is an upload.
pub open spec fn last_elements(jobs: Seq<JobModel>) -> Seq<ElementModel> {
    jobs.last().kind->Upload_0
}

/// The jobs with `elements` put at their end: into the last upload, or into a new one.
pub open spec fn append_elements(jobs: Seq<JobModel>, elements: Seq<ElementModel>) -> Seq<
    JobModel,
> {
    if ends_with_upload(jobs) {
        let all = last_elements(jobs) + elements;
        jobs.drop_last().push(
            JobModel {
                number: jobs.last().number,
                size: elements_len(all) as int,
                kind: KindModel::Upload(all),
            },
        )
    } else {
        jobs.push(
            JobModel {
                number: jobs.len() as int + 1,
                size: elements_len(elements) as int,
                kind: KindModel::Upload(elements),
            },
        )
    }
}

/// Adds downloaded entries.
pub open spec fn files_added(b: BuilderModel, infos: Seq<FileInfo>) -> BuilderModel {
    BuilderModel {
        offset: b.offset + infos_len(infos),
        cdfh_sizes: b.cdfh_sizes + record_run(b.offset, infos),
        jobs: append_elements(b.jobs, download_run(b.offset, infos)),
    }
}

/// Adds a copied entry. What is before `start` is downloaded into the last upload.
pub open spec fn copy_added(b: BuilderModel, info: FileInfo, start: Option<usize>) -> BuilderModel {
    let operation = match start {
        Some(size) => S3ObjectOperation::PartialGet { size },
        None => S3ObjectOperation::Head,
    };
    let before = append_elements(b.jobs, seq![entry_element(b.offset, info, operation)]);
    BuilderModel {
        offset: b.offset + info.entry_len(),
        cdfh_sizes: b.cdfh_sizes.push(record_len(info, b.offset)),
        jobs: before.push(
            JobModel {
                number: before.len() as int + 1,
                size: info.size - (match start {
                    Some(size) => size as int,
                    None => 0,
                }),
                kind: KindModel::Copy {
                    copy_source: source_text(info.bucket_name@, info.key@),
                    range: match start {
                        Some(size) => Some(
                            ByteRange { first: size as u64, last: (info.size - 1) as u64 },
                        ),
                        None => None,
                    },
                },
            },
        ),
    }
}

/// Sum of lengths.
pub open spec fn sum_of(sizes: Seq<usize>) -> nat
    decreases sizes.len(),
{
    if sizes.len() == 0 {
        0
    } else {
        sum_of(sizes.drop_last()) + sizes.last() as nat
    }
}

/// The end records of the archive.
pub open spec fn end_of(b: BuilderModel) -> EndOfCentralDirectory64 {
    EndOfCentralDirectory64 {
        record_count: b.cdfh_sizes.len() as usize,
        central_directory_size: sum_of(b.cdfh_sizes) as usize,
        central_directory_offset: b.offset as usize,
        eocd64_offset: (b.offset + sum_of(b.cdfh_sizes)) as usize,
    }
}

/// The finished jobs: the directory is put at their end.
pub open spec fn finished(b: BuilderModel) -> Seq<JobModel> {
    append_elements(
        b.jobs,
        seq![
            ElementModel::Directory {
                total_size: (sum_of(b.cdfh_sizes) + end_of(b).span()) as usize,
                eocd64: end_of(b),
            },
        ],
    )
}

/// Length of what the jobs put into the archive.
pub open spec fn jobs_len(jobs: Seq<JobModel>) -> int
    decreases jobs.len(),
{
    if jobs.len() == 0 {
        0
    } else {
        jobs_len(jobs.drop_last()) + jobs.last().size
    }
}

/// What holds of the builder at every step: the jobs are numbered from one, each upload is
/// as long as its elements, and together they are the archive so far.
pub open spec fn builder_wf(b: BuilderModel) -> bool {
    &&& jobs_len(b.jobs) == b.offset
    &&& forall|i: int|
        0 <= i < b.jobs.len() ==> {
            &&& (#[trigger] b.jobs[i]).number == i + 1
            &&& b.jobs[i].size >= 0
            &&& b.jobs[i].kind matches KindModel::Upload(elements) ==> b.jobs[i].size
                == elements_len(elements)
        }
}

impl UploadPartElement {
    /// How many bytes the element puts into its part.
    pub fn elem_size(&self) -> (len: usize)
        requires
            element_len(self@) <= usize::MAX,
        ensures
            len == element_len(self@),
    {
        match self {
            UploadPartElement::EntryFromS3 { loc, operation, .. } => match operation {
                S3ObjectOperation::Get => loc.size() + loc.file_size,
                S3ObjectOperation::PartialGet { size } => loc.size() + *size,
                S3ObjectOperation::Head => loc.size(),
            },
            UploadPartElement::CentralDirectory { total_size, .. } => *total_size,
        }
    }
}

/// How much memory a job claims while it runs.
pub open spec fn memory_claim(job: JobModel) -> int {
    match job.kind {
        KindModel::Upload(_) => if job.size <= u32::MAX {
            job.size
        } else {
            u32::MAX as int
        },
        KindModel::Copy { .. } => 524_288int,
    }
}

/// An upload claims room for all of its part, as far as the claim can be counted; a copy,
/// whatever its size, claims 512 KiB.
pub proof fn uploads_claim_their_size(job: JobModel)
    requires
        job.size >= 0,
    ensures
        job.kind is Upload && job.size <= u32::MAX ==> memory_claim(job) == job.size,
        job.kind is Upload && job.size > u32::MAX ==> memory_claim(job) == u32::MAX,
        job.kind is Copy ==> memory_claim(job) == 512 * 1024,
{
}

impl PartJob {
    /// How much memory the job claims while it runs: its buffer, or a token for a copy,
    /// which needs none.
    pub fn memory_budget_needed(&self) -> (budget: u32)
        ensures
            budget == memory_claim(self@),
            budget == (match self@.kind {
                KindModel::Upload(_) => if self@.size <= u32::MAX {
                    self@.size
                } else {
                    u32::MAX as int
                },
                KindModel::Copy { .. } => 524_288int,
            }),
    {
        match &self.part_job_type {
            PartJobType::Upload(_) => if self.part_size <= u32::MAX as usize {
                self.part_size as u32
            } else {
                u32::MAX
            },
            PartJobType::Copy { .. } => 512 * 1024,
        }
    }
}

proof fn lemma_elements_len_concat(a: Seq<ElementModel>, b: Seq<ElementModel>)
    ensures
        elements_len(a + b) == elements_len(a) + elements_len(b),
    decreases b.len(),
{
    if b.len() == 0 {
        assert(a + b =~= a);
    } else {
        lemma_elements_len_concat(a, b.drop_last());
        assert((a + b).drop_last() =~= a + b.drop_last());
    }
}

pub(crate) proof fn lemma_one_element(element: ElementModel)
    ensures
        elements_len(seq![element]) == element_len(element),
{
    reveal_with_fuel(elements_len, 2);
    assert(seq![element].drop_last() =~= Seq::empty());
}

proof fn lemma_download_run_len(offset: int, infos: Seq<FileInfo>)
    ensures
        elements_len(download_run(offset, infos)) == infos_len(infos),
    decreases infos.len(),
{
    if infos.len() > 0 {
        lemma_download_run_len(offset, infos.drop_last());
        lemma_download_run_prefix(offset, infos);
        assert(download_run(offset, infos).drop_last() =~= download_run(offset, infos.drop_last()));
    }
}

proof fn lemma_download_run_prefix(offset: int, infos: Seq<FileInfo>)
    requires
        infos.len() > 0,
    ensures
        download_run(offset, infos) == download_run(offset, infos.drop_last()).push(
            entry_element(
                offset + infos_len(infos.drop_last()),
                infos.last(),
                S3ObjectOperation::Get,
            ),
        ),
        record_run(offset, infos) == record_run(offset, infos.drop_last()).push(
            record_len(infos.last(), offset + infos_len(infos.drop_last())),
        ),
{
    let shorter = infos.drop_last();
    assert forall|i: int| 0 <= i < shorter.len() implies infos.take(i) == #[trigger] shorter.take(
        i,
    ) by {
        assert(infos.take(i) =~= shorter.take(i));
    }
    assert(infos.take(shorter.len() as int) =~= shorter);
    assert(download_run(offset, infos) =~= download_run(offset, shorter).push(
        entry_element(offset + infos_len(shorter), infos.last(), S3ObjectOperation::Get),
    )) by {
        assert forall|i: int| 0 <= i < shorter.len() implies download_run(offset, infos)[i]
            == download_run(offset, shorter)[i] by {
            assert(infos.take(i) == shorter.take(i));
        }
    }
    assert(record_run(offset, infos) =~= record_run(offset, shorter).push(
        record_len(infos.last(), offset + infos_len(shorter)),
    )) by {
        assert forall|i: int| 0 <= i < shorter.len() implies record_run(offset, infos)[i]
            == record_run(offset, shorter)[i] by {
            assert(infos.take(i) == shorter.take(i));
        }
    }
}

/// Sum of the elements' lengths.
fn sum_elements(elements: &Vec<UploadPartElement>) -> (sum: usize)
    requires
        elements_len(element_models(elements@)) <= usize::MAX,
    ensures
        sum == elements_len(element_models(elements@)),
{
    let ghost models = element_models(elements@);
    let mut sum: usize = 0;
    for i in 0..elements.len()
        invariant
            models == element_models(elements@),
            elements_len(models) <= usize::MAX,
            sum == elements_len(models.take(i as int)),
    {
        proof {
            let done = models.take(i + 1);
            assert(done.drop_last() =~= models.take(i as int));
            lemma_elements_len_concat(done, models.skip(i + 1));
            assert(done + models.skip(i + 1) =~= models);
        }
        sum = sum + elements[i].elem_size();
    }
    assert(models.take(models.len() as int) =~= models);
    sum
}

proof fn lemma_jobs_last(jobs: Seq<JobModel>)
    requires
        jobs.len() > 0,
        forall|i: int| 0 <= i < jobs.len() ==> (#[trigger] jobs[i]).size >= 0,
    ensures
        0 <= jobs.last().size <= jobs_len(jobs),
    decreases jobs.len(),
{
    lemma_jobs_len_positive(jobs.drop_last());
    assert(jobs[jobs.len() - 1].size >= 0);
}

proof fn lemma_jobs_len_positive(jobs: Seq<JobModel>)
    requires
        forall|i: int| 0 <= i < jobs.len() ==> (#[trigger] jobs[i]).size >= 0,
    ensures
        jobs_len(jobs) >= 0,
    decreases jobs.len(),
{
    if jobs.len() > 0 {
        assert forall|i: int| 0 <= i < jobs.drop_last().len() implies (#[trigger] jobs.drop_last()[
        i]).size >= 0 by {
            assert(jobs[i].size >= 0);
        }
        lemma_jobs_len_positive(jobs.drop_last());
        assert(jobs[jobs.len() - 1].size >= 0);
    }
}

/// Putting elements at the end keeps the jobs numbered and as long as their elements, and
/// makes them longer by what the elements hold.
pub(crate) proof fn lemma_append_elements(b: BuilderModel, elements: Seq<ElementModel>)
    requires
        builder_wf(b),
    ensures
        ({
            let jobs = append_elements(b.jobs, elements);
            &&& builder_wf(
                BuilderModel {
                    offset: b.offset + elements_len(elements),
                    cdfh_sizes: b.cdfh_sizes,
                    jobs,
                },
            )
            &&& ends_with_upload(jobs)
            &&& b.jobs.len() <= jobs.len() <= b.jobs.len() + 1
            &&& b.jobs.len() > 0 && ends_with_upload(b.jobs) ==> jobs.len() == b.jobs.len()
        }),
{
    let jobs = append_elements(b.jobs, elements);
    if ends_with_upload(b.jobs) {
        let all = last_elements(b.jobs) + elements;
        lemma_elements_len_concat(last_elements(b.jobs), elements);
        assert(b.jobs[b.jobs.len() - 1].number == b.jobs.len());
        assert(jobs.drop_last() =~= b.jobs.drop_last());
        assert forall|i: int| 0 <= i < jobs.len() implies {
            &&& (#[trigger] jobs[i]).number == i + 1
            &&& jobs[i].size >= 0
            &&& jobs[i].kind matches KindModel::Upload(elements) ==> jobs[i].size == elements_len(
                elements,
            )
        } by {
            if i < jobs.len() - 1 {
                assert(jobs[i] == b.jobs[i]);
            }
        }
    } else {
        assert(jobs.drop_last() =~= b.jobs);
        assert forall|i: int| 0 <= i < jobs.len() implies {
            &&& (#[trigger] jobs[i]).number == i + 1
            &&& jobs[i].size >= 0
            &&& jobs[i].kind matches KindModel::Upload(elements) ==> jobs[i].size == elements_len(
                elements,
            )
        } by {
            if i < jobs.len() - 1 {
                assert(jobs[i] == b.jobs[i]);
            }
        }
    }
}

/// What a builder step keeps, after downloaded entries.
pub(crate) proof fn lemma_files_added(b: BuilderModel, infos: Seq<FileInfo>)
    requires
        builder_wf(b),
    ensures
        builder_wf(files_added(b, infos)),
        ends_with_upload(files_added(b, infos).jobs),
        files_added(b, infos).jobs.len() <= b.jobs.len() + 1,
{
    lemma_append_elements(b, download_run(b.offset, infos));
    lemma_download_run_len(b.offset, infos);
}

/// What a builder step keeps, after a copied entry.
pub(crate) proof fn lemma_copy_added(b: BuilderModel, info: FileInfo, start: Option<usize>)
    requires
        builder_wf(b),
        ends_with_upload(b.jobs),
        start matches Some(size) ==> size <= info.size,
    ensures
        builder_wf(copy_added(b, info, start)),
        copy_added(b, info, start).jobs.len() == b.jobs.len() + 1,
{
    let operation = match start {
        Some(size) => S3ObjectOperation::PartialGet { size },
        None => S3ObjectOperation::Head,
    };
    let element = entry_element(b.offset, info, operation);
    let one = seq![element];
    lemma_append_elements(b, one);
    lemma_one_element(element);
    let before = append_elements(b.jobs, one);
    let after = copy_added(b, info, start).jobs;
    assert(after.drop_last() =~= before);
    assert forall|i: int| 0 <= i < after.len() implies {
        &&& (#[trigger] after[i]).number == i + 1
        &&& after[i].size >= 0
        &&& after[i].kind matches KindModel::Upload(elements) ==> after[i].size == elements_len(
            elements,
        )
    } by {
        if i < before.len() {
            assert(after[i] == before[i]);
        }
    }
}

proof fn lemma_job_models_push(jobs: Seq<PartJob>, job: PartJob)
    ensures
        job_models(jobs.push(job)) == job_models(jobs).push(job@),
{
    assert(job_models(jobs.push(job)) =~= job_models(jobs).push(job@));
}

/// Puts elements at the end of the jobs: into the last upload, or into a new one.
fn append_to_jobs(parts: &mut Vec<PartJob>, elements: Vec<UploadPartElement>)
    requires
        old(parts)@.len() < i32::MAX,
        elements_len(element_models(elements@)) + (if ends_with_upload(job_models(old(parts)@)) {
            elements_len(last_elements(job_models(old(parts)@)))
        } else {
            0
        }) <= usize::MAX,
    ensures
        job_models(final(parts)@) == append_elements(
            job_models(old(parts)@),
            element_models(elements@),
        ),
{
    let ghost before = job_models(parts@);
    let ghost added = element_models(elements@);
    let mut elements: Vec<UploadPartElement> = elements;
    match parts.pop() {
        Some(PartJob { part_number, part_size, part_job_type: PartJobType::Upload(held) }) => {
            let mut held: Vec<UploadPartElement> = held;
            let ghost first = element_models(held@);
            proof {
                assert(before.last().kind == KindModel::Upload(first));
                assert(job_models(parts@) =~= before.drop_last());
                lemma_elements_len_concat(first, added);
            }
            held.append(&mut elements);
            assert(element_models(held@) =~= first + added);
            let size: usize = sum_elements(&held);
            let job: PartJob = PartJob {
                part_number,
                part_size: size,
                part_job_type: PartJobType::Upload(held),
            };
            proof {
                lemma_job_models_push(parts@, job);
            }
            parts.push(job);
        },
        Some(copy) => {
            proof {
                assert(job_models(parts@) =~= before.drop_last());
                lemma_job_models_push(parts@, copy);
                assert(before.drop_last().push(before.last()) =~= before);
            }
            parts.push(copy);
            append_new_upload(parts, elements);
        },
        None => {
            assert(job_models(parts@) =~= before);
            append_new_upload(parts, elements);
        },
    }
}

/// Puts a new upload at the end of the jobs.
fn append_new_upload(parts: &mut Vec<PartJob>, elements: Vec<UploadPartElement>)
    requires
        old(parts)@.len() < i32::MAX,
        elements_len(element_models(elements@)) <= usize::MAX,
        !ends_with_upload(job_models(old(parts)@)),
    ensures
        job_models(final(parts)@) == append_elements(
            job_models(old(parts)@),
            element_models(elements@),
        ),
{
    let size: usize = sum_elements(&elements);
    let job: PartJob = PartJob {
        part_number: parts.len() as i32 + 1,
        part_size: size,
        part_job_type: PartJobType::Upload(elements),
    };
    proof {
        lemma_job_models_push(parts@, job);
    }
    parts.push(job);
}

impl PartJobsBuilder {
    /// What holds of the builder at every step.
    pub open spec fn wf(&self) -> bool {
        builder_wf(self@)
    }

    /// A builder with nothing in it.
    pub fn new() -> (builder: PartJobsBuilder)
        ensures
            builder.wf(),
            builder@ == (BuilderModel {
                offset: 0,
                cdfh_sizes: Seq::empty(),
                jobs: Seq::empty(),
            }),
    {
        let builder: PartJobsBuilder = PartJobsBuilder {
            current_archive_offset: 0,
            cdfh_sizes: Vec::new(),
            parts: Vec::new(),
        };
        assert(builder@.jobs =~= Seq::empty());
        builder
    }

    /// Adds downloaded entries to the last upload, or to a new one behind a copy.
    pub fn add_files(&mut self, file_infos: Vec<FileInfo>)
        requires
            old(self).wf(),
            old(self)@.offset + infos_len(file_infos@) <= usize::MAX,
            old(self)@.jobs.len() < i32::MAX,
            forall|i: int|
                0 <= i < file_infos@.len() ==> cdfh_span(
                    (#[trigger] file_infos@[i]).size,
                    encode_utf8(file_infos@[i].name@).len(),
                    (old(self)@.offset + infos_len(file_infos@.take(i))) as usize,
                ) <= usize::MAX,
        ensures
            final(self).wf(),
            final(self)@ == files_added(old(self)@, file_infos@),
    {
        let ghost before = self@;
        let ghost infos = file_infos@;
        let mut elements: Vec<UploadPartElement> = Vec::new();
        assert(infos.take(0) =~= Seq::empty());
        assert(element_models(elements@) =~= download_run(before.offset, infos.take(0)));
        assert(self@.cdfh_sizes =~= before.cdfh_sizes + record_run(before.offset, infos.take(0)));
        for info in it: file_infos
            invariant
                it.seq() == infos,
                before.offset + infos_len(infos) <= usize::MAX,
                forall|i: int|
                    0 <= i < infos.len() ==> cdfh_span(
                        (#[trigger] infos[i]).size,
                        encode_utf8(infos[i].name@).len(),
                        (before.offset + infos_len(infos.take(i))) as usize,
                    ) <= usize::MAX,
                element_models(elements@) == download_run(before.offset, infos.take(it.index())),
                self@.offset == before.offset + infos_len(infos.take(it.index())),
                self@.cdfh_sizes == before.cdfh_sizes + record_run(
                    before.offset,
                    infos.take(it.index()),
                ),
                self@.jobs == before.jobs,
        {
            let ghost n = it.index();
            let ghost done = infos.take(n + 1);
            proof {
                assert(info == infos[n]);
                assert(done.drop_last() =~= infos.take(n));
                lemma_download_run_prefix(before.offset, done);
                lemma_infos_len_prefix(infos, n + 1);
            }
            let name: &[u8] = info.name.as_str().as_bytes();
            let name_len: usize = name.len();
            let size: usize = info.size;
            let offset: usize = self.current_archive_offset;
            self.cdfh_sizes.push(CentralDirectoryFileHeader::predict_size(size, name_len, offset));
            let loc: LocalFileHeader<NoCRC> = LocalFileHeader::new(offset, info.name, size);
            self.current_archive_offset = offset + loc.size() + size;
            elements.push(
                UploadPartElement::EntryFromS3 {
                    loc,
                    operation: S3ObjectOperation::Get,
                    bucket_name: info.bucket_name,
                    key: info.key,
                },
            );
            proof {
                assert(element_models(elements@) =~= download_run(before.offset, done));
                assert(self.cdfh_sizes@ =~= before.cdfh_sizes + record_run(before.offset, done));
            }
        }
        proof {
            assert(infos.take(infos.len() as int) =~= infos);
            lemma_download_run_len(before.offset, infos);
            if ends_with_upload(before.jobs) {
                lemma_jobs_last(before.jobs);
                assert(before.jobs[before.jobs.len() - 1].size == elements_len(
                    last_elements(before.jobs),
                ));
            }
            lemma_files_added(before, infos);
        }
        append_to_jobs(&mut self.parts, elements);
    }

    /// Adds an entry whose whole content is copied.
    pub fn copy_file(&mut self, file_info: FileInfo)
        requires
            old(self).wf(),
            copy_fits(old(self)@, file_info, None),
        ensures
            final(self).wf(),
            final(self)@ == copy_added(old(self)@, file_info, None),
    {
        self.copy_entry(file_info, None);
    }

    /// Adds an entry whose content is copied from `start_byte` on.
    pub fn partial_copy_file(&mut self, file_info: FileInfo, start_byte: usize)
        requires
            old(self).wf(),
            copy_fits(old(self)@, file_info, Some(start_byte)),
        ensures
            final(self).wf(),
            final(self)@ == copy_added(old(self)@, file_info, Some(start_byte)),
    {
        self.copy_entry(file_info, Some(start_byte));
    }

    /// Adds a copied entry: its header, and what is downloaded of it, to the last upload, and
    /// a new copy behind it.
    fn copy_entry(&mut self, file_info: FileInfo, start_byte: Option<usize>)
        requires
            old(self).wf(),
            copy_fits(old(self)@, file_info, start_byte),
        ensures
            final(self).wf(),
            final(self)@ == copy_added(old(self)@, file_info, start_byte),
    {
        let ghost before = self@;
        let ghost info = file_info;
        proof {
            lemma_copy_added(before, info, start_byte);
            lemma_jobs_last(before.jobs);
            assert(before.jobs[before.jobs.len() - 1].size == elements_len(
                last_elements(before.jobs),
            ));
        }
        let offset: usize = self.current_archive_offset;
        let size: usize = file_info.size;
        let name: &[u8] = file_info.name.as_str().as_bytes();
        let name_len: usize = name.len();
        self.cdfh_sizes.push(CentralDirectoryFileHeader::predict_size(size, name_len, offset));
        let mut copy_source: String = file_info.bucket_name.clone();
        copy_source.append("/");
        copy_source.append(file_info.key.as_str());
        let loc: LocalFileHeader<NoCRC> = LocalFileHeader::new(offset, file_info.name, size);
        let loc_size: usize = loc.size();
        let operation: S3ObjectOperation = match start_byte {
            Some(start) => S3ObjectOperation::PartialGet { size: start },
            None => S3ObjectOperation::Head,
        };
        let part_size: usize = match start_byte {
            Some(start) => size - start,
            None => size,
        };
        let range: Option<ByteRange> = match start_byte {
            Some(start) => Some(ByteRange { first: start as u64, last: (size - 1) as u64 }),
            None => None,
        };
        let mut elements: Vec<UploadPartElement> = Vec::new();
        elements.push(
            UploadPartElement::EntryFromS3 {
                loc,
                operation,
                bucket_name: file_info.bucket_name,
                key: file_info.key,
            },
        );
        proof {
            let element = entry_element(before.offset, info, operation);
            assert(element_models(elements@) =~= seq![element]);
            lemma_one_element(element);
        }
        append_to_jobs(&mut self.parts, elements);
        let ghost with_element = job_models(self.parts@);
        let job: PartJob = PartJob {
            part_number: self.parts.len() as i32 + 1,
            part_size,
            part_job_type: PartJobType::Copy { copy_source, range },
        };
        proof {
            lemma_append_elements(
                before,
                seq![entry_element(before.offset, info, operation)],
            );
            lemma_job_models_push(self.parts@, job);
        }
        self.parts.push(job);
        self.current_archive_offset = offset + loc_size + size;
        assert(self@ =~= copy_added(before, info, start_byte));
    }

    /// The finished jobs, the directory at their end.
    pub fn finalize(self) -> (jobs: Vec<PartJob>)
        requires
            self.wf(),
            self@.offset + sum_of(self@.cdfh_sizes) + 98 <= usize::MAX,
            self@.jobs.len() < i32::MAX,
        ensures
            job_models(jobs@) == finished(self@),
    {
        let ghost b = self@;
        let record_count: usize = self.cdfh_sizes.len();
        let mut cd_size: usize = 0;
        for i in 0..record_count
            invariant
                record_count == self.cdfh_sizes@.len(),
                b == self@,
                b.offset >= 0,
                b.offset + sum_of(b.cdfh_sizes) + 98 <= usize::MAX,
                cd_size == sum_of(self.cdfh_sizes@.take(i as int)),
        {
            proof {
                assert(self.cdfh_sizes@.take(i + 1).drop_last() =~= self.cdfh_sizes@.take(
                    i as int,
                ));
                lemma_sum_of_prefix(self.cdfh_sizes@, i + 1);
            }
            cd_size = cd_size + self.cdfh_sizes[i];
        }
        assert(self.cdfh_sizes@.take(record_count as int) =~= self.cdfh_sizes@);
        let eocd64: EndOfCentralDirectory64 = EndOfCentralDirectory64 {
            record_count,
            central_directory_size: cd_size,
            central_directory_offset: self.current_archive_offset,
            eocd64_offset: self.current_archive_offset + cd_size,
        };
        let total_size: usize = cd_size + eocd64.size();
        let mut elements: Vec<UploadPartElement> = Vec::new();
        elements.push(UploadPartElement::CentralDirectory { total_size, eocd64 });
        proof {
            let element = ElementModel::Directory { total_size, eocd64: end_of(b) };
            assert(element_models(elements@) =~= seq![element]);
            lemma_one_element(element);
            if ends_with_upload(b.jobs) {
                lemma_jobs_last(b.jobs);
                assert(b.jobs[b.jobs.len() - 1].size == elements_len(last_elements(b.jobs)));
            }
        }
        let mut parts: Vec<PartJob> = self.parts;
        append_to_jobs(&mut parts, elements);
        parts
    }
}

/// A copied entry can be added: it follows an upload, the archive stays addressable, and a
/// partial copy copies something.
pub open spec fn copy_fits(b: BuilderModel, info: FileInfo, start: Option<usize>) -> bool {
    &&& ends_with_upload(b.jobs)
    &&& b.offset + info.entry_len() <= usize::MAX
    &&& cdfh_span(info.size, encode_utf8(info.name@).len(), b.offset as usize) <= usize::MAX
    &&& b.jobs.len() < i32::MAX
    &&& start matches Some(size) ==> size <= info.size && info.size > 0
}

proof fn lemma_sum_of_prefix(sizes: Seq<usize>, i: int)
    requires
        0 <= i <= sizes.len(),
    ensures
        sum_of(sizes.take(i)) <= sum_of(sizes),
    decreases sizes.len(),
{
    if i == sizes.len() {
        assert(sizes.take(i) =~= sizes);
    } else {
        lemma_sum_of_prefix(sizes.drop_last(), i);
        assert(sizes.drop_last().take(i) =~= sizes.take(i));
    }
}

proof fn lemma_infos_len_prefix(infos: Seq<FileInfo>, i: int)
    requires
        0 <= i <= infos.len(),
    ensures
        infos_len(infos.take(i)) <= infos_len(infos),
    decreases infos.len(),
{
    if i == infos.len() {
        assert(infos.take(i) =~= infos);
    } else {
        lemma_infos_len_prefix(infos.drop_last(), i);
        assert(infos.drop_last().take(i) =~= infos.take(i));
    }
}

/// Adds one unit of the layout.
pub open spec fn unit_added(b: BuilderModel, part: PartPlan) -> BuilderModel {
    match part {
        PartPlan::Single(regular) => files_added(b, regular),
        PartPlan::Duo { regular, copy: CopyZipPart::FullCopy(f) } => copy_added(
            files_added(b, regular),
            f,
            None,
        ),
        PartPlan::Duo {
            regular,
            copy: CopyZipPart::PartialCopy { file_entry, copy_start_byte },
        } => copy_added(files_added(b, regular), file_entry, Some(copy_start_byte)),
    }
}

/// The builder after the first `n` units of the layout.
pub open spec fn built(parts: Seq<PartPlan>, n: nat) -> BuilderModel
    decreases n,
{
    if n == 0 {
        BuilderModel { offset: 0, cdfh_sizes: Seq::empty(), jobs: Seq::empty() }
    } else {
        unit_added(built(parts, (n - 1) as nat), parts[n - 1])
    }
}

/// The jobs of a layout.
pub open spec fn jobs_of(parts: Seq<PartPlan>) -> Seq<JobModel> {
    finished(built(parts, parts.len()))
}

/// Length of the directory records of the first `n` files, which stand one behind the other.
pub open spec fn directory_len(files: Seq<FileInfo>, n: int) -> nat
    decreases n,
{
    if n <= 0 {
        0
    } else {
        directory_len(files, n - 1) + cdfh_span(
            files[n - 1].size,
            encode_utf8(files[n - 1].name@).len(),
            infos_len(files.take(n - 1)) as usize,
        )
    }
}

/// Every partial copy of the layout copies something.
pub open spec fn copies_sound(parts: Seq<PartPlan>) -> bool {
    forall|i: int|
        0 <= i < parts.len() ==> (#[trigger] parts[i] matches PartPlan::Duo {
            copy: CopyZipPart::PartialCopy { file_entry, copy_start_byte },
            ..
        } ==> copy_start_byte <= file_entry.size && file_entry.size > 0)
}

/// The archive of a layout can be addressed, its directory with it, and its parts numbered.
pub open spec fn jobs_fit(parts: Seq<PartPlan>) -> bool {
    let files = layout_files(parts);
    &&& infos_len(files) + directory_len(files, files.len() as int) + 98 <= usize::MAX
    &&& 2 * parts.len() < i32::MAX
    &&& copies_sound(parts)
}

pub(crate) proof fn lemma_directory_len_prefix(a: Seq<FileInfo>, b: Seq<FileInfo>, n: int)
    requires
        0 <= n <= a.len() <= b.len(),
        forall|i: int| 0 <= i < n ==> a[i] == b[i],
    ensures
        directory_len(a, n) == directory_len(b, n),
    decreases n,
{
    if n > 0 {
        lemma_directory_len_prefix(a, b, n - 1);
        assert(a.take(n - 1) =~= b.take(n - 1));
    }
}

pub(crate) proof fn lemma_directory_len_monotonic(files: Seq<FileInfo>, i: int, j: int)
    requires
        i <= j,
    ensures
        directory_len(files, i) <= directory_len(files, j),
    decreases j - i,
{
    if i < j {
        lemma_directory_len_monotonic(files, i, j - 1);
    }
}

pub(crate) proof fn lemma_sum_of_push(sizes: Seq<usize>, x: usize)
    ensures
        sum_of(sizes.push(x)) == sum_of(sizes) + x,
{
    assert(sizes.push(x).drop_last() =~= sizes);
}

/// No record of an entry that follows `before` is longer than the directory.
proof fn lemma_record_bound(before: Seq<FileInfo>, infos: Seq<FileInfo>, i: int)
    requires
        0 <= i < infos.len(),
    ensures
        cdfh_span(
            infos[i].size,
            encode_utf8(infos[i].name@).len(),
            (infos_len(before) + infos_len(infos.take(i))) as usize,
        ) <= directory_len(before + infos, (before + infos).len() as int),
{
    let all = before + infos;
    let n = before.len() + i;
    assert(all.take(n) =~= before + infos.take(i));
    lemma_infos_len_append(before, infos.take(i));
    assert(all[n] == infos[i]);
    assert(directory_len(all, n + 1) == directory_len(all, n) + cdfh_span(
        all[n].size,
        encode_utf8(all[n].name@).len(),
        infos_len(all.take(n)) as usize,
    ));
    lemma_directory_len_monotonic(all, n + 1, all.len() as int);
}

/// The record of one more entry is what the directory grows by.
proof fn lemma_record_grows(before: Seq<FileInfo>, infos: Seq<FileInfo>)
    requires
        infos.len() > 0,
        directory_len(before + infos, (before + infos).len() as int) <= usize::MAX,
    ensures
        ({
            let rest = before + infos.drop_last();
            directory_len(before + infos, (before + infos).len() as int) == directory_len(
                rest,
                rest.len() as int,
            ) + record_len(
                infos.last(),
                (infos_len(before) + infos_len(infos.drop_last())) as int,
            )
        }),
{
    let all = before + infos;
    let shorter = infos.drop_last();
    let rest = before + shorter;
    let n = rest.len() as int;
    lemma_record_bound(before, infos, infos.len() - 1);
    assert(infos.take(infos.len() - 1) =~= shorter);
    assert(all.take(n) =~= rest);
    lemma_infos_len_append(before, shorter);
    lemma_directory_len_prefix(rest, all, n);
    assert(all[n] == infos.last());
}

/// The records of entries that follow `before` add up to what the directory grows by.
pub(crate) proof fn lemma_record_run(sizes: Seq<usize>, before: Seq<FileInfo>, infos: Seq<FileInfo>)
    requires
        sum_of(sizes) == directory_len(before, before.len() as int),
        infos_len(before + infos) <= usize::MAX,
        directory_len(before + infos, (before + infos).len() as int) <= usize::MAX,
    ensures
        sum_of(sizes + record_run(infos_len(before) as int, infos)) == directory_len(
            before + infos,
            (before + infos).len() as int,
        ),
        forall|i: int|
            0 <= i < infos.len() ==> cdfh_span(
                (#[trigger] infos[i]).size,
                encode_utf8(infos[i].name@).len(),
                (infos_len(before) + infos_len(infos.take(i))) as usize,
            ) <= usize::MAX,
{
    lemma_record_sum(sizes, before, infos);
    assert forall|i: int| 0 <= i < infos.len() implies cdfh_span(
        (#[trigger] infos[i]).size,
        encode_utf8(infos[i].name@).len(),
        (infos_len(before) + infos_len(infos.take(i))) as usize,
    ) <= usize::MAX by {
        lemma_record_bound(before, infos, i);
    }
}

proof fn lemma_record_sum(sizes: Seq<usize>, before: Seq<FileInfo>, infos: Seq<FileInfo>)
    requires
        sum_of(sizes) == directory_len(before, before.len() as int),
        directory_len(before + infos, (before + infos).len() as int) <= usize::MAX,
    ensures
        sum_of(sizes + record_run(infos_len(before) as int, infos)) == directory_len(
            before + infos,
            (before + infos).len() as int,
        ),
    decreases infos.len(),
{
    let offset = infos_len(before) as int;
    if infos.len() == 0 {
        assert(before + infos =~= before);
        assert(sizes + record_run(offset, infos) =~= sizes);
    } else {
        let shorter = infos.drop_last();
        lemma_record_grows(before, infos);
        lemma_record_sum(sizes, before, shorter);
        let x = record_len(infos.last(), offset + infos_len(shorter));
        assert(infos.take(infos.len() - 1) =~= shorter);
        assert forall|i: int| 0 <= i < shorter.len() implies #[trigger] infos.take(i)
            == shorter.take(i) by {
            assert(infos.take(i) =~= shorter.take(i));
        }
        assert(sizes + record_run(offset, infos) =~= (sizes + record_run(offset, shorter)).push(x));
        lemma_sum_of_push(sizes + record_run(offset, shorter), x);
    }
}

pub(crate) proof fn lemma_infos_len_append(a: Seq<FileInfo>, b: Seq<FileInfo>)
    ensures
        infos_len(a + b) == infos_len(a) + infos_len(b),
    decreases b.len(),
{
    if b.len() == 0 {
        assert(a + b =~= a);
    } else {
        lemma_infos_len_append(a, b.drop_last());
        assert((a + b).drop_last() =~= a + b.drop_last());
    }
}

/// After some units the archive is as long as their entries, and the directory records are
/// as long as `directory_len` says.
proof fn lemma_built(parts: Seq<PartPlan>, n: nat)
    requires
        jobs_fit(parts),
        n <= parts.len(),
    ensures
        ({
            let b = built(parts, n);
            let files = layout_files(parts.take(n as int));
            &&& builder_wf(b)
            &&& b.offset == infos_len(files)
            &&& sum_of(b.cdfh_sizes) == directory_len(files, files.len() as int)
            &&& b.cdfh_sizes.len() == files.len()
            &&& b.jobs.len() <= 2 * n
            &&& infos_len(files) + directory_len(files, files.len() as int) + 98 <= usize::MAX
            &&& n < parts.len() ==> {
                let next = unit_files(parts[n as int]);
                &&& infos_len(files + next) + directory_len(
                    files + next,
                    (files + next).len() as int,
                ) + 98 <= usize::MAX
            }
        }),
    decreases n,
{
    let files = layout_files(parts.take(n as int));
    let all = layout_files(parts);
    lemma_layout_files_prefix(parts, n as int);
    lemma_directory_len_prefix(files, all, files.len() as int);
    lemma_directory_len_monotonic(all, files.len() as int, all.len() as int);
    lemma_infos_len_prefix(all, files.len() as int);
    assert(all.take(files.len() as int) =~= files);
    if n < parts.len() {
        let next = unit_files(parts[n as int]);
        let more = parts.take(n as int + 1);
        assert(more.drop_last() =~= parts.take(n as int));
        assert(layout_files(more) == files + next);
        lemma_layout_files_prefix(parts, n as int + 1);
        lemma_directory_len_prefix(files + next, all, (files + next).len() as int);
        lemma_directory_len_monotonic(all, (files + next).len() as int, all.len() as int);
        lemma_infos_len_prefix(all, (files + next).len() as int);
        assert(all.take((files + next).len() as int) =~= files + next);
    }
    if n > 0 {
        let m = (n - 1) as nat;
        lemma_built(parts, m);
        let b = built(parts, m);
        let before = layout_files(parts.take(m as int));
        let part = parts[m as int];
        assert(parts.take(n as int).drop_last() =~= parts.take(m as int));
        assert(files == before + unit_files(part));
        lemma_unit_added(b, part, before);
    }
}

proof fn lemma_layout_files_prefix(parts: Seq<PartPlan>, n: int)
    requires
        0 <= n <= parts.len(),
    ensures
        layout_files(parts.take(n)).is_prefix_of(layout_files(parts)),
    decreases parts.len(),
{
    if n == parts.len() {
        assert(parts.take(n) =~= parts);
    } else {
        lemma_layout_files_prefix(parts.drop_last(), n);
        assert(parts.drop_last().take(n) =~= parts.take(n));
    }
}

/// What adding a unit does to the archive's length and its directory, and what it needs.
proof fn lemma_unit_added(b: BuilderModel, part: PartPlan, before: Seq<FileInfo>)
    requires
        builder_wf(b),
        b.offset == infos_len(before),
        sum_of(b.cdfh_sizes) == directory_len(before, before.len() as int),
        b.cdfh_sizes.len() == before.len(),
        infos_len(before + unit_files(part)) <= usize::MAX,
        directory_len(before + unit_files(part), (before + unit_files(part)).len() as int)
            <= usize::MAX,
        part matches PartPlan::Duo {
            copy: CopyZipPart::PartialCopy { file_entry, copy_start_byte },
            ..
        } ==> copy_start_byte <= file_entry.size,
    ensures
        ({
            let after = unit_added(b, part);
            let files = before + unit_files(part);
            &&& builder_wf(after)
            &&& after.offset == infos_len(files)
            &&& sum_of(after.cdfh_sizes) == directory_len(files, files.len() as int)
            &&& after.cdfh_sizes.len() == files.len()
            &&& after.jobs.len() <= b.jobs.len() + 2
        }),
        part matches PartPlan::Duo { regular, copy } ==> {
            let mid = files_added(b, regular);
            let f = copied_file(copy);
            &&& infos_len(before + regular) <= usize::MAX
            &&& directory_len(before + regular, (before + regular).len() as int) <= usize::MAX
            &&& mid.offset + f.entry_len() <= usize::MAX
            &&& cdfh_span(f.size, encode_utf8(f.name@).len(), mid.offset as usize) <= usize::MAX
        },
{
    match part {
        PartPlan::Single(regular) => {
            lemma_files_added(b, regular);
            lemma_infos_len_append(before, regular);
            lemma_record_run(b.cdfh_sizes, before, regular);
        },
        PartPlan::Duo { regular, copy } => {
            let f = copied_file(copy);
            let files = before + unit_files(part);
            let mid_files = before + regular;
            assert(files =~= mid_files.push(f));
            assert(files.drop_last() =~= mid_files);
            lemma_directory_len_prefix(mid_files, files, mid_files.len() as int);
            lemma_directory_len_monotonic(files, mid_files.len() as int, files.len() as int);
            lemma_infos_len_prefix(files, mid_files.len() as int);
            assert(files.take(mid_files.len() as int) =~= mid_files);
            lemma_files_added(b, regular);
            lemma_infos_len_append(before, regular);
            lemma_record_run(b.cdfh_sizes, before, regular);
            let mid = files_added(b, regular);
            let start = match copy {
                CopyZipPart::FullCopy(_) => None,
                CopyZipPart::PartialCopy { copy_start_byte, .. } => Some(copy_start_byte),
            };
            lemma_copy_added(mid, f, start);
            lemma_sum_of_push(mid.cdfh_sizes, record_len(f, mid.offset));
        },
    }
}

impl PartJobsBuilder {
    /// Adds one unit of a layout, behind the files `before`.
    fn add_unit(&mut self, part: ZipLayoutPart, Ghost(before): Ghost<Seq<FileInfo>>)
        requires
            old(self).wf(),
            old(self)@.jobs.len() + 2 < i32::MAX,
            old(self)@.offset == infos_len(before),
            sum_of(old(self)@.cdfh_sizes) == directory_len(before, before.len() as int),
            old(self)@.cdfh_sizes.len() == before.len(),
            ({
                let files = before + unit_files(part@);
                &&& infos_len(files) <= usize::MAX
                &&& directory_len(files, files.len() as int) <= usize::MAX
            }),
            part@ matches PartPlan::Duo {
                copy: CopyZipPart::PartialCopy { file_entry, copy_start_byte },
                ..
            } ==> copy_start_byte <= file_entry.size && file_entry.size > 0,
        ensures
            final(self).wf(),
            final(self)@ == unit_added(old(self)@, part@),
    {
        let ghost b = self@;
        proof {
            lemma_unit_added(b, part@, before);
        }
        match part {
            ZipLayoutPart::Single(regular) => {
                proof {
                    lemma_record_run(b.cdfh_sizes, before, regular.0@);
                    lemma_infos_len_append(before, regular.0@);
                }
                self.add_files(regular.0);
            },
            ZipLayoutPart::Duo { regular, copy } => {
                proof {
                    lemma_record_run(b.cdfh_sizes, before, regular.0@);
                    lemma_infos_len_append(before, regular.0@);
                    lemma_files_added(b, regular.0@);
                }
                self.add_files(regular.0);
                match copy {
                    CopyZipPart::FullCopy(file_entry) => self.copy_file(file_entry),
                    CopyZipPart::PartialCopy {
                        file_entry,
                        copy_start_byte,
                    } => self.partial_copy_file(file_entry, copy_start_byte),
                }
            },
        }
    }
}

impl ZipLayout {
    /// The jobs of the layout.
    pub fn into_part_jobs(self) -> (jobs: Vec<PartJob>)
        requires
            jobs_fit(part_plans(self.parts@)),
        ensures
            job_models(jobs@) == jobs_of(part_plans(self.parts@)),
    {
        let ghost plans = part_plans(self.parts@);
        let mut builder: PartJobsBuilder = PartJobsBuilder::new();
        for part in it: self.parts
            invariant
                it.seq() == self.parts@,
                plans == part_plans(self.parts@),
                jobs_fit(plans),
                builder.wf(),
                builder@ == built(plans, it.index() as nat),
        {
            let ghost n = it.index();
            proof {
                assert(plans[n] == part@);
                lemma_built(plans, n as nat);
            }
            builder.add_unit(part, Ghost(layout_files(plans.take(n))));
        }
        proof {
            lemma_built(plans, plans.len());
        }
        builder.finalize()
    }
}

/// What the objects hold, by the name that S3 takes in a copy: the content, and its checksum
/// in the byte order of the archive.
pub struct Objects {
    pub body: spec_fn(Seq<char>) -> Seq<u8>,
    pub crc: spec_fn(Seq<char>) -> Seq<u8>,
}

/// The name that S3 takes for a file in a copy.
pub open spec fn source_of(info: FileInfo) -> Seq<char> {
    source_text(info.bucket_name@, info.key@)
}

/// Every content is as long as the listing says, and every checksum has its four bytes.
pub open spec fn objects_match(files: Seq<FileInfo>, objects: Objects) -> bool {
    forall|i: int|
        #![trigger files[i]]
        0 <= i < files.len() ==> (objects.body)(source_of(files[i])).len() == files[i].size && (
        objects.crc)(source_of(files[i])).len() == 4
}

/// The local header of a file's entry.
pub open spec fn info_header(info: FileInfo, objects: Objects) -> Seq<u8> {
    loc_bytes(encode_utf8(info.name@), info.size, (objects.crc)(source_of(info)))
}

/// A file's entry: local header and content.
pub open spec fn info_entry(info: FileInfo, objects: Objects) -> Seq<u8> {
    info_header(info, objects) + (objects.body)(source_of(info))
}

/// The files' entries, one behind the other.
pub open spec fn info_entries(files: Seq<FileInfo>, objects: Objects) -> Seq<u8>
    decreases files.len(),
{
    if files.len() == 0 {
        Seq::empty()
    } else {
        info_entries(files.drop_last(), objects) + info_entry(files.last(), objects)
    }
}

/// The bytes of an element.
pub open spec fn element_bytes(
    objects: Objects,
    directory: Seq<u8>,
    element: ElementModel,
) -> Seq<u8> {
    match element {
        ElementModel::Entry { name, file_size, operation, bucket_name, key, .. } => {
            let source = source_text(bucket_name, key);
            let header = loc_bytes(encode_utf8(name), file_size, (objects.crc)(source));
            match operation {
                S3ObjectOperation::Get => header + (objects.body)(source),
                S3ObjectOperation::PartialGet { size } => header + (objects.body)(source).take(
                    size as int,
                ),
                S3ObjectOperation::Head => header,
            }
        },
        ElementModel::Directory { .. } => directory,
    }
}

/// The bytes of consecutive elements.
pub open spec fn elements_bytes(
    objects: Objects,
    directory: Seq<u8>,
    elements: Seq<ElementModel>,
) -> Seq<u8>
    decreases elements.len(),
{
    if elements.len() == 0 {
        Seq::empty()
    } else {
        elements_bytes(objects, directory, elements.drop_last()) + element_bytes(
            objects,
            directory,
            elements.last(),
        )
    }
}

/// The bytes of a part.
pub open spec fn job_bytes(objects: Objects, directory: Seq<u8>, job: JobModel) -> Seq<u8> {
    match job.kind {
        KindModel::Upload(elements) => elements_bytes(objects, directory, elements),
        KindModel::Copy { copy_source, range } => match range {
            Some(r) => (objects.body)(copy_source).subrange(r.first as int, r.last as int + 1),
            None => (objects.body)(copy_source),
        },
    }
}

/// The object that S3 makes of the parts.
pub open spec fn jobs_bytes(objects: Objects, directory: Seq<u8>, jobs: Seq<JobModel>) -> Seq<u8>
    decreases jobs.len(),
{
    if jobs.len() == 0 {
        Seq::empty()
    } else {
        jobs_bytes(objects, directory, jobs.drop_last()) + job_bytes(
            objects,
            directory,
            jobs.last(),
        )
    }
}

proof fn lemma_elements_bytes_concat(
    objects: Objects,
    directory: Seq<u8>,
    a: Seq<ElementModel>,
    b: Seq<ElementModel>,
)
    ensures
        elements_bytes(objects, directory, a + b) == elements_bytes(objects, directory, a)
            + elements_bytes(objects, directory, b),
    decreases b.len(),
{
    let left = elements_bytes(objects, directory, a);
    if b.len() == 0 {
        assert(a + b =~= a);
        assert(left + Seq::<u8>::empty() =~= left);
    } else {
        lemma_elements_bytes_concat(objects, directory, a, b.drop_last());
        assert((a + b).drop_last() =~= a + b.drop_last());
        assert(elements_bytes(objects, directory, a + b) =~= left + elements_bytes(
            objects,
            directory,
            b,
        ));
    }
}

proof fn lemma_append_bytes(
    objects: Objects,
    directory: Seq<u8>,
    jobs: Seq<JobModel>,
    elements: Seq<ElementModel>,
)
    ensures
        jobs_bytes(objects, directory, append_elements(jobs, elements)) == jobs_bytes(
            objects,
            directory,
            jobs,
        ) + elements_bytes(objects, directory, elements),
{
    let after = append_elements(jobs, elements);
    if ends_with_upload(jobs) {
        lemma_elements_bytes_concat(objects, directory, last_elements(jobs), elements);
        assert(after.drop_last() =~= jobs.drop_last());
        assert(jobs_bytes(objects, directory, after) =~= jobs_bytes(objects, directory, jobs)
            + elements_bytes(objects, directory, elements));
    } else {
        assert(after.drop_last() =~= jobs);
    }
}

proof fn lemma_download_bytes(
    objects: Objects,
    directory: Seq<u8>,
    offset: int,
    infos: Seq<FileInfo>,
)
    ensures
        elements_bytes(objects, directory, download_run(offset, infos)) == info_entries(
            infos,
            objects,
        ),
    decreases infos.len(),
{
    if infos.len() > 0 {
        lemma_download_bytes(objects, directory, offset, infos.drop_last());
        lemma_download_run_prefix(offset, infos);
        assert(download_run(offset, infos).drop_last() =~= download_run(offset, infos.drop_last()));
    }
}

proof fn lemma_info_entries_concat(a: Seq<FileInfo>, b: Seq<FileInfo>, objects: Objects)
    ensures
        info_entries(a + b, objects) == info_entries(a, objects) + info_entries(b, objects),
    decreases b.len(),
{
    if b.len() == 0 {
        assert(a + b =~= a);
        assert(info_entries(a, objects) + Seq::<u8>::empty() =~= info_entries(a, objects));
    } else {
        lemma_info_entries_concat(a, b.drop_last(), objects);
        assert((a + b).drop_last() =~= a + b.drop_last());
        assert(info_entries(a + b, objects) =~= info_entries(a, objects) + info_entries(
            b,
            objects,
        ));
    }
}

proof fn lemma_copy_bytes(
    objects: Objects,
    directory: Seq<u8>,
    b: BuilderModel,
    info: FileInfo,
    start: Option<usize>,
)
    requires
        (objects.body)(source_of(info)).len() == info.size,
        start matches Some(size) ==> size <= info.size && info.size > 0,
    ensures
        jobs_bytes(objects, directory, copy_added(b, info, start).jobs) == jobs_bytes(
            objects,
            directory,
            b.jobs,
        ) + info_entry(info, objects),
{
    let operation = match start {
        Some(size) => S3ObjectOperation::PartialGet { size },
        None => S3ObjectOperation::Head,
    };
    let element = entry_element(b.offset, info, operation);
    let one = seq![element];
    let body = (objects.body)(source_of(info));
    let header = info_header(info, objects);
    lemma_append_bytes(objects, directory, b.jobs, one);
    reveal_with_fuel(elements_bytes, 2);
    assert(one.drop_last() =~= Seq::empty());
    assert(elements_bytes(objects, directory, one) =~= element_bytes(objects, directory, element));
    let before = append_elements(b.jobs, one);
    let after = copy_added(b, info, start).jobs;
    assert(after.drop_last() =~= before);
    let own = jobs_bytes(objects, directory, b.jobs);
    match start {
        Some(size) => {
            assert(body.take(size as int) + body.subrange(size as int, info.size as int) =~= body);
            assert(jobs_bytes(objects, directory, after) =~= own + (header + body));
        },
        None => {
            assert(jobs_bytes(objects, directory, after) =~= own + (header + body));
        },
    }
}

proof fn lemma_built_bytes(
    objects: Objects,
    directory: Seq<u8>,
    parts: Seq<PartPlan>,
    n: nat,
)
    requires
        n <= parts.len(),
        copies_sound(parts),
        objects_match(layout_files(parts), objects),
    ensures
        jobs_bytes(objects, directory, built(parts, n).jobs) == info_entries(
            layout_files(parts.take(n as int)),
            objects,
        ),
    decreases n,
{
    if n > 0 {
        let m = (n - 1) as nat;
        lemma_built_bytes(objects, directory, parts, m);
        let b = built(parts, m);
        let before = layout_files(parts.take(m as int));
        let part = parts[m as int];
        let files = layout_files(parts.take(n as int));
        assert(parts.take(n as int).drop_last() =~= parts.take(m as int));
        assert(files == before + unit_files(part));
        lemma_info_entries_concat(before, unit_files(part), objects);
        match part {
            PartPlan::Single(regular) => {
                lemma_append_bytes(objects, directory, b.jobs, download_run(b.offset, regular));
                lemma_download_bytes(objects, directory, b.offset, regular);
            },
            PartPlan::Duo { regular, copy } => {
                lemma_append_bytes(objects, directory, b.jobs, download_run(b.offset, regular));
                lemma_download_bytes(objects, directory, b.offset, regular);
                let mid = files_added(b, regular);
                let f = copied_file(copy);
                let start = match copy {
                    CopyZipPart::FullCopy(_) => None,
                    CopyZipPart::PartialCopy { copy_start_byte, .. } => Some(copy_start_byte),
                };
                lemma_layout_files_prefix(parts, n as int);
                let at = files.len() - 1;
                assert(files[at] == f);
                assert(layout_files(parts)[at] == f);
                lemma_copy_bytes(objects, directory, mid, f, start);
                assert(regular.push(f).drop_last() =~= regular);
                assert(jobs_bytes(objects, directory, built(parts, n).jobs) =~= info_entries(
                    before,
                    objects,
                ) + (info_entries(regular, objects) + info_entry(f, objects)));
            },
        }
    }
}

/// The parts, put together in their order, are the entries in the order of the layout, each
/// a local header followed by the whole content, and then the directory.
pub proof fn jobs_make_the_archive(objects: Objects, directory: Seq<u8>, parts: Seq<PartPlan>)
    requires
        copies_sound(parts),
        objects_match(layout_files(parts), objects),
    ensures
        jobs_bytes(objects, directory, jobs_of(parts)) == info_entries(
            layout_files(parts),
            objects,
        ) + directory,
{
    let b = built(parts, parts.len());
    lemma_built_bytes(objects, directory, parts, parts.len());
    assert(parts.take(parts.len() as int) =~= parts);
    let element = ElementModel::Directory {
        total_size: (sum_of(b.cdfh_sizes) + end_of(b).span()) as usize,
        eocd64: end_of(b),
    };
    let one = seq![element];
    lemma_append_bytes(objects, directory, b.jobs, one);
    reveal_with_fuel(elements_bytes, 2);
    assert(one.drop_last() =~= Seq::empty());
    assert(elements_bytes(objects, directory, one) =~= directory);
}

/// All jobs but the last reach S3's minimum, and so does the last where it is a copy.
spec fn settled_reach_minimum(jobs: Seq<JobModel>) -> bool {
    forall|i: int|
        0 <= i < jobs.len() && (i < jobs.len() - 1 || jobs[i].kind is Copy) ==> (
        #[trigger] jobs[i]).size >= MIN_PART_SIZE
}

proof fn lemma_append_settled(jobs: Seq<JobModel>, elements: Seq<ElementModel>)
    requires
        settled_reach_minimum(jobs),
    ensures
        settled_reach_minimum(append_elements(jobs, elements)),
        ends_with_upload(append_elements(jobs, elements)),
        append_elements(jobs, elements).last().size >= elements_len(elements),
        last_elements(append_elements(jobs, elements)) == (if ends_with_upload(jobs) {
            last_elements(jobs) + elements
        } else {
            elements
        }),
{
    let after = append_elements(jobs, elements);
    if ends_with_upload(jobs) {
        lemma_elements_len_concat(last_elements(jobs), elements);
    }
    assert forall|i: int|
        0 <= i < after.len() && (i < after.len() - 1 || after[i].kind is Copy) implies (
    #[trigger] after[i]).size >= MIN_PART_SIZE by {
        assert(after[i] == jobs[i]);
    }
}

proof fn lemma_built_settled(parts: Seq<PartPlan>, n: nat)
    requires
        n <= parts.len(),
        all_reach_minimum(parts),
    ensures
        settled_reach_minimum(built(parts, n).jobs),
    decreases n,
{
    if n > 0 {
        let m = (n - 1) as nat;
        lemma_built_settled(parts, m);
        let b = built(parts, m);
        let part = parts[m as int];
        assert(halves_reach_minimum(part));
        match part {
            PartPlan::Single(regular) => {
                lemma_append_settled(b.jobs, download_run(b.offset, regular));
            },
            PartPlan::Duo { regular, copy } => {
                let run = download_run(b.offset, regular);
                lemma_append_settled(b.jobs, run);
                lemma_download_run_len(b.offset, regular);
                let mid = files_added(b, regular);
                let f = copied_file(copy);
                let operation = match copy {
                    CopyZipPart::FullCopy(_) => S3ObjectOperation::Head,
                    CopyZipPart::PartialCopy {
                        copy_start_byte,
                        ..
                    } => S3ObjectOperation::PartialGet { size: copy_start_byte },
                };
                let element = entry_element(mid.offset, f, operation);
                let one = seq![element];
                lemma_append_settled(mid.jobs, one);
                lemma_one_element(element);
                let before = append_elements(mid.jobs, one);
                let held = last_elements(mid.jobs);
                lemma_elements_len_concat(held, one);
                if ends_with_upload(b.jobs) {
                    lemma_elements_len_concat(last_elements(b.jobs), run);
                }
                assert(before.last().size >= MIN_PART_SIZE);
                let after = built(parts, n).jobs;
                assert(after.drop_last() =~= before);
                assert forall|i: int|
                    0 <= i < after.len() && (i < after.len() - 1 || after[i].kind is Copy) implies (
                #[trigger] after[i]).size >= MIN_PART_SIZE by {
                    if i < before.len() {
                        assert(after[i] == before[i]);
                    }
                }
            },
        }
    }
}

/// In a layout whose duos are sound, every part but the last reaches S3's minimum, and the
/// last is an upload that ends with the directory.
pub proof fn parts_reach_minimum(parts: Seq<PartPlan>)
    requires
        all_reach_minimum(parts),
    ensures
        ({
            let jobs = jobs_of(parts);
            &&& ends_with_upload(jobs)
            &&& last_elements(jobs).last() is Directory
            &&& forall|i: int|
                0 <= i < jobs.len() - 1 ==> (#[trigger] jobs[i]).size >= MIN_PART_SIZE
        }),
{
    let b = built(parts, parts.len());
    lemma_built_settled(parts, parts.len());
    let element = ElementModel::Directory {
        total_size: (sum_of(b.cdfh_sizes) + end_of(b).span()) as usize,
        eocd64: end_of(b),
    };
    lemma_append_settled(b.jobs, seq![element]);
}

/// A layout made from files has jobs, as far as its archive can be addressed and its parts
/// numbered.
pub proof fn layouts_have_jobs(infos: Seq<FileInfo>)
    requires
        ({
            let files = layout_files(layout_of(infos));
            infos_len(files) + directory_len(files, files.len() as int) + 98 <= usize::MAX
        }),
        2 * layout_of(infos).len() < i32::MAX,
    ensures
        jobs_fit(layout_of(infos)),
{
    duos_reach_minimum(infos);
    let parts = layout_of(infos);
    assert forall|i: int| 0 <= i < parts.len() implies (#[trigger] parts[i] matches PartPlan::Duo {
        copy: CopyZipPart::PartialCopy { file_entry, copy_start_byte },
        ..
    } ==> copy_start_byte <= file_entry.size && file_entry.size > 0) by {
        assert(halves_reach_minimum(parts[i]));
    }
}

/// The words for a checksum that is missing in S3's answer.
pub open spec fn missing_checksum_text(operation: S3ObjectOperation) -> Seq<char> {
    match operation {
        S3ObjectOperation::Get => "No CRC32 in the GetObject response"@,
        S3ObjectOperation::PartialGet { .. } => "No CRC32 in the (partial) GetObject response"@,
        S3ObjectOperation::Head => "No CRC32 in the HeadObject response"@,
    }
}

/// The range that is downloaded of an entry's content, where it is not the whole.
pub open spec fn range_of(operation: S3ObjectOperation) -> Option<ByteRange> {
    match operation {
        S3ObjectOperation::PartialGet { size } => Some(
            ByteRange { first: 0, last: (size - 1) as u64 },
        ),
        _ => None,
    }
}

/// A partial download brings the first bytes of the content, as many as it says, so that with
/// the copy from there on it makes up the whole.
pub proof fn downloads_end_where_copies_start(body: Seq<u8>, size: usize)
    requires
        0 < size <= body.len(),
    ensures
        range_of(S3ObjectOperation::Get) is None,
        ({
            let r = range_of(S3ObjectOperation::PartialGet { size })->Some_0;
            &&& range_of(S3ObjectOperation::PartialGet { size }) is Some
            &&& body.subrange(r.first as int, r.last + 1).len() == size
            &&& body.subrange(r.first as int, r.last + 1) + body.skip(size as int) == body
        }),
{
    let r = range_of(S3ObjectOperation::PartialGet { size })->Some_0;
    assert(body.subrange(r.first as int, r.last + 1) + body.skip(size as int) =~= body);
}

/// The range that is downloaded of an entry's content, where it is not the whole.
pub fn download_range(operation: S3ObjectOperation) -> (range: Option<ByteRange>)
    requires
        operation matches S3ObjectOperation::PartialGet { size } ==> size > 0,
    ensures
        range == range_of(operation),
        range == (match operation {
            S3ObjectOperation::PartialGet { size } => Some(
                ByteRange { first: 0, last: (size - 1) as u64 },
            ),
            _ => None,
        }),
{
    match operation {
        S3ObjectOperation::PartialGet { size } => Some(
            ByteRange { first: 0, last: (size - 1) as u64 },
        ),
        _ => None,
    }
}

/// What an entry's checksum is, given what S3 answered: the decoded text, or why there is
/// none.
pub open spec fn checksum_outcome(
    operation: S3ObjectOperation,
    checksum: Option<Seq<char>>,
    crc: Result<CRC32, Error>,
) -> bool {
    match checksum {
        None => crc is Err && crc->Err_0 is Custom && crc->Err_0.text() == missing_checksum_text(
            operation,
        ),
        Some(text) => match base64_over_four_zeros(text) {
            Ok(bytes) => crc is Ok && crc->Ok_0.0@ == bytes.reverse(),
            Err(e) => crc == Err::<CRC32, Error>(Error::Crc32Parse(e)),
        },
    }
}

/// Reads an entry's checksum out of S3's answer.
pub fn entry_checksum(operation: S3ObjectOperation, checksum: Option<String>) -> (crc: Result<
    CRC32,
    Error,
>)
    ensures
        checksum_outcome(
            operation,
            match checksum {
                Some(text) => Some(text@),
                None => None,
            },
            crc,
        ),
        forall|v: u32|
            checksum is Some && checksum->Some_0@ == #[trigger] s3_checksum_text(v) ==> crc is Ok
                && crc->Ok_0.0@ == le32(v),
{
    match checksum {
        None => match operation {
            S3ObjectOperation::Get => Err(Error::custom("No CRC32 in the GetObject response")),
            S3ObjectOperation::PartialGet { .. } => Err(
                Error::custom("No CRC32 in the (partial) GetObject response"),
            ),
            S3ObjectOperation::Head => Err(Error::custom("No CRC32 in the HeadObject response")),
        },
        Some(text) => match CRC32::from_str(text.as_str()) {
            Ok(crc) => Ok(crc),
            Err(e) => Err(Error::Crc32Parse(e)),
        },
    }
}

/// Starts an entry in its slice: gives the header its checksum, writes it, and returns the
/// directory record. What follows of the content is written behind it.
pub fn begin_entry(loc: LocalFileHeader<NoCRC>, crc32: CRC32, slice: &mut BufSlice) -> (record:
    CentralDirectoryFileHeader)
    requires
        old(slice).wf(),
        loc.span() <= old(slice).length - old(slice).filled,
    ensures
        final(slice).wf(),
        ({
            let header = loc_bytes(encode_utf8(loc.name@), loc.file_size, crc32.0@);
            &&& final(slice)@ == old(slice)@.extended(header)
            &&& final(slice)@.written() == old(slice)@.written() + header
        }),
        record.0.offset == loc.offset,
        record.0.name == loc.name,
        record.0.file_size == loc.file_size,
        record.0.crc32 == crc32,
{
    let header: LocalFileHeader<CRC32> = loc.set_crc(crc32);
    proof {
        loc_length(encode_utf8(header.name@), header.file_size, header.crc32.0@);
    }
    let mut bytes: Vec<u8> = Vec::new();
    let written: usize = header.dump(&mut bytes);
    assert(bytes@ =~= header.zip_bytes());
    let count: usize = slice.write(bytes.as_slice());
    assert(bytes@.take(count as int) =~= bytes@);
    CentralDirectoryFileHeader::from_loc(header)
}

/// Lends each element its region of the part's buffer, in order, unless something of the
/// buffer is lent already.
pub fn carve(buffer: &mut SharedBuf, elements: &Vec<UploadPartElement>) -> (slices: Result<
    Vec<BufSlice>,
    Error,
>)
    requires
        elements_len(element_models(elements@)) <= old(buffer).bytes@.len(),
        elements@.len() < usize::MAX,
    ensures
        final(buffer).bytes@ == old(buffer).bytes@,
        match slices {
            Ok(slices) => {
                &&& old(buffer).live == 0
                &&& final(buffer).live == elements@.len()
                &&& slices@.len() == elements@.len()
                &&& forall|i: int|
                    0 <= i < slices@.len() ==> {
                        &&& (#[trigger] slices@[i]).start_at == elements_len(
                            element_models(elements@).take(i),
                        )
                        &&& slices@[i].length == element_len(elements@[i]@)
                        &&& slices@[i].filled == 0
                        &&& slices@[i].bytes@ == old(buffer).bytes@.subrange(
                            slices@[i].start_at as int,
                            slices@[i].start_at + slices@[i].length,
                        )
                    }
            },
            Err(e) => {
                &&& old(buffer).live > 0
                &&& final(buffer).live == old(buffer).live
                &&& e is Custom
                &&& e.text() == "Slice already exists"@
            },
        },
{
    let ghost models = element_models(elements@);
    let ghost bytes = buffer.bytes@;
    let total: usize = buffer.bytes.len();
    let mut remain: BufSlice = match buffer.slice() {
        Ok(whole) => whole,
        Err(e) => {
            return Err(e);
        },
    };
    let mut slices: Vec<BufSlice> = Vec::new();
    for i in 0..elements.len()
        invariant
            models == element_models(elements@),
            elements_len(models) <= total,
            elements@.len() < usize::MAX,
            buffer.bytes@ == bytes,
            bytes.len() == total,
            buffer.live == i + 1,
            remain.wf(),
            remain.filled == 0,
            remain.start_at == elements_len(models.take(i as int)),
            remain.start_at + remain.length == total,
            remain.bytes@ == bytes.skip(remain.start_at as int),
            slices@.len() == i,
            forall|j: int|
                0 <= j < i ==> {
                    &&& (#[trigger] slices@[j]).start_at == elements_len(models.take(j))
                    &&& slices@[j].length == element_len(elements@[j]@)
                    &&& slices@[j].filled == 0
                    &&& slices@[j].bytes@ == bytes.subrange(
                        slices@[j].start_at as int,
                        slices@[j].start_at + slices@[j].length,
                    )
                },
    {
        proof {
            let done = models.take(i + 1);
            assert(done.drop_last() =~= models.take(i as int));
            lemma_elements_len_concat(done, models.skip(i + 1));
            assert(done + models.skip(i + 1) =~= models);
        }
        let size: usize = elements[i].elem_size();
        let ghost whole = remain@;
        let (own, rest): (BufSlice, BufSlice) = remain.split(buffer, size);
        proof {
            assert(own@ == whole.left(size as int));
            assert(rest@ == whole.right(size as int));
            assert(own@.start == own.start_at && own@.length == own.length && own@.filled
                == own.filled && own@.bytes == own.bytes@);
            assert(rest@.start == rest.start_at && rest@.length == rest.length && rest@.filled
                == rest.filled && rest@.bytes == rest.bytes@);
            assert(own.bytes@ =~= bytes.subrange(
                own.start_at as int,
                own.start_at + own.length,
            ));
            assert(rest.bytes@ =~= bytes.skip(rest.start_at as int));
        }
        slices.push(own);
        remain = rest;
    }
    buffer.release(remain);
    assert(buffer.bytes@ =~= bytes);
    Ok(slices)
}

/// The bytes of the slices, one behind the other.
pub open spec fn slices_bytes(slices: Seq<BufSlice>) -> Seq<u8>
    decreases slices.len(),
{
    if slices.len() == 0 {
        Seq::empty()
    } else {
        slices_bytes(slices.drop_last()) + slices.last().bytes@
    }
}

/// Each slice has its bytes and starts where the one before it ends.
pub open spec fn adjacent(slices: Seq<BufSlice>) -> bool {
    forall|i: int|
        0 <= i < slices.len() ==> {
            &&& (#[trigger] slices[i]).wf()
            &&& slices[i].start_at == slices_bytes(slices.take(i)).len()
        }
}

/// The buffer after the first `n` slices have come back.
pub open spec fn put_back(bytes: Seq<u8>, slices: Seq<BufSlice>, n: nat) -> Seq<u8>
    decreases n,
{
    if n == 0 {
        bytes
    } else {
        patched(
            put_back(bytes, slices, (n - 1) as nat),
            slices[n - 1].start_at as int,
            slices[n - 1].bytes@,
        )
    }
}

/// Takes the slices back and gives the part: the bytes of each of them, in its place.
pub fn gather(buffer: SharedBuf, slices: Vec<BufSlice>) -> (part: Result<Vec<u8>, SharedBuf>)
    requires
        buffer.live == slices@.len(),
        forall|i: int|
            0 <= i < slices@.len() ==> (#[trigger] slices@[i]).wf() && slices@[i].start_at
                + slices@[i].length <= buffer.bytes@.len(),
    ensures
        part is Ok,
        part->Ok_0@ == put_back(buffer.bytes@, slices@, slices@.len()),
{
    let ghost all = slices@;
    let ghost bytes = buffer.bytes@;
    let mut buffer: SharedBuf = buffer;
    for slice in it: slices
        invariant
            it.seq() == all,
            buffer.live == all.len() - it.index(),
            buffer.bytes@.len() == bytes.len(),
            buffer.bytes@ == put_back(bytes, all, it.index() as nat),
            forall|i: int|
                0 <= i < all.len() ==> (#[trigger] all[i]).wf() && all[i].start_at + all[i].length
                    <= bytes.len(),
    {
        assert(slice == all[it.index() as int]);
        buffer.release(slice);
    }
    buffer.into_inner()
}

/// Slices that are adjacent and as long as the buffer leave nothing of it but their bytes.
pub proof fn adjacent_slices_are_the_part(bytes: Seq<u8>, slices: Seq<BufSlice>)
    requires
        adjacent(slices),
        slices_bytes(slices).len() == bytes.len(),
    ensures
        put_back(bytes, slices, slices.len()) == slices_bytes(slices),
{
    lemma_put_back(bytes, slices, slices.len());
    assert(slices.take(slices.len() as int) =~= slices);
    assert(put_back(bytes, slices, slices.len()) =~= slices_bytes(slices));
}

proof fn lemma_put_back(bytes: Seq<u8>, slices: Seq<BufSlice>, n: nat)
    requires
        n <= slices.len(),
        adjacent(slices),
        slices_bytes(slices).len() == bytes.len(),
    ensures
        ({
            let done = slices_bytes(slices.take(n as int));
            &&& done.len() <= bytes.len()
            &&& put_back(bytes, slices, n) == done + bytes.skip(done.len() as int)
        }),
    decreases n,
{
    lemma_slices_bytes_prefix(slices, n as int);
    if n == 0 {
        assert(slices.take(0) =~= Seq::empty());
        assert(put_back(bytes, slices, 0) =~= slices_bytes(slices.take(0)) + bytes.skip(0));
    } else {
        let m = n - 1;
        lemma_put_back(bytes, slices, m as nat);
        let done = slices_bytes(slices.take(m));
        assert(slices.take(n as int).drop_last() =~= slices.take(m));
        assert(slices[m].start_at == done.len());
        assert(slices_bytes(slices.take(n as int)) == done + slices[m].bytes@);
        lemma_patched_next(bytes, done, slices[m].bytes@);
    }
}

/// Putting `more` right behind what is done moves the boundary to the old bytes by its
/// length.
proof fn lemma_patched_next(bytes: Seq<u8>, done: Seq<u8>, more: Seq<u8>)
    requires
        done.len() + more.len() <= bytes.len(),
    ensures
        patched(done + bytes.skip(done.len() as int), done.len() as int, more) == (done + more)
            + bytes.skip((done + more).len() as int),
{
    assert(patched(done + bytes.skip(done.len() as int), done.len() as int, more) =~= (done + more)
        + bytes.skip((done + more).len() as int));
}

proof fn lemma_slices_bytes_prefix(slices: Seq<BufSlice>, i: int)
    requires
        0 <= i <= slices.len(),
    ensures
        slices_bytes(slices.take(i)).len() <= slices_bytes(slices).len(),
    decreases slices.len(),
{
    if i == slices.len() {
        assert(slices.take(i) =~= slices);
    } else {
        lemma_slices_bytes_prefix(slices.drop_last(), i);
        assert(slices.drop_last().take(i) =~= slices.take(i));
    }
}

/// Slices that were carved for the elements and filled with their bytes make up the part.
pub proof fn filled_slices_make_the_part(
    objects: Objects,
    directory: Seq<u8>,
    elements: Seq<ElementModel>,
    slices: Seq<BufSlice>,
)
    requires
        slices.len() == elements.len(),
        forall|i: int|
            0 <= i < slices.len() ==> {
                &&& (#[trigger] slices[i]).start_at == elements_len(elements.take(i))
                &&& slices[i].length == element_len(elements[i])
                &&& slices[i].wf()
                &&& slices[i]@.written() == element_bytes(objects, directory, elements[i])
                &&& slices[i].filled == slices[i].length
            },
    ensures
        adjacent(slices),
        slices_bytes(slices) == elements_bytes(objects, directory, elements),
        slices_bytes(slices).len() == elements_len(elements),
    decreases slices.len(),
{
    if slices.len() > 0 {
        let rest = slices.drop_last();
        let less = elements.drop_last();
        assert forall|i: int| 0 <= i < rest.len() implies {
            &&& (#[trigger] rest[i]).start_at == elements_len(less.take(i))
            &&& rest[i].length == element_len(less[i])
            &&& rest[i].wf()
            &&& rest[i]@.written() == element_bytes(objects, directory, less[i])
            &&& rest[i].filled == rest[i].length
        } by {
            assert(rest[i] == slices[i]);
            assert(less.take(i) =~= elements.take(i));
        }
        filled_slices_make_the_part(objects, directory, less, rest);
        assert(slices[slices.len() - 1] == slices.last());
        assert(slices.last()@.written() =~= slices.last().bytes@);
        assert(elements.take(slices.len() - 1) =~= less);
        assert forall|i: int| 0 <= i < slices.len() implies {
            &&& (#[trigger] slices[i]).wf()
            &&& slices[i].start_at == slices_bytes(slices.take(i)).len()
        } by {
            if i < rest.len() {
                assert(rest[i] == slices[i]);
                assert(rest.take(i) =~= slices.take(i));
            } else {
                assert(slices.take(i) =~= rest);
            }
        }
    }
}

/// The words for an answer without an entity tag.
pub open spec fn missing_etag_text(kind: KindModel) -> Seq<char> {
    match kind {
        KindModel::Upload(_) => "No ETag in UploadPart response"@,
        KindModel::Copy { .. } => "No ETag in UploadPartCopy response"@,
    }
}

impl PartJob {
    /// The part that S3 has taken, given the entity tag in its answer.
    pub fn completed(&self, e_tag: Option<String>) -> (part: Result<UploadedPart, Error>)
        ensures
            match e_tag {
                Some(tag) => part is Ok && part->Ok_0.part_number == self@.number
                    && part->Ok_0.e_tag == tag,
                None => part is Err && part->Err_0 is Custom && part->Err_0.text()
                    == missing_etag_text(self@.kind),
            },
    {
        match e_tag {
            Some(tag) => Ok(UploadedPart { part_number: self.part_number, e_tag: tag }),
            None => match &self.part_job_type {
                PartJobType::Upload(_) => Err(Error::custom("No ETag in UploadPart response")),
                PartJobType::Copy { .. } => Err(
                    Error::custom("No ETag in UploadPartCopy response"),
                ),
            },
        }
    }
}

/// Each record describes the file at its place, which stands right behind the files before
/// it.
pub open spec fn records_describe(
    records: Seq<CentralDirectoryFileHeader>,
    files: Seq<FileInfo>,
) -> bool {
    &&& records.len() == files.len()
    &&& forall|i: int|
        0 <= i < records.len() ==> {
            &&& (#[trigger] records[i]).0.offset == infos_len(files.take(i))
            &&& records[i].0.name@ == files[i].name@
            &&& records[i].0.file_size == files[i].size
        }
}

proof fn lemma_records_len(records: Seq<CentralDirectoryFileHeader>, files: Seq<FileInfo>)
    requires
        records_describe(records, files),
        infos_len(files) <= usize::MAX,
    ensures
        records_bytes(records).len() == directory_len(files, files.len() as int),
    decreases records.len(),
{
    if records.len() > 0 {
        let rest = records.drop_last();
        let less = files.drop_last();
        assert forall|i: int| 0 <= i < rest.len() implies {
            &&& (#[trigger] rest[i]).0.offset == infos_len(less.take(i))
            &&& rest[i].0.name@ == less[i].name@
            &&& rest[i].0.file_size == less[i].size
        } by {
            assert(rest[i] == records[i]);
            assert(less.take(i) =~= files.take(i));
        }
        lemma_records_len(rest, less);
        lemma_directory_len_prefix(less, files, less.len() as int);
        let last = records[records.len() - 1];
        assert(files.take(records.len() - 1) =~= less);
        cdfh_length(
            encode_utf8(last.0.name@),
            last.0.file_size,
            last.0.crc32.0@,
            last.0.offset,
        );
    }
}

/// The directory of a layout's files fills its element exactly, and its records stand in the
/// order of their entries.
pub proof fn directory_fills_its_element(
    parts: Seq<PartPlan>,
    records: Seq<CentralDirectoryFileHeader>,
)
    requires
        jobs_fit(parts),
        records_describe(records, layout_files(parts)),
    ensures
        in_archive_order(records),
        ({
            let b = built(parts, parts.len());
            let directory = records_bytes(records) + end_of(b).zip_bytes();
            &&& end_of(b).record_count == records.len()
            &&& last_elements(jobs_of(parts)).last() == (ElementModel::Directory {
                total_size: directory.len() as usize,
                eocd64: end_of(b),
            })
            &&& directory.len() <= usize::MAX
        }),
{
    let files = layout_files(parts);
    let b = built(parts, parts.len());
    lemma_built(parts, parts.len());
    assert(parts.take(parts.len() as int) =~= parts);
    lemma_records_len(records, files);
    end_records_span(end_of(b));
    assert forall|i: int, j: int| 0 <= i < j < records.len() implies record_offset(
        #[trigger] records[i],
    ) < record_offset(#[trigger] records[j]) by {
        let upto = files.take(j);
        lemma_infos_len_prefix(upto, i + 1);
        assert(upto.take(i + 1) =~= files.take(i + 1));
        assert(files.take(i + 1).drop_last() =~= files.take(i));
    }
    assert(files.len() <= usize::MAX) by {
        lemma_files_counted(files);
    }
    lemma_append_last(
        b.jobs,
        seq![
            ElementModel::Directory {
                total_size: (sum_of(b.cdfh_sizes) + end_of(b).span()) as usize,
                eocd64: end_of(b),
            },
        ],
    );
}

/// What the end records of a layout say of its entries and of its directory.
pub(crate) proof fn lemma_end_of_layout(
    parts: Seq<PartPlan>,
    records: Seq<CentralDirectoryFileHeader>,
)
    requires
        jobs_fit(parts),
        records_describe(records, layout_files(parts)),
    ensures
        ({
            let end = end_of(built(parts, parts.len()));
            &&& end.record_count == records.len()
            &&& end.central_directory_offset == infos_len(layout_files(parts))
            &&& end.central_directory_size == records_bytes(records).len()
            &&& end.eocd64_offset == end.central_directory_offset + end.central_directory_size
        }),
{
    let files = layout_files(parts);
    lemma_built(parts, parts.len());
    assert(parts.take(parts.len() as int) =~= parts);
    lemma_records_len(records, files);
    lemma_files_counted(files);
}

proof fn lemma_append_last(jobs: Seq<JobModel>, elements: Seq<ElementModel>)
    requires
        elements.len() > 0,
    ensures
        last_elements(append_elements(jobs, elements)).last() == elements.last(),
{
}

proof fn lemma_files_counted(files: Seq<FileInfo>)
    ensures
        files.len() <= infos_len(files),
    decreases files.len(),
{
    if files.len() > 0 {
        lemma_files_counted(files.drop_last());
    }
}

/// How much memory the jobs that run at a time may claim together (50 MiB).
pub const MAX_PART_JOB_TASKS_MEMORY: usize = 52_428_800;

/// The jobs of an archive, with where it goes.
#[derive(Debug)]
pub struct PartJobExecutor {
    pub bucket_name: String,
    pub archive_key: String,
    pub jobs: Vec<PartJob>,
}

impl PartJobExecutor {
    /// The jobs of a layout, to be done for the given archive.
    pub fn new(layout: ZipLayout, bucket_name: String, archive_key: String) -> (executor:
        PartJobExecutor)
        requires
            jobs_fit(part_plans(layout.parts@)),
        ensures
            executor.bucket_name == bucket_name,
            executor.archive_key == archive_key,
            job_models(executor.jobs@) == jobs_of(part_plans(layout.parts@)),
    {
        PartJobExecutor { bucket_name, archive_key, jobs: layout.into_part_jobs() }
    }

    /// The upload's identity in S3's answer.
    pub fn upload_id(answer: Option<String>) -> (upload_id: Result<String, Error>)
        ensures
            match answer {
                Some(id) => upload_id == Ok::<String, Error>(id),
                None => upload_id is Err && upload_id->Err_0 is Custom
                    && upload_id->Err_0.text() == "No upload ID in multipart upload response"@,
            },
    {
        match answer {
            Some(id) => Ok(id),
            None => Err(Error::custom("No upload ID in multipart upload response")),
        }
    }
}

} // verus!
