//! What a whole run of the jobs builder makes: steps in any number, then the end.

use crate::part_job::{
    append_elements, builder_wf, copy_added, directory_len, download_run, end_of,
    ends_with_upload, entry_element, files_added, finished, jobs_len, last_elements,
    lemma_append_elements, lemma_copy_added, lemma_directory_len_monotonic,
    lemma_directory_len_prefix, lemma_files_added, lemma_infos_len_append, lemma_one_element,
    lemma_record_run, lemma_sum_of_push, record_len, sum_of, BuilderModel, ElementModel,
    JobModel, KindModel, S3ObjectOperation,
};
use crate::zip_layout::{infos_len, FileInfo};
use vstd::prelude::*;

verus! {

/// One call of the builder.
pub enum BuilderStep {
    /// `add_files`
    Files(Seq<FileInfo>),
    /// `copy_file`
    Copy(FileInfo),
    /// `partial_copy_file`
    PartialCopy(FileInfo, usize),
}

/// The files that a step adds.
pub open spec fn step_files(step: BuilderStep) -> Seq<FileInfo> {
    match step {
        BuilderStep::Files(infos) => infos,
        BuilderStep::Copy(info) => seq![info],
        BuilderStep::PartialCopy(info, _) => seq![info],
    }
}

/// The builder after a step.
pub open spec fn stepped(b: BuilderModel, step: BuilderStep) -> BuilderModel {
    match step {
        BuilderStep::Files(infos) => files_added(b, infos),
        BuilderStep::Copy(info) => copy_added(b, info, None),
        BuilderStep::PartialCopy(info, start) => copy_added(b, info, Some(start)),
    }
}

/// The builder after steps on an empty one.
pub open spec fn stepped_through(steps: Seq<BuilderStep>) -> BuilderModel
    decreases steps.len(),
{
    if steps.len() == 0 {
        BuilderModel { offset: 0, cdfh_sizes: Seq::empty(), jobs: Seq::empty() }
    } else {
        stepped(stepped_through(steps.drop_last()), steps.last())
    }
}

/// The files of a run, in their order.
pub open spec fn run_files(steps: Seq<BuilderStep>) -> Seq<FileInfo>
    decreases steps.len(),
{
    if steps.len() == 0 {
        Seq::empty()
    } else {
        run_files(steps.drop_last()) + step_files(steps.last())
    }
}

/// Each copy comes right after downloaded files, and a partial one copies within its file.
pub open spec fn sound_run(steps: Seq<BuilderStep>) -> bool {
    forall|i: int|
        0 <= i < steps.len() ==> match #[trigger] steps[i] {
            BuilderStep::Files(_) => true,
            BuilderStep::Copy(_) => i > 0 && steps[i - 1] is Files,
            BuilderStep::PartialCopy(info, start) => i > 0 && steps[i - 1] is Files && start
                <= info.size,
        }
}

/// Each copy stands directly behind an upload.
pub open spec fn copies_behind_uploads(jobs: Seq<JobModel>) -> bool {
    forall|i: int|
        0 <= i < jobs.len() && (#[trigger] jobs[i]).kind is Copy ==> i > 0 && jobs[i
            - 1].kind is Upload
}

/// Whether job `i` is an upload with a directory as its element `e`.
pub open spec fn directory_at(jobs: Seq<JobModel>, i: int, e: int) -> bool {
    &&& 0 <= i < jobs.len()
    &&& jobs[i].kind matches KindModel::Upload(elements) && 0 <= e < elements.len()
        && elements[e] is Directory
}

proof fn lemma_appended(jobs: Seq<JobModel>, elements: Seq<ElementModel>)
    requires
        copies_behind_uploads(jobs),
        forall|i: int, e: int| !#[trigger] directory_at(jobs, i, e),
    ensures
        ({
            let after = append_elements(jobs, elements);
            let from = (last_elements(after).len() - elements.len()) as int;
            &&& copies_behind_uploads(after)
            &&& ends_with_upload(after)
            &&& from >= 0
            &&& forall|i: int, e: int| #[trigger]
                directory_at(after, i, e) == (i == after.len() - 1 && from <= e
                    < last_elements(after).len() && elements[e - from] is Directory)
        }),
{
    let after = append_elements(jobs, elements);
    let from = (last_elements(after).len() - elements.len()) as int;
    assert forall|i: int| 0 <= i < after.len() && (#[trigger] after[i]).kind is Copy implies i > 0
        && after[i - 1].kind is Upload by {
        assert(after[i] == jobs[i]);
        assert(after[i - 1] == jobs[i - 1]);
    }
    assert forall|i: int, e: int| #[trigger]
        directory_at(after, i, e) == (i == after.len() - 1 && from <= e < last_elements(after).len()
            && elements[e - from] is Directory) by {
        assert(!directory_at(jobs, i, e));
        if 0 <= i < after.len() - 1 {
            assert(after[i] == jobs[i]);
        }
    }
}

/// A copy behind the jobs of which the last is an upload.
proof fn lemma_copied(jobs: Seq<JobModel>, copy: JobModel)
    requires
        copies_behind_uploads(jobs),
        ends_with_upload(jobs),
        copy.kind is Copy,
        forall|i: int, e: int| !#[trigger] directory_at(jobs, i, e),
    ensures
        copies_behind_uploads(jobs.push(copy)),
        forall|i: int, e: int| !#[trigger] directory_at(jobs.push(copy), i, e),
{
    let after = jobs.push(copy);
    assert forall|i: int| 0 <= i < after.len() && (#[trigger] after[i]).kind is Copy implies i > 0
        && after[i - 1].kind is Upload by {
        assert(after[i - 1] == jobs[i - 1]);
        if i < jobs.len() {
            assert(after[i] == jobs[i]);
        }
    }
    assert forall|i: int, e: int| !#[trigger] directory_at(after, i, e) by {
        assert(!directory_at(jobs, i, e));
    }
}

/// What holds after every step of a run.
proof fn lemma_run(steps: Seq<BuilderStep>)
    requires
        sound_run(steps),
        infos_len(run_files(steps)) <= usize::MAX,
        directory_len(run_files(steps), run_files(steps).len() as int) <= usize::MAX,
    ensures
        ({
            let b = stepped_through(steps);
            let files = run_files(steps);
            &&& builder_wf(b)
            &&& b.offset == infos_len(files)
            &&& b.cdfh_sizes.len() == files.len()
            &&& sum_of(b.cdfh_sizes) == directory_len(files, files.len() as int)
            &&& steps.len() > 0 && steps.last() is Files ==> ends_with_upload(b.jobs)
            &&& copies_behind_uploads(b.jobs)
            &&& forall|i: int, e: int| !#[trigger] directory_at(b.jobs, i, e)
        }),
    decreases steps.len(),
{
    if steps.len() > 0 {
        let before = steps.drop_last();
        let files = run_files(steps);
        let had = run_files(before);
        let own = step_files(steps.last());
        let b = stepped_through(before);
        assert forall|i: int| 0 <= i < before.len() implies match #[trigger] before[i] {
            BuilderStep::Files(_) => true,
            BuilderStep::Copy(_) => i > 0 && before[i - 1] is Files,
            BuilderStep::PartialCopy(info, start) => i > 0 && before[i - 1] is Files && start
                <= info.size,
        } by {
            assert(before[i] == steps[i]);
        }
        assert(steps[steps.len() - 1] == steps.last());
        lemma_infos_len_append(had, own);
        lemma_directory_len_prefix(had, files, had.len() as int);
        lemma_directory_len_monotonic(files, had.len() as int, files.len() as int);
        lemma_run(before);
        lemma_record_run(b.cdfh_sizes, had, own);
        match steps.last() {
            BuilderStep::Files(infos) => {
                lemma_files_added(b, infos);
                lemma_appended(b.jobs, download_run(b.offset, infos));
            },
            BuilderStep::Copy(info) => {
                lemma_copy_step(b, had, info, None);
            },
            BuilderStep::PartialCopy(info, start) => {
                lemma_copy_step(b, had, info, Some(start));
            },
        }
    }
}

proof fn lemma_copy_step(
    b: BuilderModel,
    had: Seq<FileInfo>,
    info: FileInfo,
    start: Option<usize>,
)
    requires
        builder_wf(b),
        b.offset == infos_len(had),
        b.cdfh_sizes.len() == had.len(),
        sum_of(b.cdfh_sizes) == directory_len(had, had.len() as int),
        infos_len(had + seq![info]) <= usize::MAX,
        directory_len(had + seq![info], had.len() as int + 1) <= usize::MAX,
        ends_with_upload(b.jobs),
        copies_behind_uploads(b.jobs),
        forall|i: int, e: int| !#[trigger] directory_at(b.jobs, i, e),
        start matches Some(size) ==> size <= info.size,
    ensures
        ({
            let after = copy_added(b, info, start);
            let files = had + seq![info];
            &&& builder_wf(after)
            &&& after.offset == infos_len(files)
            &&& after.cdfh_sizes.len() == files.len()
            &&& sum_of(after.cdfh_sizes) == directory_len(files, files.len() as int)
            &&& copies_behind_uploads(after.jobs)
            &&& forall|i: int, e: int| !#[trigger] directory_at(after.jobs, i, e)
        }),
{
    let after = copy_added(b, info, start);
    let files = had + seq![info];
    let operation = match start {
        Some(size) => S3ObjectOperation::PartialGet { size },
        None => S3ObjectOperation::Head,
    };
    let element = entry_element(b.offset, info, operation);
    let appended = append_elements(b.jobs, seq![element]);
    lemma_copy_added(b, info, start);
    assert(files.drop_last() =~= had);
    lemma_directory_len_prefix(had, files, had.len() as int);
    assert(files.take(had.len() as int) =~= had);
    lemma_sum_of_push(b.cdfh_sizes, record_len(info, b.offset));
    lemma_appended(b.jobs, seq![element]);
    assert forall|i: int, e: int| !#[trigger] directory_at(appended, i, e) by {}
    lemma_copied(appended, after.jobs.last());
    assert(after.jobs =~= appended.push(after.jobs.last()));
}

/// The finished jobs of any run: they are numbered from one, each copy stands directly
/// behind an upload, the directory is written once, as the last element of the last job,
/// and together they are as long as the entries, their directory records and the end
/// records.
pub proof fn runs_end_with_one_directory(steps: Seq<BuilderStep>)
    requires
        sound_run(steps),
        infos_len(run_files(steps)) + directory_len(
            run_files(steps),
            run_files(steps).len() as int,
        ) + 98 <= usize::MAX,
    ensures
        ({
            let b = stepped_through(steps);
            let jobs = finished(b);
            let files = run_files(steps);
            let end = end_of(b);
            &&& forall|i: int| 0 <= i < jobs.len() ==> (#[trigger] jobs[i]).number == i + 1
            &&& copies_behind_uploads(jobs)
            &&& ends_with_upload(jobs)
            &&& forall|i: int, e: int| #[trigger]
                directory_at(jobs, i, e) == (i == jobs.len() - 1 && e == last_elements(jobs).len()
                    - 1)
            &&& end.record_count == files.len()
            &&& end.central_directory_offset == infos_len(files)
            &&& end.central_directory_size == directory_len(files, files.len() as int)
            &&& end.span() == 22 || end.span() == 98
            &&& jobs_len(jobs) == infos_len(files) + directory_len(files, files.len() as int)
                + end.span()
        }),
{
    let b = stepped_through(steps);
    let files = run_files(steps);
    let element = ElementModel::Directory {
        total_size: (sum_of(b.cdfh_sizes) + end_of(b).span()) as usize,
        eocd64: end_of(b),
    };
    lemma_run(steps);
    lemma_file_count(files);
    lemma_append_elements(b, seq![element]);
    lemma_one_element(element);
    lemma_appended(b.jobs, seq![element]);
}

/// There are no more files than bytes in their entries.
proof fn lemma_file_count(files: Seq<FileInfo>)
    ensures
        files.len() <= infos_len(files),
    decreases files.len(),
{
    if files.len() > 0 {
        lemma_file_count(files.drop_last());
    }
}

} // verus!
