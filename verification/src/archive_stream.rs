//! The archiver that streams: files are downloaded, written into one archive, and the archive
//! goes up in parts of one size while it grows.

use crate::multipart::UploadedPart;
use vstd::prelude::*;
use vstd::string::StringExecFns;

verus! {

/// How many files are downloaded at a time.
pub const MAX_CONCURRENT_DOWNLOADS: usize = 20;

/// How many bytes the downloads hold at most.
pub const MAX_DOWNLOADS_MEMORY: usize = 104_857_600;

/// How many parts are uploaded at a time.
pub const MAX_CONCURRENT_UPLOADS: usize = 7;

/// Length of each part but the last.
pub const CHUNK_SIZE_BYTES: usize = 10_485_760;

/// How many parts the ring between the archive and the uploads holds.
pub const BUFFER_CHUNKS_COUNT: usize = 3;

/// What a download takes: its length, and the permits that stand for its memory.
#[derive(Debug, Clone, Copy, PartialEq, Eq, Structural)]
pub struct DownloadSize {
    pub bytes: usize,
    /// The length, as far as 32 bits hold it.
    pub permits: u32,
}

/// What a download takes, from the length that S3 gives for it.
pub fn download_size(content_length: Option<i64>) -> (size: Result<DownloadSize, String>)
    requires
        content_length matches Some(len) ==> 0 <= len <= usize::MAX,
    ensures
        match content_length {
            Some(len) => size == Ok::<DownloadSize, String>(
                DownloadSize { bytes: len as usize, permits: (len % 0x1_0000_0000) as u32 },
            ),
            None => size is Err && size->Err_0@ == "No content_length in GetObject response"@,
        },
{
    match content_length {
        Some(len) => Ok(
            DownloadSize { bytes: len as usize, permits: (len as u64 % 0x1_0000_0000) as u32 },
        ),
        None => Err(String::from_str("No content_length in GetObject response")),
    }
}

/// The identity of an upload that S3 has opened.
pub fn opened_upload(upload_id: Option<String>) -> (id: Result<String, String>)
    ensures
        match upload_id {
            Some(given) => id == Ok::<String, String>(given),
            None => id is Err && id->Err_0@ == "No upload ID in multipart upload response"@,
        },
{
    match upload_id {
        Some(given) => Ok(given),
        None => Err(String::from_str("No upload ID in multipart upload response")),
    }
}

/// A part that S3 has taken.
pub fn taken_part(part_number: i32, e_tag: Option<String>) -> (part: Result<UploadedPart, String>)
    ensures
        match e_tag {
            Some(tag) => part == Ok::<UploadedPart, String>(
                UploadedPart { part_number, e_tag: tag },
            ),
            None => part is Err && part->Err_0@ == "No ETag in upload part response"@,
        },
{
    match e_tag {
        Some(e_tag) => Ok(UploadedPart { part_number, e_tag }),
        None => Err(String::from_str("No ETag in upload part response")),
    }
}

/// The number of the part that the `index`-th sealed slab becomes.
pub fn slab_part_number(index: usize) -> (number: i32)
    requires
        index < i32::MAX,
    ensures
        number == index + 1,
{
    index as i32 + 1
}

/// All parts, in the order in which they came, or the first failure.
pub fn all_parts(results: Vec<Result<UploadedPart, String>>) -> (parts: Result<
    Vec<UploadedPart>,
    String,
>)
    ensures
        match parts {
            Ok(all) => {
                &&& all@.len() == results@.len()
                &&& forall|i: int|
                    0 <= i < results@.len() ==> #[trigger] results@[i] == Ok::<
                        UploadedPart,
                        String,
                    >(all@[i])
            },
            Err(e) => exists|i: int|
                {
                    &&& 0 <= i < results@.len()
                    &&& #[trigger] results@[i] == Err::<UploadedPart, String>(e)
                    &&& forall|j: int| 0 <= j < i ==> (#[trigger] results@[j]) is Ok
                },
        },
{
    let ghost given = results@;
    let mut all: Vec<UploadedPart> = Vec::new();
    for result in it: results
        invariant
            it.seq() == given,
            all@.len() == it.index(),
            forall|i: int|
                0 <= i < it.index() ==> #[trigger] given[i] == Ok::<UploadedPart, String>(all@[i]),
    {
        let ghost n = it.index() as int;
        match result {
            Ok(part) => {
                all.push(part);
            },
            Err(e) => {
                assert(given[n] == Err::<UploadedPart, String>(e));
                return Err(e);
            },
        }
    }
    Ok(all)
}

/// What the upload of the parts came to. `Err` stands for a task that did not end well.
pub fn upload_outcome(joined: Result<Result<Vec<UploadedPart>, String>, String>) -> (outcome:
    Result<Vec<UploadedPart>, String>)
    ensures
        match joined {
            Ok(Ok(parts)) => outcome == Ok::<Vec<UploadedPart>, String>(parts),
            Ok(Err(e)) => outcome is Err && outcome->Err_0@ == "Upload job failed: "@ + e@,
            Err(e) => outcome is Err && outcome->Err_0@ == "Upload job panicked: "@ + e@,
        },
{
    match joined {
        Ok(Ok(parts)) => Ok(parts),
        Ok(Err(e)) => {
            let mut text: String = String::from_str("Upload job failed: ");
            text.append(e.as_str());
            Err(text)
        },
        Err(e) => {
            let mut text: String = String::from_str("Upload job panicked: ");
            text.append(e.as_str());
            Err(text)
        },
    }
}

/// Why an entry could not be begun.
pub fn start_failed(filename: &str, cause: &str) -> (text: String)
    ensures
        text@ == "Failed to start ZIP file "@ + filename@ + ": "@ + cause@,
{
    let mut text: String = String::from_str("Failed to start ZIP file ");
    text.append(filename);
    text.append(": ");
    text.append(cause);
    text
}

/// Why an entry's content could not be written.
pub fn write_failed(filename: &str, cause: &str) -> (text: String)
    ensures
        text@ == "Failed to write ZIP file "@ + filename@ + ": "@ + cause@,
{
    let mut text: String = String::from_str("Failed to write ZIP file ");
    text.append(filename);
    text.append(": ");
    text.append(cause);
    text
}

} // verus!
