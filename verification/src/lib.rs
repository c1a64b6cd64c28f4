//! Building one ZIP archive out of many objects of S3, without moving more bytes than it
//! takes.
//!
//! Several archivers share the crate. Each decides, before anything is transferred, which
//! contents S3 copies into the archive by itself and which are read and uploaded, and where
//! every entry stands. Fetching and storing is left to the caller: functions take what S3
//! has answered and say what to ask for next.
//!
//! - `zip_format` and `zip_records` write the records of the format; `zip_reading`,
//!   `read_back` and `layout_reading` state that a reader finds what was written, and
//!   `header_laws` that headers and directory records agree.
//! - `plan` and `assemble` build the archive in one upload, `layered` in chains of layers,
//!   `plan_chain` and `assemble_chain` in stitched segments, `zip_layout` and `part_job` in
//!   pairs of uploaded and copied parts, `stream_fallback` at once, and `archive_stream` and
//!   `slabs_ring` as a stream.
//! - `lambda_executor`, `rate_limit`, `retry` and `directory` hold what the archivers do
//!   while the work is under way.
//! - `listing_order`, `job_runs`, `buffer_runs` and `ring_runs` state what holds of all
//!   listings and of whole runs, however their steps are ordered; `plan_laws` and
//!   `layout_laws` state what a plan and a layout owe to the files that they are made of.
//! - `fill_bucket`, `listing`, `content`, `control` and `object_reader` prepare the bucket
//!   and validate an archive.

pub mod archive_stream;
pub mod assemble;
pub mod assemble_chain;
pub mod buffer_runs;
pub mod byte_range;
pub mod content;
pub mod control;
pub mod crc;
pub mod directory;
pub mod error;
pub mod fill_bucket;
pub mod header_laws;
pub mod job_runs;
pub mod lambda_executor;
pub mod layered;
pub mod layout_laws;
pub mod layout_reading;
pub mod le_bytes;
pub mod listing;
pub mod listing_order;
pub mod multipart;
pub mod object_reader;
pub mod part_job;
pub mod plan;
pub mod plan_chain;
pub mod plan_laws;
pub mod rate_limit;
pub mod read_back;
pub mod retry;
pub mod ring_runs;
pub mod shared_buffer;
pub mod slabs_ring;
pub mod sorting;
pub mod stream_fallback;
pub mod text;
pub mod zip_format;
pub mod zip_layout;
pub mod zip_reading;
pub mod zip_records;
