# s3_archiving

Building one ZIP archive out of many objects of S3, from a Lambda function with little memory
and time.

The library in `src/` holds the decisions: which contents S3 copies into the archive by itself,
which are read and uploaded, where every entry stands, how the records of the format are
written, how calls are paced and tried again, and how a finished archive is validated. It is
written in Verus. Every function states what it returns, and the laws that hold over several
functions are public proof functions beside them. The most general ones are in `zip_reading`,
`read_back` and `layout_reading`: a reader of a finished archive finds every file once, with
its name, its checksum and its content. `listing_order`, `job_runs`, `buffer_runs` and
`ring_runs` speak of all listings and of whole runs.

`app/` holds the Lambda functions around the library: they list, fetch, copy and upload, and
hand the library what came back. `FUNCTION_ROLE` says which of them runs: `fill-bucket`,
`control`, or one of the archivers `single`, `layered`, `chain`, `duo`, `stream`, `delegate`.

`tests/` runs the library, and reads archives back with the `zip` crate.

## What is taken on trust

Four outside functions are called from the library behind a wrapper each, whose contract is
not proved: `BASE64_STANDARD.decode_slice` of `base64` (`zip_records`), `Sha256::digest` of
`sha2` (`content`), `hash` of `crc32fast` (`stream_fallback`), and std's `Debug` of a string
(`control`).
