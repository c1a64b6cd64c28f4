[package]
name = "s3_archiving"
version = "0.1.0"
edition = "2021"
publish = false

[dependencies]
aws-sdk-lambda = { version = "1", default-features = false, features = ["rt-tokio"] }
aws-sdk-s3 = { version = "1", default-features = false, features = ["rt-tokio"] }
aws_lambda_events = { version = "*", default-features = false, features = ["cloudformation"] }
awssdk-instrumentation = "*"
base64 = "=0.22.1"
crc32fast = "=1.5.4"
futures = "0.3"
rand = "0.9"
rand_distr = "0.5"
reqwest = { version = "0.12", default-features = false }
serde = { version = "1", features = ["derive"] }
serde_json = "1"
sha2 = "=0.10.9"
thiserror = "2"
tokio = { version = "1", features = ["macros", "rt", "rt-multi-thread", "sync", "time"] }
tracing = "0.1"
zip = { version = "8", default-features = false }
