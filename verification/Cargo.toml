[package]
name = "comet_delta"
version = "0.1.0"
edition = "2021"
publish = false

[dependencies]
arrow = { version = "=58.4.1", default-features = false }
async-trait = "0.1"
bytes = "=1.12.1"
chrono = "=0.4.45"
chrono-tz = "=0.10.4"
crc32c = "=0.6.9"
datafusion = { version = "53", default-features = false, features = ["parquet"] }
datafusion-datasource = { version = "53", default-features = false }
datafusion-pruning = "53"
delta_kernel = { version = "=0.24.0", features = ["arrow", "default-engine-rustls"] }
futures = "0.3"
jni = "=0.22.4"
log = "0.4"
object_store = { version = "=0.13.2", features = ["aws", "azure", "gcp"] }
parquet = { version = "=58.4.1", default-features = false, features = ["arrow", "async"] }
prost = "=0.14.4"
reqwest = { version = "0.12", default-features = false, features = ["rustls-tls"] }
tokio = { version = "1", features = ["sync", "rt", "rt-multi-thread", "macros"] }
url = "=2.5.8"
