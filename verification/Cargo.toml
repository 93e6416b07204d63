[package]
name = "rust_bm25"
version = "0.1.0"
edition = "2021"
publish = false

[dependencies]
bitpacking = "0.9"
blake3 = { version = "1", features = ["pure"] }
bumpalo = "3"
crossbeam-channel = "0.5"
dashmap = "*"
deunicode = "1"
flume = "*"
fst = { version = "0.4", features = ["levenshtein"] }
glob = "0.3"
md5 = "*"
memmap2 = "*"
num_cpus = "1"
once_cell = "1"
pdf-extract = "*"
rayon = "1"
reqwest = { version = "*", default-features = false }
rust-stemmers = "1"
rustc-hash = "*"
scraper = "*"
serde = { version = "1", features = ["derive"] }
serde_json = "1"
simdutf8 = "*"
tokio = { version = "1", features = ["rt-multi-thread", "sync"] }
zip = { version = "*", default-features = false, features = ["deflate"] }
zstd = "*"
