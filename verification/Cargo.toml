[package]
name = "mdsearch"
version = "0.2.0"
edition = "2021"
publish = false

[dependencies]
pulldown-cmark = "=0.13.6"
chrono = "=0.4.45"
dirs = "*"
serde = { version = "1", features = ["derive"] }
serde_json = "1"
bincode = "=1.3.3"
rocksdb = "*"
clap = { version = "4", features = ["derive", "env"] }
colored = "*"
indicatif = "*"
walkdir = "*"
ignore = "*"
notify = "*"
rayon = "*"
num_cpus = "*"
anyhow = "*"
tracing = "*"
tracing-subscriber = { version = "*", features = ["env-filter"] }
reqwest = { version = "*", default-features = false, features = ["blocking", "json"] }
