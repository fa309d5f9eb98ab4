[package]
name = "rust_repos"
version = "0.1.0"
edition = "2021"
publish = false

[dependencies]
rand = "*"
rand_chacha = "*"
itertools = "*"
url = "*"
reqwest = { version = "*", default-features = false, features = ["json"] }
tokio = { version = "*", features = ["rt-multi-thread", "macros", "time", "fs", "sync", "signal", "io-util"] }
serde = { version = "*", features = ["derive"] }
serde_json = "*"
serde-xml-rs = "*"
csv = "*"
clap = { version = "*", features = ["derive", "env"] }
dotenv = "*"
walkdir = "*"
rayon = "*"
dashmap = "*"
