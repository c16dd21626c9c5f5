[package]
name = "redwood"
version = "0.1.0"
edition = "2021"
publish = false

[dependencies]
glob = "0.3"
xxhash-rust = { version = "0.8", features = ["xxh3"] }
walkdir = "2"
which = "6"
tempfile = "3"
rusqlite = { version = "0.31", features = ["bundled"] }
clap = { version = "4", features = ["derive"] }
rayon = "1"
