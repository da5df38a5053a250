[package]
name = "obsidian_syncer"
version = "0.1.0"
edition = "2021"
publish = false

[dependencies]
fbuzhash = "*"
xxhash-rust = { version = "*", features = ["xxh3"] }
serde = { version = "*", features = ["derive"] }
serde_json = "*"
notify = "*"
ignore = "*"
tokio = { version = "*", features = ["rt-multi-thread", "macros", "sync", "time"] }
itertools = "*"
color-eyre = "*"
directories = "*"
tracing = "*"
tracing-error = "*"
tracing-subscriber = { version = "*", features = ["env-filter"] }
