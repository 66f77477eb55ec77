[package]
name = "jagua-rs"
version = "0.1.0"
edition = "2021"
publish = false

[dependencies]
itertools = "0.12"
serde = { version = "1.0", features = ["derive"] }
serde_json = "1.0"
clap = { version = "4.4", features = ["derive"] }
rand = { version = "0.8", features = ["small_rng"] }
log = "0.4"
once_cell = "1.19"
ordered-float = "4.2"
mimalloc = "0.1"
thousands = "0.2"
