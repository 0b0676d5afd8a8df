[package]
name = "path_sort"
version = "1.0.0"
edition = "2021"
publish = false

[dependencies]
anyhow = "1"
clap = "2"
number_prefix = "0.4"
separator = "0.4"
serde = { version = "1", features = ["derive"] }
serde_json = "1"
