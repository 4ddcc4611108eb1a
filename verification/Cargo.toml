[package]
name = "fusiongraph"
version = "0.1.0"
edition = "2021"
publish = false

[dependencies]
dashmap = "6"
num_cpus = "1"
serde = { version = "1", features = ["derive"] }
serde_json = "1"
toml = "0.8"
thiserror = "2"
arrow = { version = "55", default-features = false, features = ["ffi"] }
arrow-array = "55"
arrow-schema = "55"
datafusion = { version = "47", default-features = false }
futures = "0.3"
async-trait = "0.1"
