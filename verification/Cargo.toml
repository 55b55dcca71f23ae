[package]
name = "bitcode_pipeline"
version = "0.1.0"
edition = "2021"
publish = false

[dependencies]
percent-encoding = "2"
hashbrown = "*"
crossbeam = "*"
rayon = "*"
num_cpus = "*"
serde = { version = "1", features = ["derive"] }
serde_json = "1"
simd-json = "*"
log = "0.4"
pretty_env_logger = "*"
lazy_static = "1"
jemallocator = "*"
