[package]
name = "solver"
version = "0.1.0"
edition = "2021"
publish = false

[dependencies]
dimacs = "*"
cadical = "*"
stable-vec = "*"
indexmap = "*"
rustc-hash = "*"
priority-queue = "*"
tinyset = "*"
take_mut = "*"
itertools = "*"
rayon = "1"
clap = "4"
async-std = "1"
async-trait = "*"
futures = "0.3"
tokio = { version = "1", features = ["time", "process", "io-util", "rt", "macros"] }
