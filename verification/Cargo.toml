[package]
name = "treeutils"
version = "0.1.0"
edition = "2021"
publish = false

[dependencies]
blake3 = "*"
edit-distance = "*"
clap = { version = "*", features = ["derive"] }
colored = "*"
crossbeam = "*"
futures = "*"
async-recursion = "*"
indicatif = "*"
num_cpus = "*"
terminal_size = "*"
tokio = { version = "*", features = ["fs", "rt-multi-thread", "macros"] }
