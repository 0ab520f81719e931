[package]
name = "driver_indexer"
version = "0.1.0"
edition = "2021"
publish = false

[dependencies]
chardet = "*"
encoding = "*"
goblin = "*"
fastrand = "*"
clap = "*"
glob = "*"
num_cpus = "*"
threadpool = "*"

[dev-dependencies]
serde_json = "*"
