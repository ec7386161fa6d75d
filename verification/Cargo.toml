[package]
name = "cnf_partitioner"
version = "0.1.0"
edition = "2021"
publish = false

[dependencies]
bitvec = "1"
rand = "0.9"
cadical = "*"
dimacs = "*"
clap = { version = "4", features = ["derive"] }
num = "*"
tempfile = "3"
log = "0.4"
pretty_env_logger = "*"
