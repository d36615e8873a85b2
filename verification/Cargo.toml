[package]
name = "wordlist_filter"
version = "1.0.0"
edition = "2021"
publish = false

[dependencies]
ahash = "=0.8.12"
anyhow = "1"
bytesize = "1"
chardetng = "=0.1.17"
clap = { version = "4", features = ["derive"] }
colored = "2"
encoding_rs = "=0.8.42"
env_logger = "0.11"
hashbrown = "=0.14.5"
indicatif = "0.17"
log = "0.4"
memchr = "=2.8.3"
memmap2 = "0.9"
num_cpus = "=1.17.0"
rayon = "1"
regex = "=1.13.1"
walkdir = "2"
