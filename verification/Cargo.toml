[package]
name = "word2vec"
version = "0.1.0"
edition = "2021"
publish = false

[dependencies]
rand = "0.4"
clap = "2"
time = "0.3"
libc = "0.2"
parquet = { version = "*", default-features = false }
