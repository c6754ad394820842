[package]
name = "hjq"
version = "0.1.0"
edition = "2021"
publish = false

[dependencies]
serde = "1"
serde_json = "1"
rocksdb = "0.13"
structopt = "0.3"
