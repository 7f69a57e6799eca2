[package]
name = "mehdb"
version = "0.1.0"
edition = "2021"
publish = false

[dependencies]
highway = "*"
anyhow = "1"
log = "0.4"
memmap = "0.7"
parking_lot = "*"
crossbeam = "*"
tempfile = "3"
pretty_env_logger = "*"
