[package]
name = "bedrock_leveldb"
version = "0.2.0"
edition = "2021"
publish = false

[dependencies]
bytes = "1"
flate2 = "1"
snap = "1"
memmap2 = "0.9"
log = "0.4"
