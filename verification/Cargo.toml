[package]
name = "hypercore"
version = "0.1.0"
edition = "2021"
publish = false

[dependencies]
anyhow = "=1.0.104"
async-std = "=1.13.2"
blake2 = "=0.10.6"
compact-encoding = "=1.1.0"
crc32c = "=0.6.8"
ed25519-dalek = "=1.0.1"
flat-tree = "=5.0.0"
futures = "=0.3.34"
merkle-tree-stream = "=0.12.1"
rand = "=0.7.3"
random-access-disk = "=2.0.0"
random-access-memory = "=2.0.0"
random-access-storage = "=4.0.0"
sleep-parser = "=0.8.0"
