[package]
name = "vmisknn"
version = "0.1.0"
edition = "2021"
publish = false

[dependencies]
dary_heap = "*"
csv = "1"
justconfig = "*"
tdigest = "*"

[dev-dependencies]
fnv = "1"
