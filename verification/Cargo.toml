[package]
name = "spellingbee"
version = "0.1.0"
edition = "2021"
publish = false

[dependencies]
permutator = "0.4"
rkyv = { version = "0.7", features = ["validation"] }
trie-rs = "0.1"
