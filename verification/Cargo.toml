[package]
name = "merkle_trie"
version = "0.1.0"
edition = "2021"
publish = false

[dependencies]
lru-cache = "=0.1.2"
blake2b_simd = "=1.0.5"

[dev-dependencies]
rlp = "=0.6.1"
trie-standardmap = "=0.16.0"
