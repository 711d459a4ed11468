[package]
name = "mold-macho"
version = "0.1.0"
edition = "2021"
publish = false

[dependencies]
hashbrown = "0.15"
libc = "0.2"
memchr = "2"
memmap2 = "0.9"
mimalloc = { version = "0.1", default-features = false }
rayon = "1"
xxhash-rust = { version = "0.8", features = ["xxh3"] }
