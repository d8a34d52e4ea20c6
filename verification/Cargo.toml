[package]
name = "anki_scheduler"
version = "0.1.0"
edition = "2021"
publish = false

[dependencies]
sha2 = "0.10"
fnv = "1"
rand = "0.9"
fsrs = { version = "*", default-features = false }
