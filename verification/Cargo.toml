[package]
name = "chinese_notes"
version = "0.1.0"
edition = "2021"
publish = false

[dependencies]
csv = "=1.4.0"
getopts = "=0.2.24"
rust-crypto = "=0.2.36"
rusqlite = "=0.40.2"
rustc-serialize = "=0.3.25"
time = "=0.1.45"
yaml = "=0.3.0"

[dev-dependencies]
regex = "=1.13.1"
