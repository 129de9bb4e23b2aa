[package]
name = "cyclonedds-rs"
version = "0.1.0"
edition = "2021"
publish = false

[dependencies]
bit_field = "0.10"
cdr = "0.2"
cyclonedds-sys = "*"
md5 = "0.7"
murmur3 = "0.5"
proc-macro2 = "1"
quote = "1"
serde = { version = "1", features = ["derive"] }
syn = { version = "1", features = ["full"] }
