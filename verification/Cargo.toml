[package]
name = "db_ip"
version = "0.3.10"
edition = "2021"
publish = false

[dependencies]
bincode = "1"
csv = "1"
locale-codes = "0.3"
proc-macro2 = "1"
quote = "1"
serde = { version = "1", features = ["derive"] }
