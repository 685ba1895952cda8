[package]
name = "uca_collate"
version = "0.1.0"
edition = "2021"
publish = false

[dependencies]
bstr = "1"
unicode-canonical-combining-class = "*"
bincode = { version = "2", features = ["serde"] }
once_cell = "1"
