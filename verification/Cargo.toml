[package]
name = "custom_id"
version = "0.1.0"
edition = "2021"
publish = false

[dependencies]
bitvec = "1"
thiserror = "*"
twilight-model = "*"
