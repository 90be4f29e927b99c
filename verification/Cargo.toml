[package]
name = "rpds_pathtree"
version = "0.1.0"
edition = "2021"
publish = false

[dependencies]
rpds = "1"
thiserror = "1"
