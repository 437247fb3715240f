[package]
name = "boltkv"
version = "0.1.0"
edition = "2021"
publish = false

[dependencies]
parking_lot = "*"
thiserror = "*"
anyhow = "*"
