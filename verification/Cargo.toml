[package]
name = "ps_htree"
version = "0.1.0"
edition = "2021"
publish = false

[dependencies]
ps-hkey = "=0.1.0-39"
ps-uuid = "=0.1.0-4"
postcard = { version = "=1.1.3", features = ["alloc"] }
thiserror = "=2.0.21"
serde = { version = "=1.0.229", features = ["derive"] }
rkyv = "=0.8.18"
