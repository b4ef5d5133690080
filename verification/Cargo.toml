[package]
name = "approvals_db"
version = "0.1.0"
edition = "2021"
publish = false

[dependencies]
bitvec = { version = "0.20", default-features = false, features = ["alloc", "std"] }
parity-scale-codec = { version = "2", default-features = false, features = ["std", "bit-vec"] }
structopt = { version = "0.3", default-features = false }
