[package]
name = "rs_mender"
version = "0.1.0"
edition = "2021"
publish = false

[dependencies]
serde = { version = "*", features = ["derive"] }
serde_json = "*"
csv = "*"
ndarray = "*"
ndarray-rand = "*"
threadpool = "*"
sprs = "*"

[dev-dependencies]
itertools = "*"
