[package]
name = "opendp_num"
version = "0.1.0"
edition = "2021"
publish = false

[dependencies]
dashu = "=0.5.2"
malachite = { version = "=0.14.0", features = ["floats"] }
rug = "=1.30.0"
arbitrary = { version = "=1.5.0", features = ["derive"] }
serde_json = "=1.0.154"
