[package]
name = "rcf3"
version = "0.1.0"
edition = "2021"
publish = false

[dependencies]
ahash = "=0.8.12"
itertools = "=0.14.0"
libm = "=0.2.16"
ndarray = { version = "=0.17.2", features = ["serde"] }
ordered-float = "=5.5.1"
rand = { version = "=0.10.3", features = ["serde"] }
rand_distr = "=0.6.0"
serde = { version = "=1.0.229", features = ["derive"] }
serde_json = "=1.0.154"
thiserror = "=2.0.21"
