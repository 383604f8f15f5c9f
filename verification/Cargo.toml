[package]
name = "petektools"
version = "0.1.0"
edition = "2021"
publish = false

[dependencies]
serde = { version = "1", features = ["derive"] }
serde_json = "1"
zstd = "*"
ndarray = "*"
rstar = "*"
statrs = "*"
rand = "*"
rand_distr = "*"
thiserror = "*"
