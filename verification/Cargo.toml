[package]
name = "linguaspark"
version = "0.1.0"
edition = "2021"
publish = false

[dependencies]
flate2 = "1"
rayon = "1"
rten-gemm = "*"
rten-simd = "*"
rten-tensor = "*"
rten-vecmath = "*"
sentencepiece-rs = "*"
serde = { version = "1", features = ["derive"] }
sha2 = "0.10"
thiserror = "2"
yaml_serde = "*"
