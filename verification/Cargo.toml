[package]
name = "simcore"
version = "0.1.0"
edition = "2021"
publish = false

[dependencies]
priq = "=0.1.6"
grid = "=1.0.1"
nalgebra = { version = "=0.35.0", features = ["macros"] }
serde = { version = "=1.0.229", features = ["derive"] }
serde_with = "=3.24.0"
thiserror = "=2.0.21"
arbitrary = "=1.5.0"
either = "=1.19.0"
itertools = "=0.15.0"
