[package]
name = "oxiz_solver"
version = "0.1.0"
edition = "2021"
publish = false

[dependencies]
num-bigint = "0.4"
num-rational = "0.4"
num-traits = "0.2"
rustc-hash = "2"
smallvec = "1"
tracing = "0.1"
