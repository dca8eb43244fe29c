[package]
name = "wit"
version = "0.1.0"
edition = "2021"
publish = false

[dependencies]
anyhow = "=1.0.104"
inkwell = { version = "=0.2.0", features = ["llvm14-0-no-llvm-linking"] }
itertools = "=0.14.0"
thiserror = "=1.0.69"
