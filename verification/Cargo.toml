[package]
name = "autoken"
version = "0.1.0"
edition = "2021"
publish = false

[dependencies]
petgraph = "=0.6.5"
fixedbitset = "=0.4.2"
smallvec = "=1.16.4"
anyhow = "=1.0.104"
clap = { version = "=4.6.7", features = ["derive"] }
clap-cargo = { version = "=0.19.0", features = ["cargo_metadata"] }
directories = "=5.0.1"
rustc-build-sysroot = "=0.5.14"
