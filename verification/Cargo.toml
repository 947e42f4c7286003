[package]
name = "pkgcraft"
version = "0.1.0"
edition = "2021"
publish = false

[dependencies]
humantime = "=2.4.0"
nix = { version = "=0.31.3", features = ["fs", "user"] }
indexmap = "=2.14.2"
clap = { version = "=4.6.7", features = ["derive"] }
anyhow = "=1.0.104"
camino = "1"
