[package]
name = "hella"
version = "0.1.0"
edition = "2021"
publish = false

[dependencies]
anstyle = "=1.0.14"
clap = { version = "=4.6.7", features = ["derive"] }
console = "0.16"
indicatif = "0.18"
lsp-types = "=0.97.0"
miette = { version = "=7.6.0", features = ["fancy"] }
semver = "=1.0.28"
thiserror = "=2.0.21"
toml = "=0.8.23"
