[package]
name = "mersenne"
version = "0.1.0"
edition = "2021"
publish = false

[dependencies]
rug = { version = "=1.19.2", default-features = false, features = ["integer"] }
gmp-mpfr-sys = { version = "*", default-features = false, features = ["use-system-libs"] }
clap = "=2.34.0"
