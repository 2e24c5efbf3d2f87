[package]
name = "sc_simplify"
version = "0.1.0"
edition = "2021"
publish = false

[dependencies]
itertools = "=0.15.0"
rustc-hash = "*"
clap = { version = "=4.6.7", features = ["derive"] }
ctrlc = "=3.5.2"
indicatif = "=0.18.6"
console = "=0.16.6"
