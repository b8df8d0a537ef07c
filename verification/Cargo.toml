[package]
name = "church"
version = "0.1.0"
edition = "2021"
publish = false

[dependencies]
aho-corasick = "1"
rustc-hash = "*"
rustyline = "*"
ctrlc = "*"
color-eyre = "*"
thiserror = "*"
