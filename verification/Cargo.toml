[package]
name = "texparser"
version = "0.1.0"
edition = "2021"
publish = false

[dependencies]
regex = "1"
glob = "0.3"
clap = "2"
rustc-serialize = "0.3"
