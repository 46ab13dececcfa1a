[package]
name = "wordle"
version = "0.1.0"
edition = "2021"
publish = false

[dependencies]
atty = "0.2"
clap = "4"
console = "0.15"
rand = "0.8"
serde = "1"
serde_json = "1"
