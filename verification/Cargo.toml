[package]
name = "bril_utils"
version = "0.1.0"
edition = "2021"
publish = false

[dependencies]
bimap = "0.6"
clap = { version = "4", features = ["derive"] }
fxhash = "0.2"
indexmap = "2"
indextree = "4"
mimalloc = "0.1"
serde = { version = "1", features = ["derive"] }
serde_json = "1"
