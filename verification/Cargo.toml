[package]
name = "swsel"
version = "0.1.0"
edition = "2021"
publish = false

[dependencies]
byteorder = "1"
indexmap = "2"
log = "0.4"
num-traits = "0.2"
serde = { version = "1", features = ["derive"] }
