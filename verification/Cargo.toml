[package]
name = "renet"
version = "0.1.0"
edition = "2021"
publish = false

[dependencies]
log = "0.4"
renetcode = "*"

[dev-dependencies]
bincode = "1.3"
rand = "0.8"
