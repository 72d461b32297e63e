[package]
name = "dpc"
version = "0.1.0"
edition = "2021"
publish = false

[dependencies]
byteorder = "1"
lz4 = "1"
itertools = "*"
serde = { version = "1", features = ["derive"] }
serde_json = "1"
clap = "2"
ddsfile = "*"
hound = "3"
dialoguer = "*"
indicatif = "*"
wild = "2"
