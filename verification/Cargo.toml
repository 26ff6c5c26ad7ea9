[package]
name = "dlog"
version = "0.1.0"
edition = "2021"
publish = false

[dependencies]
byteorder = "1"
prost = { version = "*", default-features = false, features = ["std"] }
memmap = "0.7"
serde = { version = "1", features = ["derive"] }
tide = { version = "0.16", default-features = false, features = ["h1-server"] }
async-std = { version = "1", features = ["attributes"] }
