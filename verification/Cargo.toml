[package]
name = "ccanvas"
version = "0.1.0"
edition = "2021"
publish = false

[dependencies]
mio = { version = "*", features = ["net", "os-poll"] }
nix = { version = "*", features = ["signal"] }
serde = { version = "*", features = ["derive"] }
serde_json = "*"
termion = "*"
