[package]
name = "shatree"
version = "0.1.0"
edition = "2021"
publish = false

[dependencies]
sha1 = "0.6"
crossbeam-channel = "*"
anyhow = "*"
log = "*"
stderrlog = "*"
structopt = "*"
serde = { version = "*", features = ["derive"] }
serde_json = "*"
