[package]
name = "stroki"
version = "0.1.0"
edition = "2021"
publish = false

[dependencies]
clap = { version = "4", features = ["derive"] }
serde_json = "1"
strsim = "*"
simplelog = "*"
log = "*"
colored = "*"
