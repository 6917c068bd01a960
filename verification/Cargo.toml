[package]
name = "mac_oui"
version = "0.1.0"
edition = "2021"
publish = false

[dependencies]
rangemap = "*"
multimap = "*"
macaddr = "*"
csv = "*"
serde = { version = "*", features = ["derive"] }
