[package]
name = "zond"
version = "0.1.0"
edition = "2021"
publish = false

[dependencies]
anyhow = "*"
clap = { version = "*", features = ["derive"] }
is-root = "*"
mac_oui = { version = "*", features = ["with-db"] }
pnet = "*"
rand = "*"
tokio = { version = "*", features = ["full"] }

[dev-dependencies]
dns-parser = "*"
