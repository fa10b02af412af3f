[package]
name = "bulloak"
version = "0.1.0"
edition = "2021"
publish = false

[dependencies]
indexmap = "2"
unicode-xid = "0.2"
anyhow = "1"
thiserror = "1"
clap = { version = "4", features = ["derive"] }
serde = { version = "1", features = ["derive"] }
figment = "0.10"
owo-colors = "4"
solang-parser = "0.3"
forge-fmt = "*"
