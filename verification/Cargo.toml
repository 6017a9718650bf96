[package]
name = "mixtec_fst"
version = "0.1.0"
edition = "2021"
publish = false

[dependencies]
anyhow = "*"
clap = { version = "*", features = ["derive"] }
colored = "*"
csv = "*"
itertools = "*"
rustfst = "*"
serde = { version = "*", features = ["derive"] }
