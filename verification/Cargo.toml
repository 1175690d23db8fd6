[package]
name = "fsearch"
version = "0.1.0"
edition = "2021"
publish = false

[dependencies]
clap = { version = "4", features = ["derive"] }
clap-color-help = "*"
clap-version-flag = "*"
colored = "2"
ctrlc = "3"
dirs = "5"
glob = "0.3"
md-5 = "0.10"
rayon = "1"
serde = { version = "1", features = ["derive"] }
sha2 = "0.10"
toml = "0.8"
walkdir = "2"
