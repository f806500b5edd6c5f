[package]
name = "didyoumean"
version = "0.1.0"
edition = "2021"
publish = false

[dependencies]
atty = "*"
clap = { version = "*", features = ["derive"] }
cli-clipboard = "*"
colored = "*"
dialoguer = "*"
dirs = "*"
futures-util = "*"
indicatif = "*"
nix = { version = "*", features = ["process"] }
reqwest = { version = "*", default-features = false, features = ["stream"] }
tokio = { version = "*", features = ["macros", "rt-multi-thread"] }
