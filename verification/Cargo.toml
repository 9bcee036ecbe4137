[package]
name = "my_approvals"
version = "0.1.0"
edition = "2021"
publish = false

[dependencies]
anyhow = "1"
clap = { version = "4", features = ["derive"] }
ethers-core = "2"
ethers-providers = "2"
futures = "0.3"
itertools = "*"
tokio = { version = "1", features = ["rt-multi-thread", "macros"] }
url = "2"
