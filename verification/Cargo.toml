[package]
name = "dual"
version = "0.1.0"
edition = "2021"
publish = false

[dependencies]
clap = { version = "*", features = ["derive"] }
crossterm = "*"
dirs = "*"
fs2 = "*"
http-body-util = "*"
hyper = { version = "*", features = ["http1", "client", "server"] }
hyper-util = { version = "*", features = ["tokio"] }
ratatui = "*"
serde = { version = "*", features = ["derive"] }
tokio = { version = "*", features = ["full"] }
toml = "*"
