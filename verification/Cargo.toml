[package]
name = "sshman"
version = "0.1.0"
edition = "2021"
publish = false

[dependencies]
age = "0.10"
secrecy = "0.8"
chrono = "0.4"
dirs = "5"
local-ip-address = "0.6"
clap = { version = "4", features = ["derive"] }
russh = "*"
russh-sftp = "*"
tokio = { version = "1", features = ["full"] }
crossterm = "*"
arboard = "3"
colored = "2"
comfy-table = "7"
indicatif = "0.17"
rpassword = "7"
serde = { version = "1", features = ["derive"] }
toml = "0.8"
