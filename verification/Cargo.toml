[package]
name = "allenap_shell_utils"
version = "0.1.0"
edition = "2021"
publish = false

[dependencies]
anyhow = "1"
clap = { version = "4", features = ["derive", "env"] }
ctrlc = "3"
dirs = "*"
notify = { version = "*", features = ["serde"] }
serde_json = "1"
