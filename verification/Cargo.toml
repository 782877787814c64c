[package]
name = "tps"
version = "0.1.0"
edition = "2021"
publish = false

[dependencies]
chrono = "*"
directories = "*"
git2 = "*"
serde = { version = "*", features = ["derive"] }
skim = "*"
tmux_interface = "*"
toml = "*"
