[package]
name = "motd"
version = "0.1.0"
edition = "2021"
publish = false

[dependencies]
anyhow = "*"
clap = "3"
libc = "*"
num_cpus = "*"
regex = "*"
serde = { version = "*", features = ["derive"] }
termsize = "*"
toml = "*"
walkdir = "*"
xdg = "*"
