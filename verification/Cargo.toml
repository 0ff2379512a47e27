[package]
name = "release_utils"
version = "0.1.0"
edition = "2021"
publish = false

[dependencies]
sha2 = "*"
toml = "*"
serde = { version = "*", features = ["derive"] }
serde_json = "*"
semver = "*"
xshell = "*"
walkdir = "*"
chrono = "*"
thiserror = "*"
minijinja = "*"
flate2 = "*"
tar = "*"
regex = "*"
rpm = "*"
rustix = { version = "*", features = ["system"] }
