[package]
name = "spectralblend"
version = "0.1.0"
edition = "2021"
publish = false

[dependencies]
clap = { version = "4", default-features = false, features = ["derive", "error-context", "help", "std", "usage"] }
cpal = "0.15"
hound = "3.5"
libc = "0.2"
pipewire = "0.9"
realfft = "3"
rtrb = "0.3"
rustfft = "6"
serde = { version = "1", features = ["derive"] }
toml = "0.8"
