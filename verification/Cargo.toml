[package]
name = "ledr"
version = "0.1.0"
edition = "2021"
publish = false

[dependencies]
unicode-width = "=0.2.3"
similar = "=3.2.1"
clap = { version = "=4.6.7", features = ["derive"] }
clap_complete = "4"
chrono = "=0.4.45"
serde = { version = "=1.0.229", features = ["derive"] }
toml = "=1.1.8"
terminal_size = "=0.4.4"
