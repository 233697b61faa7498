[package]
name = "llamactl"
version = "0.1.0"
edition = "2021"
publish = false

[dependencies]
anyhow = "1"
clap = { version = "4", features = ["derive"] }
crossterm = "*"
ctrlc = "3"
directories = "*"
flate2 = "1"
ratatui = "*"
regex = "1"
reqwest = { version = "0.12", default-features = false, features = ["blocking", "json", "rustls-tls"] }
serde = { version = "1", features = ["derive"] }
serde_json = "1"
sha2 = "0.10"
tar = "0.4"
tempfile = "3"
throbber-widgets-tui = "*"
tui-checkbox = "*"
walkdir = "2"
