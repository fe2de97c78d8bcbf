[package]
name = "tztui"
version = "0.1.0"
edition = "2021"
publish = false

[dependencies]
chrono = "*"
crossterm = "*"
rustyline = "*"
serde = { version = "*", features = ["derive"] }
toml = "*"
tui = "*"
unicode-segmentation = "*"
unicode-width = "*"

[dev-dependencies]
serde_json = "*"
