[package]
name = "rmdigest"
version = "0.1.0"
edition = "2021"
publish = false

[dependencies]
anyhow = "1"
clap = { version = "4", features = ["derive"] }
image = { version = "0.25", default-features = false, features = ["png"] }
lopdf = { version = "0.38", default-features = false }
serde = { version = "1", features = ["derive"] }
serde_json = "1"
sha2 = "0.10"
tempfile = "3"
tiny-skia = "0.11"
toml = "0.9"
typst = "0.14"
typst-pdf = "0.14"
