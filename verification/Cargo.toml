[package]
name = "existence"
version = "0.7.0"
edition = "2021"
publish = false

[dependencies]
clap = { version = "4", features = ["derive"] }
clap_complete = "4"
oxigraph = { version = "0.5", default-features = false }
regex = "1"
serde = { version = "1", features = ["derive"] }
serde_json = "1"
sha2 = "0.10"
strsim = "0.11"
tiny_http = "0.12"
toml = "*"
ureq = "3"
