[package]
name = "texforge"
version = "0.1.0"
edition = "2021"
publish = false

[dependencies]
anyhow = "=1.0.104"
clap = { version = "=4.6.7", default-features = false, features = ["derive", "std", "help", "usage", "error-context"] }
d2-little = "=0.7.1-1"
dirs = "=7.0.0"
flate2 = "=1.1.10"
hayro = "=0.9.0"
inquire = { version = "=0.9.4", default-features = false, features = ["crossterm"] }
layout-rs = "=0.1.3"
lopdf = { version = "=0.38.0", default-features = false }
mermaid-rs-renderer = { version = "=0.3.1", default-features = false }
notify = "=8.2.1"
pdf-extract = "=0.10.0"
png = "=0.18.1"
reqwest = { version = "=0.13.5", default-features = false, features = ["blocking", "json", "rustls-no-provider"] }
resvg = { version = "=0.46.0", default-features = false, features = ["text", "system-fonts", "memmap-fonts"] }
rustls = { version = "=0.23.46", default-features = false, features = ["ring", "std", "tls12"] }
serde = { version = "=1.0.229", features = ["derive"] }
serde_json = "=1.0.154"
spellbook = "=0.4.2"
svg2pdf = "=0.13.0"
tar = "=0.4.46"
tempfile = "=3.27.0"
toml = "=1.1.8"
walkdir = "=2.5.0"
zip = { version = "=9.2.2", default-features = false, features = ["deflate"] }
