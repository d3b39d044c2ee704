[package]
name = "gourd"
version = "0.1.0"
edition = "2021"
publish = false

[dependencies]
regex-lite = "=0.1.9"
anyhow = "=1.0.104"
clap = { version = "=4.6.7", features = ["derive"] }
chrono = "=0.4.45"
serde = { version = "=1.0.229", features = ["derive"] }
toml = "=1.1.8"
inquire = "=0.9.4"
anstyle = "=1.0.14"
colog = "=1.4.0"
log = "=0.4.35"
csv = "=1.4.0"
humantime = "=2.4.0"
indicatif = "=0.18.6"
indicatif-log-bridge = "=0.2.3"
flate2 = "=1.1.10"
tar = "=0.4.46"
futures = "=0.3.34"
tokio = { version = "=1.54.1", features = ["rt-multi-thread", "macros"] }
git2 = { version = "=0.21.0", default-features = false }
plotters = { version = "=0.3.7", default-features = false, features = ["bitmap_backend", "bitmap_encoder", "svg_backend", "line_series"] }
reqwest = { version = "=0.13.5", default-features = false, features = ["blocking"] }
