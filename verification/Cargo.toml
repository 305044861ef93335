[package]
name = "imageviewer"
version = "0.1.0"
edition = "2021"
publish = false

[dependencies]
percent-encoding = "=2.3.2"
url = "=2.5.8"
rand = "=0.10.3"
clap = "*"
warp = { version = "*", features = ["server"] }
maud = "*"
natord = "*"
lazy_static = "*"
serde = { version = "1", features = ["derive"] }
serde_derive = "1"
tokio = { version = "1", features = ["rt-multi-thread", "macros"] }
