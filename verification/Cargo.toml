[package]
name = "mdnr_map_downloader"
version = "0.1.0"
edition = "2021"
publish = false

[dependencies]
image = { version = "*", default-features = false, features = ["png", "jpeg"] }
image-merger = "*"
reqwest = { version = "0.12", default-features = false, features = ["blocking", "rustls-tls"] }
tokio = { version = "*", features = ["rt-multi-thread", "macros", "sync", "time"] }
futures = "*"
rand = "0.9"
clap = { version = "*", features = ["derive"] }
zip = { version = "*", default-features = false }
