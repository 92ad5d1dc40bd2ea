[package]
name = "firemark"
version = "0.1.4"
edition = "2021"
publish = false

[dependencies]
anyhow = "1"
clap = { version = "4", features = ["derive"] }
flate2 = "1"
image = { version = "0.25", default-features = false, features = ["png", "jpeg", "webp", "tiff"] }
log = "0.4"
lopdf = "0.34"
rand = "0.8"
serde = { version = "1", features = ["derive"] }
serde_json = "1"
ureq = { version = "2", features = ["json"] }
