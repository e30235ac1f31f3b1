[package]
name = "media_gallery"
version = "0.1.0"
edition = "2021"
publish = false

[dependencies]
actix-files = "=0.6.10"
actix-web = { version = "=4.18.1", default-features = false, features = ["macros"] }
clap = { version = "=4.6.7", features = ["derive"] }
env_logger = "=0.11.11"
imagesize = { version = "=0.15.0", default-features = false, features = ["gif", "jpeg", "png", "webp"] }
log = "=0.4.34"
mp4 = "=0.14.0"
rand = "=0.9.5"
serde = { version = "=1.0.229", features = ["derive"] }
serde_json = "=1.0.154"
tera = { version = "=1.20.1", default-features = false }
thiserror = "=1.0.69"
tokio = { version = "=1.54.1", features = ["rt"] }
webbrowser = "=1.2.5"
