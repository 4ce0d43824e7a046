[package]
name = "rs_imgviewer"
version = "0.1.0"
edition = "2021"
publish = false

[dependencies]
chrono = "0.4"
clap = { version = "4", features = ["derive"] }
fern = "0.6"
image = "0.24"
log = "0.4"
serde = { version = "1", features = ["derive"] }
show-image = "0.13"
toml = "0.7"
windows = { version = "0.48", features = ["Win32_UI_WindowsAndMessaging"] }
