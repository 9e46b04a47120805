[package]
name = "gpui_ios"
version = "0.1.0"
edition = "2021"
publish = false

[dependencies]
anyhow = "1"
futures = "0.3"
libc = "0.2"
log = "0.4"
raw-window-handle = "0.6"
uuid = "1"
dispatch2 = "*"
wgpu = { version = "*", default-features = false }
