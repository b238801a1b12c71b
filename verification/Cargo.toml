[package]
name = "chart_view"
version = "0.1.0"
edition = "2021"
publish = false

[dependencies]
iced = { version = "=0.14.0", default-features = false, features = ["canvas", "thread-pool", "tiny-skia", "x11"] }
log = "=0.4.35"
uuid = "=1.29.0"
