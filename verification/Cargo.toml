[package]
name = "flea_watch"
version = "0.1.0"
edition = "2021"
publish = false

[dependencies]
image = { version = "=0.25.5", default-features = false, features = ["png"] }
lazy_static = "=1.5.1"
png = "=0.17.16"
template-matching = "=0.2.0"
tokio = { version = "=1.54.1", features = ["full"] }
windows-capture = "=1.4.4"
