[package]
name = "xisf-header"
version = "0.4.0"
edition = "2021"
publish = false

[dependencies]
quick-xml = "*"
time = "0.3"
skymath = "*"
thiserror = "*"
serde = { version = "1", features = ["derive"] }
