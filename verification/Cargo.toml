[package]
name = "rust_app_menu"
version = "0.1.0"
edition = "2021"
publish = false

[dependencies]
iced = { version = "*", default-features = false, features = ["tokio"] }
iced_layershell = "*"
tokio = { version = "*", features = ["rt", "net", "io-util"] }
serde = { version = "*", features = ["derive"] }
toml = "*"
