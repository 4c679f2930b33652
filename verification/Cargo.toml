[package]
name = "ui_introspect"
version = "0.1.0"
edition = "2021"
publish = false

[dependencies]
i-slint-compiler = { version = "0.3", default-features = false }
lsp-types = "0.94"
rowan = "0.15"
serde = { version = "1", features = ["derive"] }
