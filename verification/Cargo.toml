[package]
name = "termide_logic"
version = "0.1.0"
edition = "2021"
publish = false

[dependencies]
regex = "1"
unicode-segmentation = "1"
unicode-width = "*"
ratatui = { version = "*", default-features = false }
lsp-types = "*"
serde = { version = "1", features = ["derive"] }
serde_json = "1"
