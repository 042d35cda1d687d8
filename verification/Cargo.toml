[package]
name = "wyvern"
version = "0.1.0"
edition = "2021"
publish = false

[dependencies]
ropey = "1.6"
unicode-segmentation = "1.11"
unicode-width = "0.2"
fuzzy-matcher = "0.3"
serde_json = "1"
lsp-types = "0.97"
url = "2"
ratatui = "0.29"
crossterm = "0.28"
syntect = { version = "5", default-features = false, features = ["default-fancy"] }
arboard = { version = "3", default-features = false }
