[package]
name = "insta"
version = "0.1.0"
edition = "2021"
publish = false

[dependencies]
regex = "1"
strip-ansi-escapes = "0.2"
yaml-rust = "0.4"
serde = "1"
serde_json = "1"
similar = "2"
console = "0.15"
globset = "0.4"
walkdir = "2"
once_cell = "1"
lazy_static = "1"
tempfile = "3"
csv = "1"
ron = "*"
toml_edit = { version = "*", features = ["serde"] }
toml_writer = "*"
