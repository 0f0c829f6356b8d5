[package]
name = "gta_mo"
version = "0.1.0"
edition = "2021"
publish = false

[dependencies]
anyhow = "1"
serde = { version = "1", features = ["derive"] }
serde_json = "1"
toml = "*"
toml_edit = "*"
comfy-table = "*"
owo-colors = "*"
dirs = "*"
which = "*"
fs2 = "*"
libc = "*"
clap = { version = "4", features = ["derive"] }
rusqlite = { version = "*", features = ["bundled"] }
