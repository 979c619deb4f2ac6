[package]
name = "chess_meta"
version = "0.1.0"
edition = "2021"
publish = false

[dependencies]
shakmaty = "=0.29.4"
rand = "=0.10.3"
serde = { version = "1", features = ["derive"] }
serde_json = "1"
toml = "=1.1.8"
dirs = "=7.0.0"
log = "0.4"
simplelog = "=0.12.2"
rusqlite = { version = "=0.41.1", features = ["bundled"] }
ort = { version = "=2.0.0-rc.15", default-features = false, features = ["std", "load-dynamic"] }
iced = { version = "=0.14.0", default-features = false, features = ["tiny-skia", "canvas", "thread-pool", "x11"] }
