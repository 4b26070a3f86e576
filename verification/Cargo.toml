[package]
name = "chronicle"
version = "0.1.0"
edition = "2021"
publish = false

[dependencies]
blake3 = { version = "=1.8.7", features = ["pure"] }
chrono = "=0.4.45"
clap = { version = "=4.6.7", features = ["derive"] }
serde = { version = "=1.0.229", features = ["derive"] }
serde_json = "=1.0.154"
ignore = "=0.4.33"
dirs-next = "=2.0.0"
rusqlite = "=0.40.2"
gix = { version = "=0.90.0", default-features = false, features = ["sha1"] }
actix-web = { version = "=4.18.1", default-features = false, features = ["macros"] }
actix-files = "=0.6.10"
