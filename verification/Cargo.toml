[package]
name = "filepipe"
version = "0.1.0"
edition = "2021"
publish = false

[dependencies]
hex = "0.4"
rand = "0.10"
ed25519-dalek = { version = "2", features = ["pkcs8", "pem", "rand_core"] }
ssh-key = { version = "*", features = ["ed25519"] }
axum = "0.8"
axum-extra = { version = "*", features = ["typed-header"] }
chrono = "*"
clap = { version = "4", features = ["derive"] }
getrandom = "*"
ignore = "*"
mlua = { version = "*", features = ["lua54", "vendored"] }
reqwest = { version = "*", default-features = false, features = ["json"] }
serde = { version = "1", features = ["derive"] }
serde_json = "1"
tokio = { version = "1", features = ["full"] }
tower-http = { version = "*", features = ["cors"] }
xxhash-rust = { version = "*", features = ["xxh3"] }
