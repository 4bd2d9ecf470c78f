[package]
name = "toychain"
version = "0.1.0"
edition = "2021"
publish = false

[dependencies]
rust-crypto = "0.2"
sha2 = "*"
hex = "*"
serde = { version = "1", features = ["derive"] }
serde_json = "1"
reqwest = { version = "*", default-features = false, features = ["blocking"] }
actix-web = { version = "4", default-features = false, features = ["macros"] }
