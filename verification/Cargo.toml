[package]
name = "skill_register"
version = "0.1.0"
edition = "2021"
publish = false

[dependencies]
coap = "*"
coap-lite = "*"
futures = "*"
rmp-serde = "*"
serde = { version = "*", features = ["derive"] }
thiserror = "*"
toml = "*"
unic-langid = "*"
