[package]
name = "secret_sharing"
version = "0.1.0"
edition = "2021"
publish = false

[dependencies]
base64 = "=0.9.3"
rand = "=0.8.8"
sha2 = "=0.10.9"
neon = "=1.1.2"

[dev-dependencies]
rusty_secrets = "=0.0.2"
